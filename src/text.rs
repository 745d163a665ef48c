//! The textual form of a polynomial, such as `x^4 + x^1 + 1`.

use vstd::prelude::*;

verus! {

/// The decimal digit for `d < 10`.
pub open spec fn digit_char(d: nat) -> char {
    if d == 0 {
        '0'
    } else if d == 1 {
        '1'
    } else if d == 2 {
        '2'
    } else if d == 3 {
        '3'
    } else if d == 4 {
        '4'
    } else if d == 5 {
        '5'
    } else if d == 6 {
        '6'
    } else if d == 7 {
        '7'
    } else if d == 8 {
        '8'
    } else {
        '9'
    }
}

/// `n` written in decimal, without leading zeros.
pub open spec fn decimal(n: nat) -> Seq<char>
    decreases n,
{
    if n < 10 {
        seq![digit_char(n)]
    } else {
        decimal(n / 10) + seq![digit_char(n % 10)]
    }
}

/// The term for exponent `e`: `1` for the constant, `x^<e>` otherwise.
pub open spec fn term_text(e: nat) -> Seq<char> {
    if e == 0 {
        seq!['1']
    } else {
        seq!['x', '^'] + decimal(e)
    }
}

/// The terms for the exponents of `p` in `lo..hi`, highest first, joined by ` + `.
pub open spec fn terms_text(p: Set<nat>, lo: nat, hi: nat) -> Seq<char>
    decreases hi - lo,
{
    if lo >= hi {
        seq![]
    } else {
        let above = terms_text(p, lo + 1, hi);
        if !p.contains(lo) {
            above
        } else if above.len() == 0 {
            term_text(lo)
        } else {
            above + seq![' ', '+', ' '] + term_text(lo)
        }
    }
}

/// The text of a polynomial whose exponents are all below `hi`: its terms, or `0`
/// for the zero polynomial.
pub open spec fn poly_text(p: Set<nat>, hi: nat) -> Seq<char> {
    if terms_text(p, 0, hi).len() == 0 {
        seq!['0']
    } else {
        terms_text(p, 0, hi)
    }
}

/// Raising the bound past exponents that are absent changes nothing.
pub proof fn lemma_terms_text_bound(p: Set<nat>, lo: nat, hi: nat, hi2: nat)
    requires
        hi <= hi2,
        forall|e: nat| p.contains(e) ==> e < hi,
    ensures
        terms_text(p, lo, hi2) == terms_text(p, lo, hi),
    decreases hi2 - lo,
{
    if lo < hi2 {
        lemma_terms_text_bound(p, lo + 1, hi, hi2);
    }
}

/// The text of a term is never empty.
pub proof fn lemma_term_text_nonempty(e: nat)
    ensures
        term_text(e).len() > 0,
{
    if e > 0 {
        assert(decimal(e).len() > 0) by {
            reveal_with_fuel(decimal, 2);
        }
    }
}

fn digit_text(d: usize) -> (r: &'static str)
    requires
        d < 10,
    ensures
        r@ == seq![digit_char(d as nat)],
{
    proof {
        reveal_strlit("0");
        reveal_strlit("1");
        reveal_strlit("2");
        reveal_strlit("3");
        reveal_strlit("4");
        reveal_strlit("5");
        reveal_strlit("6");
        reveal_strlit("7");
        reveal_strlit("8");
        reveal_strlit("9");
    }
    match d {
        0 => "0",
        1 => "1",
        2 => "2",
        3 => "3",
        4 => "4",
        5 => "5",
        6 => "6",
        7 => "7",
        8 => "8",
        _ => "9",
    }
}

/// Appends `n` in decimal.
pub(crate) fn push_decimal(out: &mut String, n: usize)
    ensures
        final(out)@ == old(out)@ + decimal(n as nat),
    decreases n,
{
    if n >= 10 {
        push_decimal(out, n / 10);
    }
    out.append(digit_text(n % 10));
    assert(decimal(n as nat) =~= if n < 10 { seq![digit_char(n as nat)] } else { decimal((n / 10) as nat) + seq![digit_char((n % 10) as nat)] });
}

/// Appends the term for exponent `e`.
pub(crate) fn push_term(out: &mut String, e: usize)
    ensures
        final(out)@ == old(out)@ + term_text(e as nat),
{
    proof {
        reveal_strlit("1");
        reveal_strlit("x^");
    }
    if e == 0 {
        out.append("1");
    } else {
        out.append("x^");
        push_decimal(out, e);
        assert(out@ =~= old(out)@ + term_text(e as nat));
    }
}

} // verus!
