//! Polynomials over GF(2), seen as finite sets of exponents.

use vstd::prelude::*;
use crate::sum::xsum;
use crate::text::{lemma_term_text_nonempty, lemma_terms_text_bound, poly_text, push_term, terms_text};

verus! {

/// Sum of two polynomials over GF(2): the exponents present in exactly one of them.
pub open spec fn poly_add(p: Set<nat>, q: Set<nat>) -> Set<nat> {
    p.difference(q).union(q.difference(p))
}

/// Product of a polynomial with the monomial `x^k`.
pub open spec fn poly_shift(p: Set<nat>, k: nat) -> Set<nat> {
    Set::new(|e: nat| e >= k && p.contains((e - k) as nat))
}

/// Addition over GF(2) is commutative and associative, and every polynomial is its
/// own negative.
pub proof fn lemma_add_laws(p: Set<nat>, q: Set<nat>, r: Set<nat>)
    ensures
        poly_add(p, q) == poly_add(q, p),
        poly_add(poly_add(p, q), r) == poly_add(p, poly_add(q, r)),
        poly_add(p, p) == Set::<nat>::empty(),
{
    assert(poly_add(p, q) =~= poly_add(q, p));
    assert(poly_add(poly_add(p, q), r) =~= poly_add(p, poly_add(q, r)));
    assert(poly_add(p, p) =~= Set::<nat>::empty());
}

/// Whether `s[j]` is a one.
pub open spec fn bit(s: Seq<i32>, j: int) -> bool {
    s[j] == 1
}

/// XOR of `s[j - e]` over the exponents `e < k` of `c`.
pub open spec fn parity(c: Set<nat>, s: Seq<i32>, j: int, k: nat) -> bool {
    xsum(|e: nat| c.contains(e) && bit(s, j - e), k)
}

/// Coefficient of `x^e` in a coefficient list.
spec fn coef(v: Seq<bool>, e: int) -> bool {
    0 <= e < v.len() && v[e]
}

spec fn exponents_of(v: Seq<bool>) -> Set<nat> {
    Set::new(|e: nat| coef(v, e as int))
}

/// A polynomial over GF(2). Coefficient `e` of the list is that of `x^e`;
/// the list never ends in a zero, so a polynomial has one representation.
pub struct Polynomial {
    coeffs: Vec<bool>,
}

impl View for Polynomial {
    type V = Set<nat>;

    closed spec fn view(&self) -> Set<nat> {
        exponents_of(self.coeffs@)
    }
}

impl Polynomial {
    #[verifier::type_invariant]
    spec fn is_trimmed(self) -> bool {
        self.coeffs@.len() == 0 || self.coeffs@.last()
    }

    /// Drops the zero coefficients at the top of a list.
    fn from_coeffs(coeffs: Vec<bool>) -> (r: Polynomial)
        ensures
            r@ == exponents_of(coeffs@),
    {
        let ghost orig = coeffs@;
        let mut coeffs = coeffs;
        while coeffs.len() > 0 && !coeffs[coeffs.len() - 1]
            invariant
                coeffs@.len() <= orig.len(),
                coeffs@ == orig.subrange(0, coeffs@.len() as int),
                forall|e: int| coeffs@.len() <= e < orig.len() ==> !orig[e],
            decreases coeffs@.len(),
        {
            coeffs.pop();
        }
        let r = Polynomial { coeffs };
        assert(r@ =~= exponents_of(orig));
        r
    }

    /// The constant polynomial 1.
    pub fn one() -> (r: Polynomial)
        ensures
            r@ == set![0nat],
    {
        let r = Polynomial { coeffs: vec![true] };
        assert(r@ =~= set![0nat]);
        r
    }

    /// The polynomial whose exponents are the elements of `exps`.
    pub fn from_exponents(exps: &Vec<usize>) -> (r: Polynomial)
        requires
            forall|i: int| 0 <= i < exps@.len() ==> #[trigger] exps@[i] < usize::MAX,
        ensures
            forall|e: nat| r@.contains(e) <==> exists|i: int| 0 <= i < exps@.len() && exps@[i] == e,
    {
        let mut len: usize = 0;
        let mut i: usize = 0;
        while i < exps.len()
            invariant
                i <= exps@.len(),
                forall|j: int| 0 <= j < exps@.len() ==> #[trigger] exps@[j] < usize::MAX,
                forall|j: int| 0 <= j < i ==> #[trigger] exps@[j] < len,
            decreases exps@.len() - i,
        {
            if exps[i] >= len {
                len = exps[i] + 1;
            }
            i += 1;
        }
        let mut coeffs: Vec<bool> = Vec::with_capacity(len);
        let mut j: usize = 0;
        while j < len
            invariant
                j <= len,
                coeffs@.len() == j,
                forall|e: int| 0 <= e < j ==> !coeffs@[e],
            decreases len - j,
        {
            coeffs.push(false);
            j += 1;
        }
        let mut i: usize = 0;
        while i < exps.len()
            invariant
                i <= exps@.len(),
                coeffs@.len() == len,
                forall|j: int| 0 <= j < exps@.len() ==> #[trigger] exps@[j] < len,
                forall|e: int| 0 <= e < len ==> (#[trigger] coeffs@[e] <==> exists|j: int|
                    0 <= j < i && exps@[j] == e),
            decreases exps@.len() - i,
        {
            coeffs.set(exps[i], true);
            i += 1;
            assert forall|e: int| 0 <= e < len implies (#[trigger] coeffs@[e] <==> exists|j: int|
                0 <= j < i && exps@[j] == e) by {
                if e == exps@[i - 1] {
                    assert(exists|j: int| 0 <= j < i && exps@[j] == e) by {
                        assert(exps@[i - 1] == e);
                    }
                }
            }
        }
        let r = Polynomial::from_coeffs(coeffs);
        assert forall|e: nat| (exists|i: int| 0 <= i < exps@.len() && exps@[i] == e) implies r@.contains(e) by {
            let i = choose|i: int| 0 <= i < exps@.len() && exps@[i] == e;
            assert(exps@[i] < len);
        }
        r
    }

    /// The exponents, highest first.
    pub fn exponents(&self) -> (r: Vec<usize>)
        ensures
            forall|i: int, j: int| 0 <= i < j < r@.len() ==> r@[i] > r@[j],
            forall|e: nat| self@.contains(e) <==> exists|i: int| 0 <= i < r@.len() && r@[i] == e,
    {
        let mut r: Vec<usize> = Vec::new();
        let mut i: usize = self.coeffs.len();
        while i > 0
            invariant
                i <= self.coeffs@.len(),
                forall|a: int, b: int| 0 <= a < b < r@.len() ==> r@[a] > r@[b],
                forall|a: int| 0 <= a < r@.len() ==> r@[a] >= i,
                forall|e: nat| (i <= e && self@.contains(e)) <==> exists|a: int| 0 <= a < r@.len() && r@[a] == e,
            decreases i,
        {
            i -= 1;
            let ghost before = r@;
            if self.coeffs[i] {
                r.push(i);
            }
            assert forall|e: nat| (i <= e && self@.contains(e)) <==> exists|a: int| 0 <= a < r@.len() && r@[a] == e by {
                if i <= e && self@.contains(e) {
                    if e == i {
                        assert(r@[r@.len() - 1] == e);
                    } else {
                        let a = choose|a: int| 0 <= a < before.len() && before[a] == e;
                        assert(r@[a] == e);
                    }
                }
                if exists|a: int| 0 <= a < r@.len() && r@[a] == e {
                    let a = choose|a: int| 0 <= a < r@.len() && r@[a] == e;
                    if a < before.len() {
                        assert(before[a] == e);
                    }
                }
            }
        }
        r
    }

    /// The polynomial as text: the terms by descending exponent, `1` for the constant
    /// and `x^<e>` for the others, joined by ` + `; `0` for the zero polynomial.
    pub fn to_display(&self) -> (r: String)
        ensures
            forall|hi: nat| (forall|e: nat| self@.contains(e) ==> e < hi) ==> r@ == poly_text(self@, hi),
    {
        let len = self.coeffs.len();
        let mut r = String::new();
        let mut first = true;
        let mut i: usize = len;
        while i > 0
            invariant
                i <= len == self.coeffs@.len(),
                r@ == terms_text(self@, i as nat, len as nat),
                first <==> r@.len() == 0,
            decreases i,
        {
            i -= 1;
            if self.coeffs[i] {
                if !first {
                    r.append(" + ");
                }
                push_term(&mut r, i);
                first = false;
                proof {
                    reveal_strlit(" + ");
                    lemma_term_text_nonempty(i as nat);
                }
            }
            assert(r@ =~= terms_text(self@, i as nat, len as nat));
        }
        if first {
            r.append("0");
        }
        proof {
            reveal_strlit("0");
            assert forall|hi: nat| (forall|e: nat| self@.contains(e) ==> e < hi) implies r@ == poly_text(self@, hi) by {
                if hi <= len {
                    lemma_terms_text_bound(self@, 0, hi, len as nat);
                } else {
                    lemma_terms_text_bound(self@, 0, len as nat, hi);
                }
            }
        }
        r
    }

    /// Whether `x^e` has coefficient 1.
    pub fn contains(&self, e: usize) -> (r: bool)
        ensures
            r == self@.contains(e as nat),
    {
        e < self.coeffs.len() && self.coeffs[e]
    }

    /// Sum over GF(2): the exponents present in exactly one operand.
    pub fn add(&self, other: &Polynomial) -> (r: Polynomial)
        ensures
            r@ == poly_add(self@, other@),
    {
        let a = &self.coeffs;
        let b = &other.coeffs;
        let n: usize = if a.len() >= b.len() { a.len() } else { b.len() };
        let mut coeffs: Vec<bool> = Vec::with_capacity(n);
        let mut i: usize = 0;
        while i < n
            invariant
                i <= n,
                n == a@.len() || n == b@.len(),
                a@.len() <= n && b@.len() <= n,
                coeffs@.len() == i,
                forall|e: int| 0 <= e < i ==> coeffs@[e] == (coef(a@, e) ^ coef(b@, e)),
            decreases n - i,
        {
            let x = i < a.len() && a[i];
            let y = i < b.len() && b[i];
            coeffs.push(x ^ y);
            i += 1;
        }
        let r = Polynomial::from_coeffs(coeffs);
        assert(r@ =~= poly_add(self@, other@));
        r
    }

    /// Product with the monomial `x^k`.
    pub fn shift(&self, k: usize) -> (r: Polynomial)
        requires
            forall|e: nat| self@.contains(e) ==> e + k < usize::MAX,
        ensures
            r@ == poly_shift(self@, k as nat),
    {
        proof {
            use_type_invariant(self);
        }
        let len = self.coeffs.len();
        if len == 0 {
            let r = Polynomial { coeffs: Vec::new() };
            assert(r@ =~= poly_shift(self@, k as nat));
            return r;
        }
        assert(self@.contains((len - 1) as nat));
        let mut coeffs: Vec<bool> = Vec::with_capacity(len + k);
        let mut i: usize = 0;
        while i < k
            invariant
                i <= k,
                coeffs@.len() == i,
                forall|e: int| 0 <= e < i ==> !coeffs@[e],
            decreases k - i,
        {
            coeffs.push(false);
            i += 1;
        }
        let mut j: usize = 0;
        while j < len
            invariant
                len == self.coeffs@.len(),
                len + k <= usize::MAX,
                j <= len,
                coeffs@.len() == k + j,
                forall|e: int| 0 <= e < k ==> !coeffs@[e],
                forall|e: int| 0 <= e < j ==> coeffs@[k + e] == self.coeffs@[e],
            decreases len - j,
        {
            coeffs.push(self.coeffs[j]);
            j += 1;
        }
        let r = Polynomial { coeffs };
        assert(r.coeffs@.last() == self.coeffs@.last());
        assert(r@ =~= poly_shift(self@, k as nat)) by {
            assert forall|e: nat| r@.contains(e) == poly_shift(self@, k as nat).contains(e) by {
                if e >= k && e < k + len {
                    assert(r.coeffs@[e as int] == self.coeffs@[e - k]);
                }
            }
        }
        r
    }

    /// The discrepancy at position `base`: the XOR of `s[base - e]` over the exponents `e`.
    pub fn evaluate_discrepancy(&self, s: &Vec<i32>, base: usize) -> (r: bool)
        requires
            base < s@.len(),
            forall|e: nat| self@.contains(e) ==> e <= base,
        ensures
            r == parity(self@, s@, base as int, (base + 1) as nat),
    {
        proof {
            use_type_invariant(self);
        }
        let len = self.coeffs.len();
        if len > 0 {
            assert(self@.contains((len - 1) as nat));
        }
        let ghost f = |e: nat| self@.contains(e) && bit(s@, base - e);
        let mut d = false;
        let mut i: usize = 0;
        while i < len
            invariant
                len == self.coeffs@.len(),
                len <= base + 1,
                base < s@.len(),
                i <= len,
                f == (|e: nat| self@.contains(e) && bit(s@, base - e)),
                d == xsum(f, i as nat),
            decreases len - i,
        {
            let term = self.coeffs[i] && s[base - i] == 1;
            assert(term == f(i as nat));
            d = d ^ term;
            i += 1;
        }
        proof {
            crate::sum::lemma_xsum_zero_tail(f, len as nat, (base + 1) as nat);
        }
        d
    }

    /// The largest exponent, or `None` for the zero polynomial.
    pub fn degree(&self) -> (r: Option<usize>)
        ensures
            r is None <==> self@ == Set::<nat>::empty(),
            r matches Some(d) ==> self@.contains(d as nat) && forall|e: nat|
                self@.contains(e) ==> e <= d,
    {
        proof {
            use_type_invariant(self);
        }
        if self.coeffs.len() == 0 {
            assert(self@ =~= Set::<nat>::empty());
            None
        } else {
            assert(self@.contains((self.coeffs@.len() - 1) as nat));
            Some(self.coeffs.len() - 1)
        }
    }
}

} // verus!
