//! Linear recurrences over GF(2): when a connection polynomial generates a
//! sequence, and the facts about discrepancies that the synthesis relies on.

use vstd::prelude::*;
use crate::poly::{bit, parity, poly_add, poly_shift};
use crate::sum::{xsum, lemma_xsum_and, lemma_xsum_ext, lemma_xsum_swap, lemma_xsum_xor, lemma_xsum_zero_tail};

verus! {

/// Every element of `s` is a 0 or a 1.
pub open spec fn is_binary(s: Seq<i32>) -> bool {
    forall|j: int| 0 <= j < s.len() ==> #[trigger] s[j] == 0 || s[j] == 1
}

/// The LFSR of length `l` with connection polynomial `c` produces the first `k`
/// elements of `s`: every exponent of `c` is at most `l`, and from position `l` on
/// each bit is the XOR of the bits `s[n - i]` over the exponents `i >= 1` of `c`.
pub open spec fn generates_prefix(c: Set<nat>, l: nat, s: Seq<i32>, k: nat) -> bool {
    &&& forall|e: nat| c.contains(e) ==> e <= l
    &&& forall|n: int| l <= n < k ==> #[trigger] bit(s, n) == parity(c.remove(0), s, n, (n + 1) as nat)
}

/// The LFSR of length `l` with connection polynomial `c` produces all of `s`.
pub open spec fn generates(c: Set<nat>, l: nat, s: Seq<i32>) -> bool {
    generates_prefix(c, l, s, s.len())
}

/// Whether the LFSR with connection polynomial `c` mispredicts `s[n]`: the XOR of
/// `s[n - e]` over all exponents `e` of `c`, the constant term included.
pub open spec fn discrepancy(c: Set<nat>, s: Seq<i32>, n: nat) -> bool {
    parity(c, s, n as int, n + 1)
}

/// The constant term contributes `s[j]` itself.
pub proof fn lemma_parity_constant(c: Set<nat>, s: Seq<i32>, j: int, k: nat)
    requires
        k >= 1,
    ensures
        parity(c, s, j, k) == (parity(c.remove(0), s, j, k) ^ (c.contains(0) && bit(s, j))),
    decreases k,
{
    let f = |e: nat| c.contains(e) && bit(s, j - e);
    let f0 = |e: nat| c.remove(0).contains(e) && bit(s, j - e);
    assert(xsum(f, k) == xsum(f, (k - 1) as nat) ^ f((k - 1) as nat));
    assert(xsum(f0, k) == xsum(f0, (k - 1) as nat) ^ f0((k - 1) as nat));
    if k > 1 {
        lemma_parity_constant(c, s, j, (k - 1) as nat);
    } else {
        assert(xsum(f, 0) == false);
        assert(xsum(f0, 0) == false);
    }
}

/// The parity at `j` reads only positions `0..=j`.
pub proof fn lemma_parity_prefix(c: Set<nat>, s: Seq<i32>, t: Seq<i32>, j: int, k: nat)
    requires
        0 <= j < s.len(),
        j < t.len(),
        k <= j + 1,
        forall|i: int| 0 <= i <= j ==> s[i] == t[i],
    ensures
        parity(c, s, j, k) == parity(c, t, j, k),
{
    lemma_xsum_ext(|e: nat| c.contains(e) && bit(s, j - e), |e: nat| c.contains(e) && bit(t, j - e), k);
}

/// An LFSR that produces a sequence produces each of its prefixes.
pub proof fn lemma_generates_prefix(c: Set<nat>, l: nat, s: Seq<i32>, k: nat)
    requires
        k <= s.len(),
        generates(c, l, s),
    ensures
        generates(c, l, s.subrange(0, k as int)),
{
    let t = s.subrange(0, k as int);
    assert forall|n: int| l <= n < t.len() implies #[trigger] bit(t, n) == parity(c.remove(0), t, n, (n + 1) as nat) by {
        assert(bit(s, n) == parity(c.remove(0), s, n, (n + 1) as nat));
        lemma_parity_prefix(c.remove(0), s, t, n, (n + 1) as nat);
    }
}

/// Discrepancies add up: the discrepancy of a sum is the XOR of the discrepancies.
pub proof fn lemma_parity_add(p: Set<nat>, q: Set<nat>, s: Seq<i32>, j: int, k: nat)
    ensures
        parity(poly_add(p, q), s, j, k) == (parity(p, s, j, k) ^ parity(q, s, j, k)),
{
    let f = |e: nat| p.contains(e) && bit(s, j - e);
    let g = |e: nat| q.contains(e) && bit(s, j - e);
    lemma_xsum_xor(f, g, k);
    lemma_xsum_ext(|e: nat| poly_add(p, q).contains(e) && bit(s, j - e), |e: nat| f(e) ^ g(e), k);
}

/// Multiplying by `x^t` moves the discrepancy `t` places along the sequence.
pub proof fn lemma_parity_shift(p: Set<nat>, t: nat, s: Seq<i32>, j: int, k: nat)
    requires
        k >= t,
    ensures
        parity(poly_shift(p, t), s, j, k) == parity(p, s, j - t, (k - t) as nat),
    decreases k,
{
    let f = |e: nat| poly_shift(p, t).contains(e) && bit(s, j - e);
    if k == t {
        lemma_xsum_zero_tail(f, 0, k);
    } else {
        lemma_parity_shift(p, t, s, j, (k - 1) as nat);
        assert(poly_shift(p, t).contains((k - 1) as nat) == p.contains((k - 1 - t) as nat));
    }
}

/// Massey's lemma. If the LFSR of length `l` with connection polynomial `c` produces
/// the first `n` elements of `s` but not `s[n]`, then every LFSR that produces the
/// first `n + 1` elements has length at least `n + 1 - l`.
pub proof fn lemma_massey(c: Set<nat>, l: nat, d: Set<nat>, ld: nat, s: Seq<i32>, n: nat)
    requires
        c.contains(0),
        forall|e: nat| c.contains(e) ==> e <= l,
        l <= n,
        forall|j: nat| l <= j < n ==> !#[trigger] discrepancy(c, s, j),
        discrepancy(c, s, n),
        generates_prefix(d, ld, s, n + 1),
    ensures
        ld + l >= n + 1,
{
    if ld + l <= n {
        let c0 = c.remove(0);
        let d0 = d.remove(0);
        lemma_parity_constant(c, s, n as int, n + 1);
        // The prediction of `c` at `n`, with each predicted bit replaced by the
        // prediction of `d`.
        let fc = |i: nat| c0.contains(i) && bit(s, n - i);
        lemma_xsum_zero_tail(fc, l + 1, n + 1);
        let g = |i: nat, k: nat| c0.contains(i) && d0.contains(k) && bit(s, n - i - k);
        assert forall|i: nat| i < l + 1 implies #[trigger] fc(i) == xsum(|k: nat| g(i, k), ld + 1) by {
            let fd = |k: nat| d0.contains(k) && bit(s, n - i - k);
            lemma_xsum_and(c0.contains(i), fd, ld + 1);
            assert((|k: nat| c0.contains(i) && fd(k)) =~= (|k: nat| g(i, k)));
            if c0.contains(i) {
                let j = n - i;
                assert(bit(s, j) == parity(d0, s, j, (j + 1) as nat));
                lemma_xsum_zero_tail(fd, ld + 1, (j + 1) as nat);
                assert((|e: nat| d0.contains(e) && bit(s, j - e)) =~= fd);
            }
        }
        lemma_xsum_ext(fc, |i: nat| xsum(|k: nat| g(i, k), ld + 1), l + 1);
        lemma_xsum_swap(g, l + 1, ld + 1);
        // Summed the other way round, the inner sums are predictions of `c` that hold.
        let fdn = |k: nat| d0.contains(k) && bit(s, n - k);
        let swapped = |k: nat| xsum(|i: nat| g(i, k), l + 1);
        assert forall|k: nat| k < ld + 1 implies #[trigger] swapped(k) == fdn(k) by {
            let fck = |i: nat| c0.contains(i) && bit(s, n - k - i);
            lemma_xsum_and(d0.contains(k), fck, l + 1);
            assert((|i: nat| d0.contains(k) && fck(i)) =~= (|i: nat| g(i, k)));
            if d0.contains(k) {
                let j = (n - k) as nat;
                assert(!discrepancy(c, s, j));
                lemma_parity_constant(c, s, j as int, j + 1);
                lemma_xsum_zero_tail(fck, l + 1, j + 1);
                assert((|e: nat| c0.contains(e) && bit(s, j - e)) =~= fck);
            }
        }
        lemma_xsum_ext(swapped, fdn, ld + 1);
        lemma_xsum_zero_tail(fdn, ld + 1, n + 1);
        assert(bit(s, n as int) == parity(d0, s, n as int, n + 1));
    }
}

} // verus!
