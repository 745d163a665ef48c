//! Finite sums over GF(2): the XOR of a run of boolean terms, and the algebra
//! that the proofs about linear recurrences rest on.

use vstd::prelude::*;

verus! {

/// XOR of `f(0), f(1), ..., f(k - 1)`.
pub open spec fn xsum(f: spec_fn(nat) -> bool, k: nat) -> bool
    decreases k,
{
    if k == 0 {
        false
    } else {
        xsum(f, (k - 1) as nat) ^ f((k - 1) as nat)
    }
}

/// Sums of terms that agree below `k` agree.
pub proof fn lemma_xsum_ext(f: spec_fn(nat) -> bool, g: spec_fn(nat) -> bool, k: nat)
    requires
        forall|i: nat| i < k ==> #[trigger] f(i) == g(i),
    ensures
        xsum(f, k) == xsum(g, k),
    decreases k,
{
    if k > 0 {
        lemma_xsum_ext(f, g, (k - 1) as nat);
    }
}

/// Terms that are all false from `k1` on add nothing up to `k2`.
pub proof fn lemma_xsum_zero_tail(f: spec_fn(nat) -> bool, k1: nat, k2: nat)
    requires
        k1 <= k2,
        forall|i: nat| k1 <= i < k2 ==> !#[trigger] f(i),
    ensures
        xsum(f, k2) == xsum(f, k1),
    decreases k2,
{
    if k2 > k1 {
        lemma_xsum_zero_tail(f, k1, (k2 - 1) as nat);
    }
}

/// The sum of termwise XORs is the XOR of the sums.
pub proof fn lemma_xsum_xor(f: spec_fn(nat) -> bool, g: spec_fn(nat) -> bool, k: nat)
    ensures
        xsum(|i: nat| f(i) ^ g(i), k) == xsum(f, k) ^ xsum(g, k),
    decreases k,
{
    if k > 0 {
        lemma_xsum_xor(f, g, (k - 1) as nat);
    }
}

/// Multiplication (AND) by a constant distributes over the sum.
pub proof fn lemma_xsum_and(x: bool, f: spec_fn(nat) -> bool, k: nat)
    ensures
        xsum(|i: nat| x && f(i), k) == (x && xsum(f, k)),
    decreases k,
{
    if k > 0 {
        lemma_xsum_and(x, f, (k - 1) as nat);
    }
}

/// The order of summation of a double sum does not matter.
pub proof fn lemma_xsum_swap(f: spec_fn(nat, nat) -> bool, a: nat, b: nat)
    ensures
        xsum(|i: nat| xsum(|j: nat| f(i, j), b), a) == xsum(|j: nat| xsum(|i: nat| f(i, j), a), b),
    decreases a,
{
    if a > 0 {
        let a1 = (a - 1) as nat;
        let outer = |i: nat| xsum(|j: nat| f(i, j), b);
        let inner = |j: nat| xsum(|i: nat| f(i, j), a1);
        let last = |j: nat| f(a1, j);
        lemma_xsum_swap(f, a1, b);
        lemma_xsum_xor(inner, last, b);
        let full = |j: nat| xsum(|i: nat| f(i, j), a);
        assert forall|j: nat| j < b implies #[trigger] full(j) == (inner(j) ^ last(j)) by {
            assert(xsum(|i: nat| f(i, j), a) == xsum(|i: nat| f(i, j), a1) ^ f(a1, j));
        }
        lemma_xsum_ext(full, |j: nat| inner(j) ^ last(j), b);
        assert(outer(a1) == xsum(last, b)) by {
            lemma_xsum_ext(|j: nat| f(a1, j), last, b);
        }
        assert(xsum(outer, a) == xsum(outer, a1) ^ outer(a1));
        assert(xsum(full, b) == xsum(inner, b) ^ xsum(last, b));
    } else {
        lemma_xsum_zero_tail(|j: nat| xsum(|i: nat| f(i, j), a), 0, b);
    }
}

} // verus!
