//! The Berlekamp–Massey synthesis: a single forward pass over the sequence that
//! keeps the shortest LFSR producing the prefix read so far.

use vstd::prelude::*;
use crate::poly::{bit, parity, poly_add, poly_shift, Polynomial};
use crate::recurrence::{
    discrepancy, generates, generates_prefix, is_binary, lemma_generates_prefix, lemma_massey,
    lemma_parity_add, lemma_parity_constant, lemma_parity_shift,
};
use crate::text::poly_text;

verus! {

/// The state of the synthesis between two positions of the sequence.
pub struct SynthesisState {
    /// The current connection polynomial.
    pub c: Set<nat>,
    /// The connection polynomial before the last length change.
    pub b: Set<nat>,
    /// The current length of the LFSR.
    pub l: nat,
    /// The position of the last length change; -1 before the first.
    pub m: int,
}

/// The state before any position is read: the polynomial 1, length 0.
pub open spec fn initial_state() -> SynthesisState {
    SynthesisState { c: set![0nat], b: set![0nat], l: 0, m: -1 }
}

/// The state after reading `s[n]`. Nothing changes where the LFSR predicts the bit;
/// otherwise `c` gets `x^(n - m) * b` added, and where `2 * l <= n` the length
/// becomes `n + 1 - l` and the old `c` is kept as `b`.
pub open spec fn step(st: SynthesisState, s: Seq<i32>, n: nat) -> SynthesisState {
    if !discrepancy(st.c, s, n) {
        st
    } else {
        let c = poly_add(st.c, poly_shift(st.b, (n - st.m) as nat));
        if 2 * st.l <= n {
            SynthesisState { c, b: st.c, l: (n + 1 - st.l) as nat, m: n as int }
        } else {
            SynthesisState { c, ..st }
        }
    }
}

/// The state after reading the first `k` elements of `s`.
pub open spec fn run(s: Seq<i32>, k: nat) -> SynthesisState
    decreases k,
{
    if k == 0 {
        initial_state()
    } else {
        step(run(s, (k - 1) as nat), s, (k - 1) as nat)
    }
}

/// The state after reading all of `s`: its `c` and `l` are the result of the synthesis.
pub open spec fn synthesized(s: Seq<i32>) -> SynthesisState {
    run(s, s.len())
}

/// What holds of the state after the first `k` elements: `c` is the connection
/// polynomial of an LFSR of length `l` that produces them, none shorter does, and
/// `b` is one of length `m + 1 - l` that produces the first `m` but not `s[m]`.
spec fn state_inv(st: SynthesisState, s: Seq<i32>, k: nat) -> bool {
    let lb = st.m + 1 - st.l;
    &&& st.c.contains(0)
    &&& st.b.contains(0)
    &&& forall|e: nat| st.c.contains(e) ==> e <= st.l
    &&& st.l <= k
    &&& -1 <= st.m < k
    &&& st.m == -1 ==> st.l == 0 && st.b == set![0nat]
    &&& lb >= 0
    &&& forall|e: nat| st.b.contains(e) ==> e <= lb
    &&& forall|j: nat| lb <= j < st.m ==> !#[trigger] discrepancy(st.b, s, j)
    &&& st.m >= 0 ==> lb <= st.m && discrepancy(st.b, s, st.m as nat)
    &&& forall|j: nat| st.l <= j < k ==> !#[trigger] discrepancy(st.c, s, j)
    &&& forall|d: Set<nat>, ld: nat| #[trigger] generates_prefix(d, ld, s, k) ==> st.l <= ld
}

proof fn lemma_step_inv(st: SynthesisState, s: Seq<i32>, n: nat)
    requires
        n < s.len(),
        state_inv(st, s, n),
    ensures
        state_inv(step(st, s, n), s, n + 1),
{
    let nx = step(st, s, n);
    assert forall|d: Set<nat>, ld: nat| #[trigger] generates_prefix(d, ld, s, n + 1) implies nx.l <= ld by {
        assert(generates_prefix(d, ld, s, n));
        if discrepancy(st.c, s, n) {
            lemma_massey(st.c, st.l, d, ld, s, n);
        }
    }
    if discrepancy(st.c, s, n) {
        let t = (n - st.m) as nat;
        let lb = st.m + 1 - st.l;
        let sb = poly_shift(st.b, t);
        assert(!sb.contains(0));
        assert forall|e: nat| nx.c.contains(e) implies e <= nx.l by {
            if sb.contains(e) {
                assert(st.b.contains((e - t) as nat));
            }
        }
        assert forall|j: nat| nx.l <= j < n + 1 implies !#[trigger] discrepancy(nx.c, s, j) by {
            lemma_parity_add(st.c, sb, s, j as int, j + 1);
            lemma_parity_shift(st.b, t, s, j as int, j + 1);
            assert(nx.l >= n + 1 - st.l);
            assert(nx.l >= st.l);
            assert(j + 1 >= t);
            let jb = (j - t) as nat;
            assert(parity(st.b, s, j - t, (j + 1 - t) as nat) == discrepancy(st.b, s, jb));
            if j < n {
                assert(!discrepancy(st.c, s, j));
                assert(lb <= jb < st.m);
                assert(!discrepancy(st.b, s, jb));
            } else {
                assert(st.m >= 0);
                assert(jb == st.m);
            }
        }
    }
}

proof fn lemma_run_inv(s: Seq<i32>, k: nat)
    requires
        k <= s.len(),
    ensures
        state_inv(run(s, k), s, k),
    decreases k,
{
    if k == 0 {
        let st = initial_state();
        assert forall|d: Set<nat>, ld: nat| #[trigger] generates_prefix(d, ld, s, 0) implies st.l <= ld by {}
    } else {
        lemma_run_inv(s, (k - 1) as nat);
        lemma_step_inv(run(s, (k - 1) as nat), s, (k - 1) as nat);
    }
}

/// The state after all of `s` describes an LFSR that produces `s`.
pub proof fn lemma_synthesized_generates(s: Seq<i32>)
    ensures
        generates(synthesized(s).c, synthesized(s).l, s),
{
    let st = synthesized(s);
    lemma_run_inv(s, s.len());
    assert forall|n: int| st.l <= n < s.len() implies #[trigger] bit(s, n) == parity(st.c.remove(0), s, n, (n + 1) as nat) by {
        assert(!discrepancy(st.c, s, n as nat));
        lemma_parity_constant(st.c, s, n, (n + 1) as nat);
    }
}

/// No LFSR shorter than the synthesized one produces `s`.
pub proof fn lemma_synthesized_is_shortest(s: Seq<i32>, d: Set<nat>, ld: nat)
    requires
        generates(d, ld, s),
    ensures
        synthesized(s).l <= ld,
{
    lemma_run_inv(s, s.len());
}

/// The length synthesized for a prefix of `s` never decreases as the prefix grows.
pub proof fn lemma_prefix_lengths_grow(s: Seq<i32>, k1: nat, k2: nat)
    requires
        k1 <= k2 <= s.len(),
    ensures
        synthesized(s.subrange(0, k1 as int)).l <= synthesized(s.subrange(0, k2 as int)).l,
{
    let s1 = s.subrange(0, k1 as int);
    let s2 = s.subrange(0, k2 as int);
    let st2 = synthesized(s2);
    lemma_synthesized_generates(s2);
    lemma_generates_prefix(st2.c, st2.l, s2, k1);
    assert(s2.subrange(0, k1 as int) =~= s1);
    lemma_synthesized_is_shortest(s1, st2.c, st2.l);
}

/// Why a sequence was refused.
#[derive(Debug, Clone, Copy, PartialEq, Eq)]
pub enum BmError {
    /// `value`, at `index`, is neither 0 nor 1; no element before it is such.
    InvalidInput { index: usize, value: i32 },
}

/// What the synthesis of `s` returns: the shortest LFSR that produces `s`, as the
/// connection polynomial and length that the single pass arrives at, where `s` holds
/// bits only; otherwise the first element that is not a bit.
pub open spec fn synthesis_outcome(s: Seq<i32>, r: Result<(Polynomial, usize), BmError>) -> bool {
    match r {
        Ok((c, l)) => {
            &&& is_binary(s)
            &&& c@ == synthesized(s).c
            &&& l == synthesized(s).l
            &&& generates(c@, l as nat, s)
            &&& forall|d: Set<nat>, ld: nat| #[trigger] generates(d, ld, s) ==> l <= ld
        },
        Err(BmError::InvalidInput { index, value }) => {
            &&& index < s.len()
            &&& value == s[index as int]
            &&& value != 0 && value != 1
            &&& forall|j: int| 0 <= j < index ==> #[trigger] s[j] == 0 || s[j] == 1
        },
    }
}

/// The outcome of the synthesis is a function of the sequence: two outcomes for the
/// same sequence hold the same polynomial and length, or the same error.
pub proof fn lemma_outcome_is_determined(
    s: Seq<i32>,
    r1: Result<(Polynomial, usize), BmError>,
    r2: Result<(Polynomial, usize), BmError>,
)
    requires
        synthesis_outcome(s, r1),
        synthesis_outcome(s, r2),
    ensures
        r1 is Ok <==> r2 is Ok,
        r1 is Ok ==> r1->Ok_0.0@ == r2->Ok_0.0@ && r1->Ok_0.1 == r2->Ok_0.1,
        r1 is Err ==> r1 == r2,
{
    if let (Err(BmError::InvalidInput { index: i1, .. }), Err(BmError::InvalidInput { index: i2, .. })) = (r1, r2) {
        if i1 < i2 {
            assert(s[i1 as int] == 0 || s[i1 as int] == 1);
        } else if i2 < i1 {
            assert(s[i2 as int] == 0 || s[i2 as int] == 1);
        }
    }
    if r1 is Ok && r2 is Err {
        let i = r2->Err_0->index;
        assert(s[i as int] == 0 || s[i as int] == 1);
    }
    if r2 is Ok && r1 is Err {
        let i = r1->Err_0->index;
        assert(s[i as int] == 0 || s[i as int] == 1);
    }
}

/// The first element of `s` that is not a bit.
fn first_invalid(s: &Vec<i32>) -> (r: Option<usize>)
    ensures
        r is None ==> is_binary(s@),
        r matches Some(i) ==> i < s@.len() && s@[i as int] != 0 && s@[i as int] != 1
            && forall|j: int| 0 <= j < i ==> #[trigger] s@[j] == 0 || s@[j] == 1,
{
    let mut i: usize = 0;
    while i < s.len()
        invariant
            i <= s@.len(),
            forall|j: int| 0 <= j < i ==> #[trigger] s@[j] == 0 || s@[j] == 1,
        decreases s@.len() - i,
    {
        if s[i] != 0 && s[i] != 1 {
            return Some(i);
        }
        i += 1;
    }
    None
}

/// The position of the last length change, -1 for none.
spec fn position(m: Option<usize>) -> int {
    match m {
        None => -1,
        Some(p) => p as int,
    }
}

/// Synthesizes the shortest LFSR that produces `s`, with the Berlekamp–Massey
/// algorithm: returns its connection polynomial and length, or the first element
/// of `s` that is not a bit. The polynomial may need `s.len() + 1` coefficients,
/// hence the bound on the length.
pub fn synthesize(s: &Vec<i32>) -> (r: Result<(Polynomial, usize), BmError>)
    requires
        s@.len() < usize::MAX,
    ensures
        synthesis_outcome(s@, r),
{
    if let Some(index) = first_invalid(s) {
        return Err(BmError::InvalidInput { index, value: s[index] });
    }
    let mut c = Polynomial::one();
    let mut b = Polynomial::one();
    let mut l: usize = 0;
    let mut m: Option<usize> = None;
    let mut n: usize = 0;
    while n < s.len()
        invariant
            n <= s@.len() < usize::MAX,
            c@ == run(s@, n as nat).c,
            b@ == run(s@, n as nat).b,
            l == run(s@, n as nat).l,
            position(m) == run(s@, n as nat).m,
        decreases s@.len() - n,
    {
        proof {
            lemma_run_inv(s@, n as nat);
        }
        if c.evaluate_discrepancy(s, n) {
            let t: usize = match m {
                None => n + 1,
                Some(p) => n - p,
            };
            let next = c.add(&b.shift(t));
            if l <= n - l {
                b = c;
                l = n + 1 - l;
                m = Some(n);
            }
            c = next;
        }
        n += 1;
    }
    proof {
        lemma_synthesized_generates(s@);
        assert forall|d: Set<nat>, ld: nat| #[trigger] generates(d, ld, s@) implies l <= ld by {
            lemma_synthesized_is_shortest(s@, d, ld);
        }
    }
    Ok((c, l))
}

/// A binary sequence, ready for the synthesis of its shortest LFSR.
pub struct BerlekampMassey {
    s: Vec<i32>,
}

impl View for BerlekampMassey {
    type V = Seq<i32>;

    closed spec fn view(&self) -> Seq<i32> {
        self.s@
    }
}

impl BerlekampMassey {
    /// Holds `sequence`; it is checked when the synthesis runs.
    pub fn new(sequence: Vec<i32>) -> (r: BerlekampMassey)
        ensures
            r@ == sequence@,
    {
        BerlekampMassey { s: sequence }
    }

    /// The sequence as given.
    pub fn sequence(&self) -> (r: &Vec<i32>)
        ensures
            r@ == self@,
    {
        &self.s
    }

    /// The connection polynomial and length of the shortest LFSR that produces the
    /// sequence, or the first element that is not a bit.
    pub fn compute(&self) -> (r: Result<(Polynomial, usize), BmError>)
        requires
            self@.len() < usize::MAX,
        ensures
            synthesis_outcome(self@, r),
    {
        synthesize(&self.s)
    }

    /// The text of `polynomial`, as `Polynomial::to_display` writes it.
    pub fn to_string(&self, polynomial: &Polynomial) -> (r: String)
        ensures
            forall|hi: nat| (forall|e: nat| polynomial@.contains(e) ==> e < hi) ==> r@ == poly_text(polynomial@, hi),
    {
        polynomial.to_display()
    }
}

} // verus!
