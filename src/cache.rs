//! Memoisation of a calculation, one result per argument.

use std::collections::HashMap;
use std::hash::Hash;
use vstd::prelude::*;
use vstd::std_specs::hash::obeys_key_model;

verus! {

/// Remembers the result of `calculation` for each argument it has been asked
/// about, so that each argument is calculated once.
#[verifier::reject_recursive_types(V)]
pub struct Cacher<T, V> where T: Fn(V) -> V, V: Eq + Hash + Copy {
    calculation: T,
    value: HashMap<V, V>,
}

impl<T, V> Cacher<T, V> where T: Fn(V) -> V, V: Eq + Hash + Copy {
    /// The calculation accepts every argument, `V`'s equality and hash agree, and
    /// every result kept is one that the calculation may return.
    pub closed spec fn wf(self) -> bool {
        &&& obeys_key_model::<V>()
        &&& forall|x: V| #[trigger] self.calculation.requires((x,))
        &&& forall|x: V| #[trigger] self.value@.contains_key(x) ==> self.calculation.ensures((x, ), self.value@[x])
    }

    /// The calculation whose results are kept.
    pub closed spec fn calculation(self) -> T {
        self.calculation
    }

    /// The results kept so far, by argument.
    pub closed spec fn cache(self) -> Map<V, V> {
        self.value@
    }

    /// A cache for `calculation`, empty. The calculation must accept every argument,
    /// and `V`'s equality and hash must agree.
    pub fn new(calculation: T) -> (r: Cacher<T, V>)
        requires
            obeys_key_model::<V>(),
            forall|x: V| #[trigger] calculation.requires((x,)),
        ensures
            r.wf(),
            r.calculation() == calculation,
            r.cache() == Map::<V, V>::empty(),
    {
        Cacher { calculation, value: HashMap::new() }
    }

    /// The result of the calculation on `arg`: the one kept, where there is one;
    /// otherwise it is calculated now and kept.
    pub fn value<'a>(&'a mut self, arg: V) -> (r: &'a V)
        requires
            old(self).wf(),
        ensures
            final(self).wf(),
            final(self).calculation() == old(self).calculation(),
            old(self).calculation().ensures((arg, ), *r),
            old(self).cache().contains_key(arg) ==> *r == old(self).cache()[arg]
                && final(self).cache() == old(self).cache(),
            !old(self).cache().contains_key(arg) ==> final(self).cache() == old(self).cache().insert(arg, *r),
    {
        broadcast use vstd::std_specs::hash::group_hash_axioms;
        if !self.value.contains_key(&arg) {
            let v = (self.calculation)(arg);
            self.value.insert(arg, v);
        }
        self.value.get(&arg).unwrap()
    }
}

} // verus!
