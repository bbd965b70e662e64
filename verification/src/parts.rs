//! Bookkeeping for state that is stored part by part: which rows changed since they were last
//! reported.

use crate::order::in_order;
use crate::ordmap::{Key, OrdSet};
use vstd::prelude::*;

verus! {

/// Keys of a part whose rows changed since they were last reported. It is not state: two states
/// that differ only here are equal.
#[derive(Clone, Debug)]
pub struct Changed<K: Key> {
    keys: OrdSet<K>,
}

impl<K: Key> View for Changed<K> {
    type V = Set<K::O>;

    closed spec fn view(&self) -> Set<K::O> {
        self.keys@
    }
}

impl<K: Key> Default for Changed<K> {
    fn default() -> (r: Changed<K>)
        ensures
            r@ == Set::<K::O>::empty(),
    {
        Changed { keys: OrdSet::new() }
    }
}

impl<K: Key> PartialEq for Changed<K> {
    fn eq(&self, other: &Changed<K>) -> (r: bool) {
        true
    }
}

impl<K: Key> vstd::std_specs::cmp::PartialEqSpecImpl for Changed<K> {
    open spec fn obeys_eq_spec() -> bool {
        true
    }

    open spec fn eq_spec(&self, other: &Changed<K>) -> bool {
        true
    }
}

impl<K: Key> Eq for Changed<K> {

}

impl<K: Key> Changed<K> {
    /// The row at `key` changed, or went away.
    pub fn note(&mut self, key: &K)
        ensures
            final(self)@ == old(self)@.insert(key.key()),
    {
        if !self.keys.contains(key) {
            self.keys.insert(key.copy_key());
        } else {
            assert(self@ =~= self@.insert(key.key()));
        }
    }

    /// Every key noted since the last call, in key order.
    pub fn take(&mut self) -> (r: Vec<K>)
        ensures
            final(self)@ == Set::<K::O>::empty(),
            r.len() == in_order(old(self)@).len(),
            forall|i: int| 0 <= i < r.len() ==> (#[trigger] r@[i]).key() == in_order(old(self)@)[i],
    {
        let mut taken: OrdSet<K> = OrdSet::new();
        std::mem::swap(&mut taken, &mut self.keys);
        taken.to_vec()
    }
}

/// The name of a part, if it differs.
pub fn differs(name: &'static str, equal: bool) -> (r: Option<&'static str>)
    ensures
        r == if equal {
            None
        } else {
            Some(name)
        },
{
    if equal {
        None
    } else {
        Some(name)
    }
}

} // verus!
