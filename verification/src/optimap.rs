//! The map itself: a backing store and the size at which it leaves the linear
//! representation.

use crate::linear::{linear_default, linear_with_capacity};
use crate::model::{
    as_map, distinct_keys, lemma_as_map_dom, lemma_as_map_len, map_previous, seq_insert,
    seq_insert_all,
};
use crate::support::MapSupport;
use std::collections::HashMap;
use vstd::prelude::*;

verus! {

/// The switch size of every map that the constructors make.
pub const DEFAULT_SWITCH_SIZE: usize = 128;

/// Whether a map that starts empty and linear is hashed after the pairs of
/// `ops` have been inserted, first to last: some insertion has found it with
/// exactly `switch_size` keys.
pub open spec fn hashed_after(switch_size: nat, ops: Seq<(usize, usize)>) -> bool
    decreases ops.len(),
{
    if ops.len() == 0 {
        false
    } else {
        hashed_after(switch_size, ops.drop_last()) || as_map(ops.drop_last()).len() == switch_size
    }
}

/// A map from `usize` to `usize`. It is linear until an insertion finds it
/// holding exactly `switch_size` keys; that insertion moves the entries to a
/// hash table, where they stay.
#[derive(Debug)]
pub struct OptiMap {
    inner: MapSupport,
    switch_size: usize,
}

impl View for OptiMap {
    type V = Map<usize, usize>;

    /// What the map associates.
    closed spec fn view(&self) -> Map<usize, usize> {
        self.inner@
    }
}

impl Clone for OptiMap {
    /// A map with the same switch size, representation and associations, a
    /// linear one in the same order.
    fn clone(&self) -> (copy: Self)
        ensures
            copy.wf() == self.wf(),
            copy.switch_size() == self.switch_size(),
            copy.is_hashed() == self.is_hashed(),
            copy@ == self@,
            self.is_linear() ==> copy.entries() == self.entries(),
    {
        OptiMap { inner: self.inner.clone(), switch_size: self.switch_size }
    }
}

impl OptiMap {
    /// The number of keys at which an insertion converts the map.
    pub closed spec fn switch_size(&self) -> usize {
        self.switch_size
    }

    /// The map is in its hashed representation.
    pub closed spec fn spec_is_hashed(&self) -> bool {
        self.inner.is_hashed()
    }

    /// The map is in its linear representation.
    pub open spec fn is_linear(&self) -> bool {
        !self.is_hashed()
    }

    /// The pairs of a linear map, in storage order: the order in which their
    /// keys first came.
    pub closed spec fn entries(&self) -> Seq<(usize, usize)>
        recommends
            self.is_linear(),
    {
        self.inner.entries()
    }

    /// The map is in the state in which insertions of the pairs of `ops`,
    /// first to last, leave an empty linear map with this switch size.
    pub open spec fn is_run(&self, ops: Seq<(usize, usize)>) -> bool {
        &&& self@ == as_map(ops)
        &&& self.is_hashed() == hashed_after(self.switch_size() as nat, ops)
        &&& self.is_linear() ==> self.entries() == seq_insert_all(Seq::empty(), ops)
    }

    /// The switch size is positive, and a linear map holds no key twice and
    /// no more than `switch_size` keys.
    pub closed spec fn wf(&self) -> bool {
        &&& self.inner.wf()
        &&& self.switch_size >= 1
        &&& self.inner.is_linear() ==> self.inner@.len() <= self.switch_size
    }

    /// A map with more keys than its switch size is hashed; the pairs of a
    /// linear map hold no key twice and make what the map associates.
    pub proof fn lemma_wf(&self)
        requires
            self.wf(),
        ensures
            self.switch_size() >= 1,
            self@.dom().finite(),
            self.is_linear() ==> self@.len() <= self.switch_size(),
            self.is_linear() ==> distinct_keys(self.entries()) && as_map(self.entries()) == self@,
    {
        broadcast use vstd::std_specs::hash::group_hash_axioms;

        if self.inner.is_linear() {
            lemma_as_map_dom(self.inner.entries());
        }
    }

    /// An empty linear map with the default switch size.
    pub fn new() -> (m: Self)
        ensures
            m.wf(),
            m@ == Map::<usize, usize>::empty(),
            m.is_linear(),
            m.entries() == Seq::<(usize, usize)>::empty(),
            m.switch_size() == DEFAULT_SWITCH_SIZE,
            m.is_run(Seq::empty()),
    {
        OptiMap { inner: MapSupport::Vector(linear_default()), switch_size: DEFAULT_SWITCH_SIZE }
    }

    /// An empty map with the default switch size and room for `capacity`
    /// keys: linear where `capacity` is below the switch size, hashed from
    /// the start otherwise.
    pub fn with_capacity(capacity: usize) -> (m: Self)
        ensures
            m.wf(),
            m@ == Map::<usize, usize>::empty(),
            m.is_hashed() == (capacity >= DEFAULT_SWITCH_SIZE),
            m.is_linear() ==> m.entries() == Seq::<(usize, usize)>::empty(),
            m.switch_size() == DEFAULT_SWITCH_SIZE,
            m.is_linear() ==> m.is_run(Seq::empty()),
    {
        let switch_size = DEFAULT_SWITCH_SIZE;
        OptiMap {
            inner: if capacity < switch_size {
                MapSupport::Vector(linear_with_capacity(capacity))
            } else {
                MapSupport::Hash(HashMap::with_capacity(capacity))
            },
            switch_size,
        }
    }

    /// Whether the map is in its hashed representation.
    #[verifier::when_used_as_spec(spec_is_hashed)]
    pub fn is_hashed(&self) -> (hashed: bool)
        ensures
            hashed == self.is_hashed(),
    {
        match &self.inner {
            MapSupport::Vector(_) => false,
            MapSupport::Hash(_) => true,
        }
    }

    /// The number of keys in the map.
    pub fn len(&self) -> (n: usize)
        requires
            self.wf(),
        ensures
            n == self@.len(),
    {
        self.inner.len()
    }

    /// Sets `key` to `value` and returns the value that `key` had before, if
    /// it had one. An insertion that finds the map with exactly `switch_size`
    /// keys first moves a linear map to its hashed representation, whether or
    /// not `key` is new. A map that stays linear overwrites in place or
    /// appends.
    pub fn insert(&mut self, key: usize, value: usize) -> (previous: Option<usize>)
        requires
            old(self).wf(),
        ensures
            final(self).wf(),
            final(self).switch_size() == old(self).switch_size(),
            final(self)@ == old(self)@.insert(key, value),
            previous == map_previous(old(self)@, key),
            final(self).is_hashed() == (old(self).is_hashed() || old(self)@.len() == old(
                self,
            ).switch_size()),
            final(self).is_linear() ==> final(self).entries() == seq_insert(
                old(self).entries(),
                key,
                value,
            ),
            forall|ops: Seq<(usize, usize)>| #[trigger]
                old(self).is_run(ops) ==> final(self).is_run(ops.push((key, value))),
    {
        broadcast use vstd::std_specs::hash::group_hash_axioms;

        assert forall|ops: Seq<(usize, usize)>| #![auto] ops.push((key, value)).drop_last() == ops by {
            assert(ops.push((key, value)).drop_last() =~= ops);
        }
        if self.len() == self.switch_size {
            // An empty store stands in for the entries while they are converted.
            let mut convertible = MapSupport::Vector(linear_default());
            core::mem::swap(&mut convertible, &mut self.inner);
            let mut convertible = convertible.convert_to_hashmap();
            core::mem::swap(&mut convertible, &mut self.inner);
        }
        proof {
            if self.inner.is_linear() {
                lemma_as_map_dom(self.inner.entries());
            }
        }
        self.inner.insert(key, value)
    }

    /// Every pair of the map once, by reference: a linear map in storage
    /// order, a hashed map in no stated order.
    pub fn iter<'l>(&'l self) -> (pairs: Vec<(&'l usize, &'l usize)>)
        requires
            self.wf(),
        ensures
            distinct_keys(pairs@.unref()),
            as_map(pairs@.unref()) == self@,
            self.is_linear() ==> pairs@.unref() == self.entries(),
    {
        self.inner.iter()
    }

    /// Every key of the map once, by reference, beside a mutable reference to
    /// its value: a linear map in storage order, a hashed map in no stated
    /// order. When the references are given up, each key maps to what was
    /// last written through its reference; the keys, the representation and
    /// a linear map's order stay.
    pub fn iter_mut<'l>(&'l mut self) -> (pairs: Vec<(&'l usize, &'l mut usize)>)
        requires
            old(self).wf(),
        ensures
            distinct_keys(Seq::new(pairs@.len(), |i: int| (*pairs@[i].0, *pairs@[i].1))),
            as_map(Seq::new(pairs@.len(), |i: int| (*pairs@[i].0, *pairs@[i].1))) == old(self)@,
            old(self).is_linear() ==> Seq::new(
                pairs@.len(),
                |i: int| (*pairs@[i].0, *pairs@[i].1),
            ) == old(self).entries(),
            final(self).wf(),
            final(self).switch_size() == old(self).switch_size(),
            final(self).is_hashed() == old(self).is_hashed(),
            final(self)@ == as_map(
                Seq::new(pairs@.len(), |i: int| (*pairs@[i].0, *final(pairs@[i].1))),
            ),
            old(self).is_linear() ==> final(self).entries() == Seq::new(
                pairs@.len(),
                |i: int| (*pairs@[i].0, *final(pairs@[i].1)),
            ),
    {
        let pairs = self.inner.iter_mut();
        proof {
            let now = Seq::new(pairs@.len(), |i: int| (*pairs@[i].0, *pairs@[i].1));
            let later = Seq::new(pairs@.len(), |i: int| (*pairs@[i].0, *final(pairs@[i].1)));
            assert forall|i: int, j: int| 0 <= i < j < later.len() implies later[i].0
                != later[j].0 by {
                assert(now[i].0 != now[j].0);
            }
            lemma_as_map_len(now);
            lemma_as_map_len(later);
        }
        pairs
    }

    /// Every pair of the map once, by value; the map is given up. A linear
    /// map gives them in storage order, a hashed map in no stated order.
    pub fn into_iter(self) -> (pairs: Vec<(usize, usize)>)
        requires
            self.wf(),
        ensures
            distinct_keys(pairs@),
            as_map(pairs@) == self@,
            self.is_linear() ==> pairs@ == self.entries(),
    {
        self.inner.into_iter()
    }
}

} // verus!
