//! The backing store: one of two representations behind one set of
//! operations.

use crate::hashed::{hashed_from_pairs, hashed_into_pairs, hashed_pairs, hashed_pairs_mut};
use crate::linear::{
    linear_clone, linear_entries, linear_from_pairs, linear_inner, linear_insert,
    linear_into_pairs, linear_pairs, linear_pairs_mut,
};
use crate::model::{
    as_map, distinct_keys, lemma_as_map_len, lemma_seq_insert, lemma_seq_insert_all_distinct,
    map_previous, seq_insert,
};
use std::collections::HashMap;
use vector_map::VecMap;
use vstd::prelude::*;

verus! {

/// The storage of a map: either a linear store, which keeps its pairs in the
/// order in which their keys first came, or a hash table.
#[derive(Debug)]
pub enum MapSupport {
    Vector(VecMap<usize, usize>),
    Hash(HashMap<usize, usize>),
}

impl View for MapSupport {
    type V = Map<usize, usize>;

    /// What the store associates, whichever representation holds it.
    open spec fn view(&self) -> Map<usize, usize> {
        match self {
            MapSupport::Vector(values) => as_map(linear_entries(*values)),
            MapSupport::Hash(values) => values@,
        }
    }
}

impl Clone for MapSupport {
    /// A store in the same representation with the same associations, a
    /// linear one in the same order.
    fn clone(&self) -> (copy: Self)
        ensures
            copy.wf() == self.wf(),
            copy.is_linear() == self.is_linear(),
            copy@ == self@,
            self.is_linear() ==> copy.entries() == self.entries(),
    {
        match self {
            MapSupport::Vector(values) => MapSupport::Vector(linear_clone(values)),
            MapSupport::Hash(values) => MapSupport::Hash(values.clone()),
        }
    }
}

impl MapSupport {
    /// The store is in its linear representation.
    pub open spec fn is_linear(&self) -> bool {
        self is Vector
    }

    /// The store is in its hashed representation.
    pub open spec fn is_hashed(&self) -> bool {
        self is Hash
    }

    /// The pairs of a linear store, in storage order.
    pub open spec fn entries(&self) -> Seq<(usize, usize)>
        recommends
            self.is_linear(),
    {
        linear_entries(self->Vector_0)
    }

    /// A linear store holds no key twice. A hashed store has no condition.
    pub open spec fn wf(&self) -> bool {
        self.is_linear() ==> distinct_keys(self.entries())
    }

    /// The same associations in a linear store. A linear store is returned as
    /// it is; the pairs of a hashed store come in no stated order.
    pub fn convert_to_vec(self) -> (converted: Self)
        requires
            self.wf(),
        ensures
            converted.wf(),
            converted.is_linear(),
            converted@ == self@,
            self.is_linear() ==> converted == self,
    {
        if let MapSupport::Hash(values) = self {
            let pairs = hashed_into_pairs(values);
            proof {
                lemma_seq_insert_all_distinct(pairs@);
            }
            MapSupport::Vector(linear_from_pairs(pairs))
        } else {
            self
        }
    }

    /// The same associations in a hashed store. A hashed store is returned as
    /// it is.
    pub fn convert_to_hashmap(self) -> (converted: Self)
        requires
            self.wf(),
        ensures
            converted.wf(),
            converted.is_hashed(),
            converted@ == self@,
            self.is_hashed() ==> converted == self,
    {
        if let MapSupport::Vector(values) = self {
            MapSupport::Hash(hashed_from_pairs(linear_into_pairs(values)))
        } else {
            self
        }
    }

    /// Every pair of the store once, by reference: a linear store in storage
    /// order, a hashed store in no stated order.
    pub fn iter<'l>(&'l self) -> (pairs: Vec<(&'l usize, &'l usize)>)
        requires
            self.wf(),
        ensures
            distinct_keys(pairs@.unref()),
            as_map(pairs@.unref()) == self@,
            self.is_linear() ==> pairs@.unref() == self.entries(),
    {
        match self {
            MapSupport::Vector(values) => linear_pairs(values),
            MapSupport::Hash(values) => hashed_pairs(values),
        }
    }

    /// Every key of the store once, by reference, beside a mutable reference
    /// to its value: a linear store in storage order, a hashed store in no
    /// stated order. When the references are given up, each key maps to what
    /// was last written through its reference; the keys, the representation
    /// and a linear store's order stay.
    pub fn iter_mut<'l>(&'l mut self) -> (pairs: Vec<(&'l usize, &'l mut usize)>)
        requires
            old(self).wf(),
        ensures
            distinct_keys(Seq::new(pairs@.len(), |i: int| (*pairs@[i].0, *pairs@[i].1))),
            as_map(Seq::new(pairs@.len(), |i: int| (*pairs@[i].0, *pairs@[i].1))) == old(self)@,
            old(self).is_linear() ==> Seq::new(
                pairs@.len(),
                |i: int| (*pairs@[i].0, *pairs@[i].1),
            ) == old(self).entries(),
            final(self).wf(),
            final(self).is_linear() == old(self).is_linear(),
            final(self)@ == as_map(
                Seq::new(pairs@.len(), |i: int| (*pairs@[i].0, *final(pairs@[i].1))),
            ),
            old(self).is_linear() ==> final(self).entries() == Seq::new(
                pairs@.len(),
                |i: int| (*pairs@[i].0, *final(pairs@[i].1)),
            ),
    {
        match self {
            MapSupport::Vector(values) => {
                let pairs = linear_pairs_mut(values);
                proof {
                    let now = Seq::new(pairs@.len(), |i: int| (*pairs@[i].0, *pairs@[i].1));
                    let later = Seq::new(
                        pairs@.len(),
                        |i: int| (*pairs@[i].0, *final(pairs@[i].1)),
                    );
                    assert forall|i: int, j: int| 0 <= i < j < later.len() implies later[i].0
                        != later[j].0 by {
                        assert(now[i].0 != now[j].0);
                    }
                }
                pairs
            },
            MapSupport::Hash(values) => hashed_pairs_mut(values),
        }
    }

    /// Every pair of the store once, by value; the store is given up. A
    /// linear store gives them in storage order, a hashed store in no stated
    /// order.
    pub fn into_iter(self) -> (pairs: Vec<(usize, usize)>)
        requires
            self.wf(),
        ensures
            distinct_keys(pairs@),
            as_map(pairs@) == self@,
            self.is_linear() ==> pairs@ == self.entries(),
    {
        match self {
            MapSupport::Vector(values) => linear_into_pairs(values),
            MapSupport::Hash(values) => hashed_into_pairs(values),
        }
    }

    /// Sets `key` to `value` and returns the value that `key` had before, if
    /// it had one. A linear store overwrites in place or appends.
    pub fn insert(&mut self, key: usize, value: usize) -> (previous: Option<usize>)
        requires
            old(self).wf(),
        ensures
            final(self).wf(),
            final(self)@ == old(self)@.insert(key, value),
            previous == map_previous(old(self)@, key),
            final(self).is_linear() == old(self).is_linear(),
            old(self).is_linear() ==> final(self).entries() == seq_insert(
                old(self).entries(),
                key,
                value,
            ),
    {
        broadcast use vstd::std_specs::hash::group_hash_axioms;

        match self {
            MapSupport::Vector(values) => {
                proof {
                    lemma_seq_insert(linear_entries(*values), key, value);
                }
                linear_insert(values, key, value)
            },
            MapSupport::Hash(values) => values.insert(key, value),
        }
    }

    /// The number of keys in the store.
    pub fn len(&self) -> (n: usize)
        requires
            self.wf(),
        ensures
            n == self@.len(),
    {
        broadcast use vstd::std_specs::hash::group_hash_axioms;

        match self {
            MapSupport::Vector(values) => {
                proof {
                    lemma_as_map_len(linear_entries(*values));
                }
                linear_inner(values).len()
            },
            MapSupport::Hash(values) => values.len(),
        }
    }
}

} // verus!
