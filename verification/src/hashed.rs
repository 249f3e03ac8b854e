//! The hashed store: `std::collections::HashMap`. What vstd specifies of it
//! is used as it stands, and the loops here are proved against that. The one
//! traversal that vstd does not specify, `iter_mut`, has a contract that is
//! believed.

use crate::model::{as_map, distinct_keys, has_key, lemma_listing_of_map};
use std::collections::HashMap;
use vstd::prelude::*;
use vstd::std_specs::hash::spec_hash_map_iter;
use vstd::std_specs::iter::IteratorSpec;

verus! {

/// `HashMap::iter_mut`, collected: every key of the table once, beside a
/// mutable reference to its value, in an order that the table does not
/// promise. What is written through the references is what the table holds
/// afterwards; the keys stay.
#[verifier::external_body]
pub(crate) fn hashed_pairs_mut<'l>(m: &'l mut HashMap<usize, usize>) -> (pairs: Vec<
    (&'l usize, &'l mut usize),
>)
    ensures
        distinct_keys(Seq::new(pairs@.len(), |i: int| (*pairs@[i].0, *pairs@[i].1))),
        as_map(Seq::new(pairs@.len(), |i: int| (*pairs@[i].0, *pairs@[i].1))) == old(m)@,
        final(m)@ == as_map(Seq::new(pairs@.len(), |i: int| (*pairs@[i].0, *final(pairs@[i].1)))),
{
    m.iter_mut().collect()
}

/// Every association of the table once, by reference, in the order in which
/// the table's iterator gives them.
pub(crate) fn hashed_pairs<'l>(m: &'l HashMap<usize, usize>) -> (pairs: Vec<(&'l usize, &'l usize)>)
    ensures
        distinct_keys(pairs@.unref()),
        as_map(pairs@.unref()) == m@,
{
    broadcast use vstd::std_specs::hash::group_hash_axioms;

    let mut pairs: Vec<(&'l usize, &'l usize)> = Vec::new();
    for pair in it: m.iter()
        invariant
            pairs@ == it.seq().take(it.index()),
    {
        pairs.push(pair);
    }
    proof {
        let listing = pairs@.unref();
        assert forall|k: usize| #[trigger] m@.contains_key(k) implies has_key(listing, k) by {
            assert(pairs@ == spec_hash_map_iter(m).remaining());
            assert(pairs@.contains((&k, &m@[k])));
            let i = choose|i: int| 0 <= i < pairs@.len() && pairs@[i] == (&k, &m@[k]);
            assert(listing[i].0 == k);
        }
        assert(listing.no_duplicates()) by {
            assert forall|i: int, j: int|
                0 <= i < listing.len() && 0 <= j < listing.len() && i != j implies listing[i]
                != listing[j] by {
                assert(pairs@[i] != pairs@[j]);
            }
        }
        lemma_listing_of_map(listing, m@);
    }
    pairs
}

/// Every association of the table once, by value, in the order in which the
/// table's iterator gives them; the table is given up.
pub(crate) fn hashed_into_pairs(m: HashMap<usize, usize>) -> (pairs: Vec<(usize, usize)>)
    ensures
        distinct_keys(pairs@),
        as_map(pairs@) == m@,
{
    let borrowed = hashed_pairs(&m);
    let mut pairs: Vec<(usize, usize)> = Vec::new();
    let mut i: usize = 0;
    while i < borrowed.len()
        invariant
            i <= borrowed.len(),
            pairs@ == borrowed@.unref().take(i as int),
        decreases borrowed.len() - i,
    {
        let (k, v) = borrowed[i];
        pairs.push((*k, *v));
        proof {
            assert(pairs@ =~= borrowed@.unref().take(i + 1));
        }
        i += 1;
    }
    proof {
        assert(pairs@ =~= borrowed@.unref());
    }
    pairs
}

/// A table that holds each pair of `pairs`, a later pair replacing an earlier
/// one with the same key.
pub(crate) fn hashed_from_pairs(pairs: Vec<(usize, usize)>) -> (m: HashMap<usize, usize>)
    ensures
        m@ == as_map(pairs@),
{
    broadcast use vstd::std_specs::hash::group_hash_axioms;

    let mut m: HashMap<usize, usize> = HashMap::new();
    let mut i: usize = 0;
    while i < pairs.len()
        invariant
            i <= pairs.len(),
            m@ == as_map(pairs@.take(i as int)),
        decreases pairs.len() - i,
    {
        let (k, v) = pairs[i];
        proof {
            assert(pairs@.take(i + 1).drop_last() == pairs@.take(i as int));
        }
        m.insert(k, v);
        i += 1;
    }
    proof {
        assert(pairs@.take(i as int) == pairs@);
    }
    m
}

} // verus!
