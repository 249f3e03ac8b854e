//! The linear store: `vector_map::VecMap`, which Verus does not read. This
//! file declares the type, names what a value of it holds, and gives each
//! method that the library calls a contract. Nothing in this file is proved:
//! every contract restates what the method's source does.

use crate::model::{seq_insert, seq_insert_all, seq_previous};
use vector_map::VecMap;
use vstd::prelude::*;

verus! {

/// `vector_map::VecMap`, declared opaque.
#[verifier::external_type_specification]
#[verifier::external_body]
#[verifier::reject_recursive_types(K)]
#[verifier::reject_recursive_types(V)]
pub struct ExVecMap<K: PartialEq, V>(VecMap<K, V>);

/// What a `VecMap` holds: the pairs of the vector that it wraps, in the
/// vector's order.
pub uninterp spec fn linear_entries(m: VecMap<usize, usize>) -> Seq<(usize, usize)>;

/// `<VecMap as Default>::default`: a store that holds nothing.
#[verifier::external_body]
pub(crate) fn linear_default() -> (m: VecMap<usize, usize>)
    ensures
        linear_entries(m) == Seq::<(usize, usize)>::empty(),
{
    Default::default()
}

/// `VecMap::with_capacity`: a store that holds nothing, with room for
/// `capacity` pairs. The bound keeps its allocation under `isize::MAX` bytes,
/// beyond which `Vec::with_capacity` panics.
#[verifier::external_body]
pub(crate) fn linear_with_capacity(capacity: usize) -> (m: VecMap<usize, usize>)
    requires
        capacity <= isize::MAX / 16,
    ensures
        linear_entries(m) == Seq::<(usize, usize)>::empty(),
{
    VecMap::with_capacity(capacity)
}

/// `<VecMap as Clone>::clone`: a store with the same pairs in the same order.
#[verifier::external_body]
pub(crate) fn linear_clone(m: &VecMap<usize, usize>) -> (copy: VecMap<usize, usize>)
    ensures
        linear_entries(copy) == linear_entries(*m),
{
    m.clone()
}

/// `VecMap::inner`: the vector that the store wraps.
#[verifier::external_body]
pub(crate) fn linear_inner(m: &VecMap<usize, usize>) -> (inner: &Vec<(usize, usize)>)
    ensures
        inner@ == linear_entries(*m),
{
    m.inner()
}

/// `VecMap::insert`: searches the pairs front to back for one whose key
/// equals `k`. Where it finds one, it swaps `v` in for that pair's value and
/// returns the value that stood there; otherwise it pushes the pair and
/// returns `None`.
#[verifier::external_body]
pub(crate) fn linear_insert(m: &mut VecMap<usize, usize>, k: usize, v: usize) -> (previous: Option<
    usize,
>)
    ensures
        linear_entries(*final(m)) == seq_insert(linear_entries(*old(m)), k, v),
        previous == seq_previous(linear_entries(*old(m)), k),
{
    m.insert(k, v)
}

/// `VecMap::iter`, collected: for each pair of the vector, in order, a
/// reference to its key beside a reference to its value.
#[verifier::external_body]
pub(crate) fn linear_pairs<'l>(m: &'l VecMap<usize, usize>) -> (pairs: Vec<(&'l usize, &'l usize)>)
    ensures
        pairs@.unref() == linear_entries(*m),
{
    m.iter().collect()
}

/// `VecMap::iter_mut`, collected: for each pair of the vector, in order, a
/// reference to its key beside a mutable reference to its value. What is
/// written through the references is what the store holds afterwards; the
/// keys stay.
#[verifier::external_body]
pub(crate) fn linear_pairs_mut<'l>(m: &'l mut VecMap<usize, usize>) -> (pairs: Vec<
    (&'l usize, &'l mut usize),
>)
    ensures
        Seq::new(pairs@.len(), |i: int| (*pairs@[i].0, *pairs@[i].1)) == linear_entries(*old(m)),
        linear_entries(*final(m)) == Seq::new(
            pairs@.len(),
            |i: int| (*pairs@[i].0, *final(pairs@[i].1)),
        ),
{
    m.iter_mut().collect()
}

/// `<VecMap as IntoIterator>::into_iter`, collected: the pairs of the vector,
/// in order.
#[verifier::external_body]
pub(crate) fn linear_into_pairs(m: VecMap<usize, usize>) -> (pairs: Vec<(usize, usize)>)
    ensures
        pairs@ == linear_entries(m),
{
    m.into_iter().collect()
}

/// `<VecMap as FromIterator>::from_iter`: makes an empty store and calls
/// `insert` with each pair, first to last.
#[verifier::external_body]
pub(crate) fn linear_from_pairs(pairs: Vec<(usize, usize)>) -> (m: VecMap<usize, usize>)
    ensures
        linear_entries(m) == seq_insert_all(Seq::empty(), pairs@),
{
    pairs.into_iter().collect()
}

} // verus!
