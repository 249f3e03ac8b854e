//! What holds of every run of insertions. The first part is about sequences
//! of pairs and the maps they make; the second applies it to a map that is
//! the run of a sequence, which is what `OptiMap::new` returns for the empty
//! sequence and what each `OptiMap::insert` extends by its pair.

use crate::model::{
    as_map, distinct_keys, has_key, lemma_as_map_dom, lemma_as_map_index, lemma_as_map_len,
    lemma_seq_insert, map_previous, seq_insert_all,
};
use crate::optimap::{hashed_after, OptiMap};
use vstd::prelude::*;

verus! {

/// One more insertion extends what a sequence of pairs makes as `Map::insert`
/// does: this is how the contract of `insert` follows a run.
pub proof fn lemma_as_map_push(ops: Seq<(usize, usize)>, key: usize, value: usize)
    ensures
        as_map(ops.push((key, value))) == as_map(ops).insert(key, value),
{
    assert(ops.push((key, value)).drop_last() == ops);
}

/// The keys of the pairs of `ops`, in order.
pub open spec fn keys_of(ops: Seq<(usize, usize)>) -> Seq<usize> {
    ops.map_values(|pair: (usize, usize)| pair.0)
}

/// However the pairs are stored, they make the same association: setting the
/// pairs of `ops` in an empty linear store, each overwriting in place or
/// appended, leaves distinct keys and the association that setting them in
/// an empty map leaves.
pub proof fn lemma_linear_run_makes_map(ops: Seq<(usize, usize)>)
    ensures
        distinct_keys(seq_insert_all(Seq::empty(), ops)),
        as_map(seq_insert_all(Seq::empty(), ops)) == as_map(ops),
    decreases ops.len(),
{
    if ops.len() > 0 {
        lemma_linear_run_makes_map(ops.drop_last());
        lemma_seq_insert(
            seq_insert_all(Seq::empty(), ops.drop_last()),
            ops.last().0,
            ops.last().1,
        );
    }
}

/// A listing with distinct keys holds no pair twice, holds exactly the
/// associations of the map it makes, and is as long as that map is large.
pub proof fn lemma_listing_pairs(listing: Seq<(usize, usize)>)
    requires
        distinct_keys(listing),
    ensures
        listing.no_duplicates(),
        listing.to_set() == as_map(listing).kv_pairs(),
        listing.len() == as_map(listing).len(),
{
    lemma_as_map_len(listing);
    lemma_as_map_dom(listing);
    assert forall|pair: (usize, usize)| listing.to_set().contains(pair) <==> as_map(
        listing,
    ).kv_pairs().contains(pair) by {
        if listing.contains(pair) {
            let i = choose|i: int| 0 <= i < listing.len() && listing[i] == pair;
            lemma_as_map_index(listing, i);
        }
        if as_map(listing).kv_pairs().contains(pair) {
            assert(has_key(listing, pair.0));
            let i = choose|i: int| 0 <= i < listing.len() && listing[i].0 == pair.0;
            lemma_as_map_index(listing, i);
            assert(listing[i] == pair);
        }
    }
    assert(listing.to_set() =~= as_map(listing).kv_pairs());
}

/// Two listings with distinct keys of the same association, whatever their
/// orders, hold the same pairs and equally many.
pub proof fn lemma_listings_agree(linear: Seq<(usize, usize)>, hashed: Seq<(usize, usize)>)
    requires
        distinct_keys(linear),
        distinct_keys(hashed),
        as_map(linear) == as_map(hashed),
    ensures
        linear.to_set() == hashed.to_set(),
        linear.len() == hashed.len(),
        linear.to_multiset() == hashed.to_multiset(),
{
    lemma_listing_pairs(linear);
    lemma_listing_pairs(hashed);
    linear.lemma_multiset_has_no_duplicates();
    hashed.lemma_multiset_has_no_duplicates();
    broadcast use vstd::seq_lib::group_to_multiset_ensures;

    assert forall|pair: (usize, usize)|
        linear.to_multiset().count(pair) == hashed.to_multiset().count(pair) by {
        assert(linear.to_set().contains(pair) <==> hashed.to_set().contains(pair));
        assert(linear.contains(pair) <==> linear.to_multiset().count(pair) > 0);
        assert(hashed.contains(pair) <==> hashed.to_multiset().count(pair) > 0);
        if linear.contains(pair) {
            assert(linear.to_multiset().contains(pair));
            assert(hashed.to_multiset().contains(pair));
        }
    }
    assert(linear.to_multiset() =~= hashed.to_multiset());
}

/// One more pair changes the number of keys by nothing or by one.
pub proof fn lemma_as_map_step(ops: Seq<(usize, usize)>)
    requires
        ops.len() > 0,
    ensures
        as_map(ops.drop_last()).len() <= as_map(ops).len() <= as_map(ops.drop_last()).len() + 1,
{
    lemma_as_map_dom(ops.drop_last());
}

/// The conversion point: a map that starts empty and linear is hashed after a
/// run exactly when the last insertion found it with at least `switch_size`
/// keys.
pub proof fn lemma_conversion_point(switch_size: nat, ops: Seq<(usize, usize)>)
    ensures
        hashed_after(switch_size, ops) <==> ops.len() > 0 && as_map(ops.drop_last()).len()
            >= switch_size,
    decreases ops.len(),
{
    if ops.len() > 0 {
        let before = ops.drop_last();
        lemma_conversion_point(switch_size, before);
        if before.len() > 0 {
            lemma_as_map_step(before);
        }
    }
}

/// A run of pairs with distinct keys stays linear up to and including
/// `switch_size` pairs and is hashed from the next pair on; every pair of
/// the run is an association of the map it makes.
pub proof fn lemma_distinct_run(switch_size: nat, ops: Seq<(usize, usize)>)
    requires
        distinct_keys(ops),
    ensures
        hashed_after(switch_size, ops) <==> ops.len() > switch_size,
        as_map(ops).len() == ops.len(),
        forall|i: int| 0 <= i < ops.len() ==> as_map(ops).contains_pair(#[trigger] ops[i].0, ops[i].1),
{
    lemma_conversion_point(switch_size, ops);
    lemma_as_map_len(ops);
    if ops.len() > 0 {
        let before = ops.drop_last();
        assert(distinct_keys(before)) by {
            assert forall|a: int, b: int| 0 <= a < b < before.len() implies before[a].0
                != before[b].0 by {
                assert(before[a] == ops[a] && before[b] == ops[b]);
            }
        }
        lemma_as_map_len(before);
    }
    assert forall|i: int| 0 <= i < ops.len() implies as_map(ops).contains_pair(
        #[trigger] ops[i].0,
        ops[i].1,
    ) by {
        lemma_as_map_index(ops, i);
    }
}

/// A run with fewer distinct keys than `switch_size` never converts.
pub proof fn lemma_small_run(switch_size: nat, ops: Seq<(usize, usize)>)
    requires
        keys_of(ops).to_set().len() < switch_size,
    ensures
        !hashed_after(switch_size, ops),
{
    lemma_distinct_key_count(ops);
    lemma_conversion_point(switch_size, ops);
    if ops.len() > 0 {
        lemma_as_map_step(ops);
    }
}

/// Setting a key that was just set keeps the number of keys, displaces the
/// value that was just set, and leaves what setting only the second value
/// would have left.
pub proof fn lemma_overwrite(m: Map<usize, usize>, key: usize, first: usize, second: usize)
    requires
        m.dom().finite(),
    ensures
        m.insert(key, first).insert(key, second).len() == m.insert(key, first).len(),
        map_previous(m.insert(key, first), key) == Some(first),
        m.insert(key, first).insert(key, second) == m.insert(key, second),
{
    assert(m.insert(key, first).insert(key, second) =~= m.insert(key, second));
    assert(m.insert(key, first).dom() =~= m.insert(key, second).dom());
}

/// The map that a sequence of pairs makes has as many keys as the sequence
/// has distinct keys.
pub proof fn lemma_distinct_key_count(ops: Seq<(usize, usize)>)
    ensures
        as_map(ops).len() == keys_of(ops).to_set().len(),
{
    lemma_as_map_dom(ops);
    let keys = keys_of(ops);
    assert forall|k: usize| as_map(ops).dom().contains(k) <==> keys.to_set().contains(k) by {
        if has_key(ops, k) {
            let i = choose|i: int| 0 <= i < ops.len() && ops[i].0 == k;
            assert(keys[i] == k);
        }
        if keys.contains(k) {
            let i = choose|i: int| 0 <= i < keys.len() && keys[i] == k;
            assert(ops[i].0 == k);
        }
    }
    assert(as_map(ops).dom() =~= keys.to_set());
}

/// Representation transparency: traversals of two maps that associate the
/// same, be one linear and the other hashed, show the same pairs, each once,
/// whatever the two orders. `first` and `second` stand for what `iter` or
/// `into_iter` returns for `a` and for `b`.
pub proof fn lemma_representation_transparency(
    a: OptiMap,
    b: OptiMap,
    first: Seq<(usize, usize)>,
    second: Seq<(usize, usize)>,
)
    requires
        a@ == b@,
        distinct_keys(first),
        as_map(first) == a@,
        distinct_keys(second),
        as_map(second) == b@,
    ensures
        first.to_set() == a@.kv_pairs(),
        second.to_set() == first.to_set(),
        second.len() == first.len(),
        second.to_multiset() == first.to_multiset(),
{
    lemma_listing_pairs(first);
    lemma_listings_agree(first, second);
}

/// Threshold trigger: a map that is the run of insertions with distinct keys
/// is linear while the run is no longer than the switch size and hashed as
/// soon as it is longer, and it holds every pair of the run.
pub proof fn lemma_threshold_boundary(m: OptiMap, ops: Seq<(usize, usize)>)
    requires
        m.is_run(ops),
        distinct_keys(ops),
    ensures
        m.is_hashed() <==> ops.len() > m.switch_size(),
        m@.len() == ops.len(),
        forall|i: int| 0 <= i < ops.len() ==> m@.contains_pair(#[trigger] ops[i].0, ops[i].1),
{
    lemma_distinct_run(m.switch_size() as nat, ops);
}

/// No premature conversion: a map that is the run of insertions with fewer
/// distinct keys than its switch size is linear.
pub proof fn lemma_no_premature_conversion(m: OptiMap, ops: Seq<(usize, usize)>)
    requires
        m.is_run(ops),
        keys_of(ops).to_set().len() < m.switch_size(),
    ensures
        m.is_linear(),
{
    lemma_small_run(m.switch_size() as nat, ops);
}

/// Length accuracy: a map that associates what insertions of the pairs of
/// `ops` leave, in whichever representation it started, has as many keys as
/// `ops` has distinct keys.
pub proof fn lemma_len_counts_distinct_keys(m: OptiMap, ops: Seq<(usize, usize)>)
    requires
        m@ == as_map(ops),
    ensures
        m@.len() == keys_of(ops).to_set().len(),
{
    lemma_distinct_key_count(ops);
}

/// The conversion is final and happens at one point only: a map that is the
/// run of `ops` is hashed exactly when the last insertion found at least
/// `switch_size` keys.
pub proof fn lemma_hashed_exactly_past_switch_size(m: OptiMap, ops: Seq<(usize, usize)>)
    requires
        m.is_run(ops),
    ensures
        m.is_hashed() <==> ops.len() > 0 && as_map(ops.drop_last()).len() >= m.switch_size(),
{
    lemma_conversion_point(m.switch_size() as nat, ops);
}

} // verus!
