//! The mathematical model of a store: a sequence of `(key, value)` pairs for
//! the linear representation, a `Map` for what either representation
//! associates, and the facts that connect the two.

use vstd::prelude::*;

verus! {

/// No key stands at two positions of `s`.
pub open spec fn distinct_keys(s: Seq<(usize, usize)>) -> bool {
    forall|i: int, j: int| 0 <= i < j < s.len() ==> s[i].0 != s[j].0
}

/// Some position of `s` holds the key `k`.
pub open spec fn has_key(s: Seq<(usize, usize)>, k: usize) -> bool {
    exists|i: int| 0 <= i < s.len() && s[i].0 == k
}

/// The first position of `s` that holds the key `k`, or `s.len()` where no
/// position does.
pub open spec fn position(s: Seq<(usize, usize)>, k: usize) -> int
    decreases s.len(),
{
    if s.len() == 0 {
        0
    } else {
        let p = position(s.drop_last(), k);
        if p < s.len() - 1 {
            p
        } else if s.last().0 == k {
            s.len() - 1
        } else {
            s.len() as int
        }
    }
}

/// A linear store after `k` is set to `v`: the value at the first position
/// that holds `k` is replaced where it stands; where no position holds `k`,
/// the pair is appended.
pub open spec fn seq_insert(s: Seq<(usize, usize)>, k: usize, v: usize) -> Seq<(usize, usize)> {
    let p = position(s, k);
    if p < s.len() {
        s.update(p, (s[p].0, v))
    } else {
        s.push((k, v))
    }
}

/// What setting `k` displaces in a linear store: the value at the first
/// position that holds `k`, if there is one.
pub open spec fn seq_previous(s: Seq<(usize, usize)>, k: usize) -> Option<usize> {
    let p = position(s, k);
    if p < s.len() {
        Some(s[p].1)
    } else {
        None
    }
}

/// A linear store after every pair of `ops` has been set in it, first to last.
pub open spec fn seq_insert_all(s: Seq<(usize, usize)>, ops: Seq<(usize, usize)>) -> Seq<
    (usize, usize),
>
    decreases ops.len(),
{
    if ops.len() == 0 {
        s
    } else {
        seq_insert(seq_insert_all(s, ops.drop_last()), ops.last().0, ops.last().1)
    }
}

/// The association that the pairs of `s` make when they are set one after
/// another in an empty map: each key maps to the value of its last pair.
pub open spec fn as_map(s: Seq<(usize, usize)>) -> Map<usize, usize>
    decreases s.len(),
{
    if s.len() == 0 {
        Map::empty()
    } else {
        as_map(s.drop_last()).insert(s.last().0, s.last().1)
    }
}

/// What setting `k` displaces in a map: the value that `k` maps to, if any.
pub open spec fn map_previous(m: Map<usize, usize>, k: usize) -> Option<usize> {
    if m.contains_key(k) {
        Some(m[k])
    } else {
        None
    }
}

/// `position` returns the first position that holds `k`, and the length
/// exactly when none does.
pub proof fn lemma_position(s: Seq<(usize, usize)>, k: usize)
    ensures
        0 <= position(s, k) <= s.len(),
        position(s, k) < s.len() ==> s[position(s, k)].0 == k,
        forall|j: int| 0 <= j < position(s, k) ==> s[j].0 != k,
        position(s, k) < s.len() <==> has_key(s, k),
    decreases s.len(),
{
    if s.len() > 0 {
        let t = s.drop_last();
        lemma_position(t, k);
        assert forall|j: int| 0 <= j < position(s, k) implies s[j].0 != k by {
            if j < t.len() {
                assert(t[j] == s[j]);
            }
        }
        if position(s, k) < s.len() {
            assert(s[position(s, k)].0 == k);
        } else {
            assert forall|i: int| 0 <= i < s.len() implies s[i].0 != k by {}
        }
    }
}

/// The keys of `as_map(s)` are the keys that stand in `s`, and there are
/// finitely many.
pub proof fn lemma_as_map_dom(s: Seq<(usize, usize)>)
    ensures
        as_map(s).dom().finite(),
        as_map(s).len() <= s.len(),
        forall|k: usize| #[trigger] as_map(s).contains_key(k) <==> has_key(s, k),
    decreases s.len(),
{
    if s.len() > 0 {
        let t = s.drop_last();
        lemma_as_map_dom(t);
        assert forall|k: usize| #[trigger] as_map(s).contains_key(k) <==> has_key(s, k) by {
            if has_key(s, k) {
                let i = choose|i: int| 0 <= i < s.len() && s[i].0 == k;
                if i < t.len() {
                    assert(t[i].0 == k);
                }
            }
            if as_map(s).contains_key(k) && k != s.last().0 {
                assert(has_key(t, k));
                let i = choose|i: int| 0 <= i < t.len() && t[i].0 == k;
                assert(s[i].0 == k);
            }
            if k == s.last().0 {
                assert(s[s.len() - 1].0 == k);
            }
        }
    }
}

/// Where the keys of `s` are distinct, each pair of `s` is an association of
/// `as_map(s)`.
pub proof fn lemma_as_map_index(s: Seq<(usize, usize)>, i: int)
    requires
        distinct_keys(s),
        0 <= i < s.len(),
    ensures
        as_map(s).contains_key(s[i].0),
        as_map(s)[s[i].0] == s[i].1,
    decreases s.len(),
{
    let t = s.drop_last();
    if i < s.len() - 1 {
        assert(distinct_keys(t)) by {
            assert forall|a: int, b: int| 0 <= a < b < t.len() implies t[a].0 != t[b].0 by {
                assert(t[a] == s[a] && t[b] == s[b]);
            }
        }
        lemma_as_map_index(t, i);
        assert(t[i] == s[i]);
        assert(s[i].0 != s[s.len() - 1].0);
    }
}

/// Where the keys of `s` are distinct, `as_map(s)` has as many keys as `s`
/// has pairs.
pub proof fn lemma_as_map_len(s: Seq<(usize, usize)>)
    requires
        distinct_keys(s),
    ensures
        as_map(s).dom().finite(),
        as_map(s).len() == s.len(),
    decreases s.len(),
{
    lemma_as_map_dom(s);
    if s.len() > 0 {
        let t = s.drop_last();
        assert(distinct_keys(t)) by {
            assert forall|a: int, b: int| 0 <= a < b < t.len() implies t[a].0 != t[b].0 by {
                assert(t[a] == s[a] && t[b] == s[b]);
            }
        }
        lemma_as_map_len(t);
        lemma_as_map_dom(t);
        assert(!as_map(t).contains_key(s.last().0)) by {
            if has_key(t, s.last().0) {
                let i = choose|i: int| 0 <= i < t.len() && t[i].0 == s.last().0;
                assert(t[i] == s[i]);
                assert(s[i].0 != s[s.len() - 1].0);
            }
        }
    }
}

/// Setting a key in a linear store with distinct keys keeps the keys
/// distinct, changes the association as `Map::insert` does, and displaces
/// what the association held for that key.
pub proof fn lemma_seq_insert(s: Seq<(usize, usize)>, k: usize, v: usize)
    requires
        distinct_keys(s),
    ensures
        distinct_keys(seq_insert(s, k, v)),
        as_map(seq_insert(s, k, v)) == as_map(s).insert(k, v),
        seq_previous(s, k) == map_previous(as_map(s), k),
        seq_insert(s, k, v).len() == if has_key(s, k) {
            s.len()
        } else {
            s.len() + 1
        },
{
    let p = position(s, k);
    let t = seq_insert(s, k, v);
    lemma_position(s, k);
    lemma_as_map_dom(s);
    if p < s.len() {
        lemma_as_map_index(s, p);
        assert(t.drop_last().len() == s.len() - 1);
    } else {
        assert(t.drop_last() == s);
        assert(!as_map(s).contains_key(k));
    }
    assert(distinct_keys(t));
    lemma_as_map_dom(t);
    assert forall|x: usize| #[trigger] as_map(t).contains_key(x) <==> as_map(s).insert(
        k,
        v,
    ).contains_key(x) by {
        if has_key(t, x) {
            let i = choose|i: int| 0 <= i < t.len() && t[i].0 == x;
            if i < s.len() {
                assert(s[i].0 == x);
            }
        }
        if has_key(s, x) {
            let i = choose|i: int| 0 <= i < s.len() && s[i].0 == x;
            assert(t[i].0 == x);
        }
        if x == k {
            if p < s.len() {
                assert(t[p].0 == k);
            } else {
                assert(t[s.len() as int].0 == k);
            }
        }
    }
    assert forall|x: usize| #[trigger] as_map(t).contains_key(x) implies as_map(t)[x] == as_map(
        s,
    ).insert(k, v)[x] by {
        let i = choose|i: int| 0 <= i < t.len() && t[i].0 == x;
        lemma_as_map_index(t, i);
        if x != k {
            assert(i < s.len());
            assert(s[i] == t[i]);
            lemma_as_map_index(s, i);
        } else if p < s.len() {
            assert(t[p].0 == k);
            assert(i == p);
        } else {
            assert(i == s.len());
        }
    }
    assert(as_map(t) =~= as_map(s).insert(k, v));
}

/// Setting pairs with distinct keys in an empty linear store, first to last,
/// leaves exactly those pairs in that order.
pub proof fn lemma_seq_insert_all_distinct(ops: Seq<(usize, usize)>)
    requires
        distinct_keys(ops),
    ensures
        seq_insert_all(Seq::empty(), ops) == ops,
    decreases ops.len(),
{
    if ops.len() > 0 {
        let t = ops.drop_last();
        assert(distinct_keys(t)) by {
            assert forall|a: int, b: int| 0 <= a < b < t.len() implies t[a].0 != t[b].0 by {
                assert(t[a] == ops[a] && t[b] == ops[b]);
            }
        }
        lemma_seq_insert_all_distinct(t);
        lemma_position(t, ops.last().0);
        if has_key(t, ops.last().0) {
            let i = choose|i: int| 0 <= i < t.len() && t[i].0 == ops.last().0;
            assert(t[i] == ops[i]);
            assert(ops[i].0 != ops[ops.len() - 1].0);
        }
        assert(t.push(ops.last()) == ops);
    } else {
        assert(ops == Seq::<(usize, usize)>::empty());
    }
}

/// A sequence that holds no pair twice, only associations of `m`, and an
/// association for each key of `m`, holds no key twice and makes `m`.
pub proof fn lemma_listing_of_map(s: Seq<(usize, usize)>, m: Map<usize, usize>)
    requires
        s.no_duplicates(),
        forall|i: int| 0 <= i < s.len() ==> m.contains_pair(#[trigger] s[i].0, s[i].1),
        forall|k: usize| #[trigger] m.contains_key(k) ==> has_key(s, k),
    ensures
        distinct_keys(s),
        as_map(s) == m,
{
    assert(distinct_keys(s)) by {
        assert forall|i: int, j: int| 0 <= i < j < s.len() implies s[i].0 != s[j].0 by {
            if s[i].0 == s[j].0 {
                assert(m.contains_pair(s[i].0, s[i].1));
                assert(m.contains_pair(s[j].0, s[j].1));
                assert(s[i] == s[j]);
            }
        }
    }
    lemma_as_map_dom(s);
    assert forall|k: usize| #[trigger] as_map(s).contains_key(k) <==> m.contains_key(k) by {
        if has_key(s, k) {
            let i = choose|i: int| 0 <= i < s.len() && s[i].0 == k;
            assert(m.contains_pair(s[i].0, s[i].1));
        }
    }
    assert forall|k: usize| #[trigger] as_map(s).contains_key(k) implies as_map(s)[k] == m[k] by {
        let i = choose|i: int| 0 <= i < s.len() && s[i].0 == k;
        lemma_as_map_index(s, i);
        assert(m.contains_pair(s[i].0, s[i].1));
    }
    assert(as_map(s) =~= m);
}

} // verus!
