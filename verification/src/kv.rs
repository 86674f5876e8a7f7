//! Association lists of string-keyed entries, abstracted to `Map` values.
//!
//! The scheduler's exec-level tables are vectors of `(key, value)` pairs with
//! pairwise-distinct keys; contracts speak of the `Map` each table denotes.

use vstd::prelude::*;

verus! {

/// The map denoted by a sequence of key/value pairs; later pairs win.
pub open spec fn kv_map<V>(s: Seq<(Seq<char>, V)>) -> Map<Seq<char>, V>
    decreases s.len(),
{
    if s.len() == 0 {
        Map::empty()
    } else {
        kv_map(s.drop_last()).insert(s.last().0, s.last().1)
    }
}

/// All keys of the pair sequence are pairwise distinct.
pub open spec fn kv_distinct<V>(s: Seq<(Seq<char>, V)>) -> bool {
    forall|i: int, j: int| 0 <= i < j < s.len() ==> s[i].0 != s[j].0
}

pub proof fn lemma_kv_map_contains<V>(s: Seq<(Seq<char>, V)>, k: Seq<char>)
    ensures
        kv_map(s).contains_key(k) <==> exists|i: int| 0 <= i < s.len() && s[i].0 == k,
    decreases s.len(),
{
    if s.len() > 0 {
        lemma_kv_map_contains(s.drop_last(), k);
        if s.last().0 != k {
            if exists|i: int| 0 <= i < s.len() && s[i].0 == k {
                let i = choose|i: int| 0 <= i < s.len() && s[i].0 == k;
                assert(s.drop_last()[i] == s[i]);
            }
        }
    }
}

pub proof fn lemma_kv_map_get<V>(s: Seq<(Seq<char>, V)>, i: int)
    requires
        kv_distinct(s),
        0 <= i < s.len(),
    ensures
        kv_map(s).contains_key(s[i].0),
        kv_map(s)[s[i].0] == s[i].1,
    decreases s.len(),
{
    if i == s.len() - 1 {
    } else {
        lemma_kv_map_get(s.drop_last(), i);
        assert(s.drop_last()[i] == s[i]);
    }
}

pub proof fn lemma_kv_map_push<V>(s: Seq<(Seq<char>, V)>, k: Seq<char>, v: V)
    ensures
        kv_map(s.push((k, v))) == kv_map(s).insert(k, v),
{
    assert(s.push((k, v)).drop_last() =~= s);
}

pub proof fn lemma_kv_map_remove<V>(s: Seq<(Seq<char>, V)>, i: int)
    requires
        kv_distinct(s),
        0 <= i < s.len(),
    ensures
        kv_map(s.remove(i)) =~= kv_map(s).remove(s[i].0),
        kv_distinct(s.remove(i)),
    decreases s.len(),
{
    lemma_kv_map_contains(s, s[i].0);
    lemma_kv_map_contains(s.remove(i), s[i].0);
    if i == s.len() - 1 {
        assert(s.remove(i) =~= s.drop_last());
        assert(forall|j: int|
            0 <= j < s.drop_last().len() ==> s.drop_last()[j] == s[j]);
        lemma_kv_map_absent_key(s.drop_last(), s[i].0);
    } else {
        assert(s.remove(i).drop_last() =~= s.drop_last().remove(i));
        lemma_kv_map_remove(s.drop_last(), i);
    }
}

pub proof fn lemma_kv_map_update<V>(s: Seq<(Seq<char>, V)>, i: int, v: V)
    requires
        kv_distinct(s),
        0 <= i < s.len(),
    ensures
        kv_map(s.update(i, (s[i].0, v))) =~= kv_map(s).insert(s[i].0, v),
        kv_distinct(s.update(i, (s[i].0, v))),
    decreases s.len(),
{
    if i == s.len() - 1 {
        assert(s.update(i, (s[i].0, v)).drop_last() =~= s.drop_last());
    } else {
        assert(s.update(i, (s[i].0, v)).drop_last() =~= s.drop_last().update(i, (s[i].0, v)));
        assert(s.drop_last()[i] == s[i]);
        lemma_kv_map_update(s.drop_last(), i, v);
        lemma_kv_map_contains(s.drop_last(), s[i].0);
    }
}

/// A key that occurs in no pair is absent from the denoted map.
pub proof fn lemma_kv_map_absent_key<V>(s: Seq<(Seq<char>, V)>, k: Seq<char>)
    requires
        forall|j: int| 0 <= j < s.len() ==> s[j].0 != k,
    ensures
        !kv_map(s).contains_key(k),
        kv_map(s).remove(k) =~= kv_map(s),
{
    lemma_kv_map_contains(s, k);
}

} // verus!
