//! The mathematical model of a run of entries: sortedness, key bounds, and
//! the finite map that a run of entries denotes.

use vstd::map::*;
use vstd::prelude::*;

verus! {

/// Keys strictly increase along `s`.
pub open spec fn sorted(s: Seq<(u64, u64)>) -> bool {
    forall|i: int, j: int| 0 <= i < j < s.len() ==> s[i].0 < s[j].0
}

/// Every key of `s` lies below `b`.
pub open spec fn all_below(s: Seq<(u64, u64)>, b: u64) -> bool {
    forall|i: int| 0 <= i < s.len() ==> (#[trigger] s[i]).0 < b
}

/// Every key of `s` is `b` or above.
pub open spec fn all_at_least(s: Seq<(u64, u64)>, b: u64) -> bool {
    forall|i: int| 0 <= i < s.len() ==> (#[trigger] s[i]).0 >= b
}

/// Some entry of `s` carries the key `k`.
pub open spec fn has_key(s: Seq<(u64, u64)>, k: u64) -> bool {
    exists|i: int| 0 <= i < s.len() && (#[trigger] s[i]).0 == k
}

/// The finite map that a run of entries denotes; a later entry wins over an
/// earlier one with the same key (a sorted run has no such pair).
pub open spec fn map_of(s: Seq<(u64, u64)>) -> Map<u64, u64>
    decreases s.len(),
{
    if s.len() == 0 {
        Map::empty()
    } else {
        map_of(s.drop_last()).insert(s.last().0, s.last().1)
    }
}

/// Looking a key up in a finite map, as an `Option`.
pub open spec fn lookup(m: Map<u64, u64>, k: u64) -> Option<u64> {
    if m.dom().contains(k) {
        Some(m[k])
    } else {
        None
    }
}

pub proof fn lemma_union_insert_right(m: Map<u64, u64>, n: Map<u64, u64>, k: u64, v: u64)
    ensures
        m.union_prefer_right(n).insert(k, v) == m.union_prefer_right(n.insert(k, v)),
{
    assert_maps_equal!(m.union_prefer_right(n).insert(k, v),
        m.union_prefer_right(n.insert(k, v)));
}

pub proof fn lemma_union_insert_left(m: Map<u64, u64>, n: Map<u64, u64>, k: u64, v: u64)
    requires
        !n.dom().contains(k),
    ensures
        m.union_prefer_right(n).insert(k, v) == m.insert(k, v).union_prefer_right(n),
{
    assert_maps_equal!(m.union_prefer_right(n).insert(k, v),
        m.insert(k, v).union_prefer_right(n));
}

pub proof fn lemma_union_remove(m: Map<u64, u64>, n: Map<u64, u64>, k: u64)
    ensures
        m.union_prefer_right(n).remove(k) == m.remove(k).union_prefer_right(n.remove(k)),
{
    assert_maps_equal!(m.union_prefer_right(n).remove(k),
        m.remove(k).union_prefer_right(n.remove(k)));
}

pub proof fn lemma_remove_absent(m: Map<u64, u64>, k: u64)
    requires
        !m.dom().contains(k),
    ensures
        m.remove(k) == m,
{
    assert_maps_equal!(m.remove(k), m);
}

pub proof fn lemma_insert_present(m: Map<u64, u64>, k: u64, v: u64)
    requires
        m.dom().contains(k),
        m[k] == v,
    ensures
        m.insert(k, v) == m,
{
    assert_maps_equal!(m.insert(k, v), m);
}

/// The map of a concatenation is the union of the maps, the right side winning.
pub proof fn lemma_map_of_concat(a: Seq<(u64, u64)>, b: Seq<(u64, u64)>)
    ensures
        map_of(a + b) == map_of(a).union_prefer_right(map_of(b)),
    decreases b.len(),
{
    if b.len() == 0 {
        assert(a + b =~= a);
        assert_maps_equal!(map_of(a).union_prefer_right(map_of(b)), map_of(a));
    } else {
        lemma_map_of_concat(a, b.drop_last());
        assert((a + b).drop_last() =~= a + b.drop_last());
        assert((a + b).last() == b.last());
        lemma_union_insert_right(map_of(a), map_of(b.drop_last()), b.last().0, b.last().1);
    }
}

/// A key is in the map of `s` exactly when some entry of `s` carries it.
pub proof fn lemma_map_of_has_key(s: Seq<(u64, u64)>)
    ensures
        forall|k: u64| #[trigger] map_of(s).dom().contains(k) <==> has_key(s, k),
    decreases s.len(),
{
    if s.len() > 0 {
        lemma_map_of_has_key(s.drop_last());
        assert forall|k: u64| has_key(s, k) implies #[trigger] map_of(s).dom().contains(k) by {
            let i = choose|i: int| 0 <= i < s.len() && (#[trigger] s[i]).0 == k;
            if i < s.len() - 1 {
                assert(s.drop_last()[i] == s[i]);
                assert(has_key(s.drop_last(), k));
                assert(map_of(s.drop_last()).dom().contains(k));
                assert(map_of(s) == map_of(s.drop_last()).insert(s.last().0, s.last().1));
            } else {
                assert(k == s.last().0);
                assert(map_of(s) == map_of(s.drop_last()).insert(s.last().0, s.last().1));
            }
        };
        assert forall|k: u64| #[trigger] map_of(s).dom().contains(k) implies has_key(s, k) by {
            if k != s.last().0 {
                assert(map_of(s.drop_last()).dom().contains(k));
                let i = choose|i: int| 0 <= i < s.drop_last().len()
                    && (#[trigger] s.drop_last()[i]).0 == k;
                assert(s[i] == s.drop_last()[i]);
            } else {
                assert(s[s.len() - 1].0 == k);
            }
        };
    }
}

/// In a sorted run, the map of the run sends each entry's key to its value.
pub proof fn lemma_map_of_index(s: Seq<(u64, u64)>, i: int)
    requires
        sorted(s),
        0 <= i < s.len(),
    ensures
        map_of(s).dom().contains(s[i].0),
        map_of(s)[s[i].0] == s[i].1,
    decreases s.len(),
{
    if i < s.len() - 1 {
        assert(sorted(s.drop_last()));
        assert(s.drop_last()[i] == s[i]);
        lemma_map_of_index(s.drop_last(), i);
        assert(s[i].0 != s.last().0);
    }
}

/// Two sorted runs separated by a bound concatenate to a sorted run.
pub proof fn lemma_sorted_concat(a: Seq<(u64, u64)>, b: Seq<(u64, u64)>, x: u64)
    requires
        sorted(a),
        sorted(b),
        all_below(a, x),
        all_at_least(b, x),
    ensures
        sorted(a + b),
{
    assert forall|i: int, j: int| 0 <= i < j < (a + b).len() implies (a + b)[i].0 < (a
        + b)[j].0 by {
        if i < a.len() && j >= a.len() {
            assert(a[i].0 < x);
            assert(b[j - a.len()].0 >= x);
        }
    };
}

pub proof fn lemma_remove_insert(m: Map<u64, u64>, k: u64, v: u64)
    ensures
        m.remove(k).insert(k, v) == m.insert(k, v),
{
    assert_maps_equal!(m.remove(k).insert(k, v), m.insert(k, v));
}

pub proof fn lemma_union_empty(m: Map<u64, u64>)
    ensures
        m.union_prefer_right(Map::empty()) == m,
        Map::<u64, u64>::empty().union_prefer_right(m) == m,
{
    assert_maps_equal!(m.union_prefer_right(Map::<u64, u64>::empty()), m);
    assert_maps_equal!(Map::<u64, u64>::empty().union_prefer_right(m), m);
}

/// Inserting an entry at its sorted position keeps the run sorted and
/// inserts into the denoted map.
pub proof fn lemma_leaf_insert(s: Seq<(u64, u64)>, i: int, k: u64, v: u64)
    requires
        sorted(s),
        0 <= i <= s.len(),
        forall|x: int| 0 <= x < i ==> (#[trigger] s[x]).0 < k,
        i < s.len() ==> s[i].0 > k,
    ensures
        sorted(s.insert(i, (k, v))),
        map_of(s.insert(i, (k, v))) == map_of(s).insert(k, v),
{
    let s2 = s.insert(i, (k, v));
    let pre = s.take(i);
    let suf = s.skip(i);
    assert(s2 =~= pre + seq![(k, v)] + suf);
    assert(s =~= pre + suf);
    assert(all_below(pre, k));
    assert forall|x: int| 0 <= x < suf.len() implies (#[trigger] suf[x]).0 > k by {
        assert(suf[x] == s[i + x]);
        if x > 0 {
            assert(s[i].0 < s[i + x].0);
        }
    };
    assert(sorted(pre));
    assert(sorted(suf));
    lemma_sorted_concat(pre, seq![(k, v)], k);
    if i < s.len() {
        assert(all_below(pre + seq![(k, v)], s[i].0));
        assert(all_at_least(suf, s[i].0));
        lemma_sorted_concat(pre + seq![(k, v)], suf, s[i].0);
    } else {
        assert(suf =~= Seq::<(u64, u64)>::empty());
        assert(pre + seq![(k, v)] + suf =~= pre + seq![(k, v)]);
    }
    lemma_map_of_concat(pre + seq![(k, v)], suf);
    lemma_map_of_concat(pre, seq![(k, v)]);
    lemma_map_of_concat(pre, suf);
    assert(seq![(k, v)].drop_last() =~= Seq::<(u64, u64)>::empty());
    assert(map_of(Seq::<(u64, u64)>::empty()) == Map::<u64, u64>::empty());
    assert(seq![(k, v)].last() == (k, v));
    assert(map_of(seq![(k, v)]) == Map::<u64, u64>::empty().insert(k, v));
    lemma_map_of_has_key(suf);
    assert(!map_of(suf).dom().contains(k));
    lemma_union_insert_right(map_of(pre), Map::empty(), k, v);
    lemma_union_empty(map_of(pre));
    assert(map_of(pre).union_prefer_right(map_of(seq![(k, v)])) == map_of(pre).insert(k, v));
    lemma_union_insert_left(map_of(pre), map_of(suf), k, v);
}

/// Removing the entry at `i` keeps the run sorted and removes its key from
/// the denoted map.
pub proof fn lemma_leaf_remove(s: Seq<(u64, u64)>, i: int)
    requires
        sorted(s),
        0 <= i < s.len(),
    ensures
        sorted(s.remove(i)),
        map_of(s.remove(i)) == map_of(s).remove(s[i].0),
        map_of(s).contains_pair(s[i].0, s[i].1),
{
    let k = s[i].0;
    lemma_map_of_index(s, i);
    let s2 = s.remove(i);
    let pre = s.take(i);
    let suf = s.skip(i + 1);
    assert(s2 =~= pre + suf);
    assert(s =~= pre + seq![s[i]] + suf);
    assert(all_below(pre, k));
    assert forall|x: int| 0 <= x < suf.len() implies (#[trigger] suf[x]).0 > k by {
        assert(suf[x] == s[i + 1 + x]);
    };
    assert(sorted(pre));
    assert(sorted(suf));
    lemma_sorted_concat(pre, suf, k);
    lemma_map_of_concat(pre + seq![s[i]], suf);
    lemma_map_of_concat(pre, seq![s[i]]);
    lemma_map_of_concat(pre, suf);
    assert(seq![s[i]].drop_last() =~= Seq::<(u64, u64)>::empty());
    assert(map_of(Seq::<(u64, u64)>::empty()) == Map::<u64, u64>::empty());
    assert(seq![s[i]].last() == s[i]);
    assert(map_of(seq![s[i]]) == Map::<u64, u64>::empty().insert(k, s[i].1));
    lemma_map_of_has_key(pre);
    lemma_map_of_has_key(suf);
    assert(!map_of(pre).dom().contains(k));
    assert(!map_of(suf).dom().contains(k));
    let p = map_of(pre);
    let m = map_of(seq![s[i]]);
    let q = map_of(suf);
    assert(map_of(s) == p.union_prefer_right(m).union_prefer_right(q));
    lemma_union_remove(p.union_prefer_right(m), q, k);
    lemma_union_remove(p, m, k);
    lemma_remove_absent(p, k);
    lemma_remove_absent(q, k);
    assert_maps_equal!(m.remove(k), Map::<u64, u64>::empty());
    lemma_union_empty(p);
    assert(map_of(s).remove(k) == p.union_prefer_right(q));
}

/// A key bound carries over to any rearrangement whose keys all come from
/// `t`'s keys with at most `k` added.
pub proof fn lemma_all_below_from(s: Seq<(u64, u64)>, t: Seq<(u64, u64)>, k: u64, b: u64)
    requires
        forall|x: u64| #[trigger] map_of(s).dom().contains(x) ==> map_of(t).dom().contains(x) || x
            == k,
        all_below(t, b),
        k < b,
    ensures
        all_below(s, b),
{
    lemma_map_of_has_key(s);
    lemma_map_of_has_key(t);
    assert forall|i: int| 0 <= i < s.len() implies (#[trigger] s[i]).0 < b by {
        assert(has_key(s, s[i].0));
        assert(map_of(s).dom().contains(s[i].0));
        if s[i].0 != k {
            let j = choose|j: int| 0 <= j < t.len() && (#[trigger] t[j]).0 == s[i].0;
            assert(t[j].0 < b);
        }
    };
}

/// The counterpart of `lemma_all_below_from` for a lower bound.
pub proof fn lemma_all_at_least_from(s: Seq<(u64, u64)>, t: Seq<(u64, u64)>, k: u64, b: u64)
    requires
        forall|x: u64| #[trigger] map_of(s).dom().contains(x) ==> map_of(t).dom().contains(x) || x
            == k,
        all_at_least(t, b),
        k >= b,
    ensures
        all_at_least(s, b),
{
    lemma_map_of_has_key(s);
    lemma_map_of_has_key(t);
    assert forall|i: int| 0 <= i < s.len() implies (#[trigger] s[i]).0 >= b by {
        assert(has_key(s, s[i].0));
        assert(map_of(s).dom().contains(s[i].0));
        if s[i].0 != k {
            let j = choose|j: int| 0 <= j < t.len() && (#[trigger] t[j]).0 == s[i].0;
            assert(t[j].0 >= b);
        }
    };
}


/// Folding a run of inserts over a map, first entry first.
pub open spec fn insert_all(m: Map<u64, u64>, s: Seq<(u64, u64)>) -> Map<u64, u64>
    decreases s.len(),
{
    if s.len() == 0 {
        m
    } else {
        insert_all(m.insert(s[0].0, s[0].1), s.skip(1))
    }
}

/// Folding a run of removals over a map, first key first.
pub open spec fn remove_all(m: Map<u64, u64>, t: Seq<u64>) -> Map<u64, u64>
    decreases t.len(),
{
    if t.len() == 0 {
        m
    } else {
        remove_all(m.remove(t[0]), t.skip(1))
    }
}

/// Removing every key of a map, in any order and with any others thrown
/// in, leaves the empty map.
pub proof fn lemma_remove_all_covers(m: Map<u64, u64>, t: Seq<u64>)
    requires
        forall|k: u64| #[trigger] m.dom().contains(k) ==> t.contains(k),
    ensures
        remove_all(m, t) == Map::<u64, u64>::empty(),
    decreases t.len(),
{
    if t.len() == 0 {
        assert forall|k: u64| !(#[trigger] m.dom().contains(k)) by {
            if m.dom().contains(k) {
                assert(t.contains(k));
            }
        };
        assert_maps_equal!(m, Map::<u64, u64>::empty());
    } else {
        let m2 = m.remove(t[0]);
        assert forall|k: u64| #[trigger] m2.dom().contains(k) implies t.skip(1).contains(k) by {
            assert(m.dom().contains(k));
            assert(t.contains(k));
            let i = choose|i: int| 0 <= i < t.len() && t[i] == k;
            assert(k != t[0]);
            assert(t.skip(1)[i - 1] == k);
        };
        lemma_remove_all_covers(m2, t.skip(1));
    }
}

/// Inserting a run of entries adds no key beyond the run's own.
pub proof fn lemma_insert_all_dom(m: Map<u64, u64>, s: Seq<(u64, u64)>)
    ensures
        forall|k: u64| #[trigger] insert_all(m, s).dom().contains(k) ==> m.dom().contains(k)
            || has_key(s, k),
    decreases s.len(),
{
    if s.len() > 0 {
        lemma_insert_all_dom(m.insert(s[0].0, s[0].1), s.skip(1));
        assert forall|k: u64| #[trigger] insert_all(m, s).dom().contains(k) implies m.dom().contains(
            k,
        ) || has_key(s, k) by {
            assert(insert_all(m, s) == insert_all(m.insert(s[0].0, s[0].1), s.skip(1)));
            assert(insert_all(m.insert(s[0].0, s[0].1), s.skip(1)).dom().contains(k));
            if m.insert(s[0].0, s[0].1).dom().contains(k) {
                if k == s[0].0 {
                    assert((#[trigger] s[0]).0 == k);
                    assert(has_key(s, k));
                } else {
                    assert(m.dom().contains(k));
                }
            } else {
                assert(has_key(s.skip(1), k));
                let i = choose|i: int| 0 <= i < s.skip(1).len() && (#[trigger] s.skip(1)[i]).0
                    == k;
                assert(s[i + 1].0 == k);
                assert(has_key(s, k));
            }
        };
    }
}

/// Round trip: inserting any run of entries into the empty map and then
/// removing a run of keys that covers every inserted key leaves the empty
/// map, whatever the two orders.
pub proof fn lemma_round_trip(s: Seq<(u64, u64)>, t: Seq<u64>)
    requires
        forall|i: int| 0 <= i < s.len() ==> t.contains((#[trigger] s[i]).0),
    ensures
        remove_all(insert_all(Map::<u64, u64>::empty(), s), t) == Map::<u64, u64>::empty(),
{
    let m = insert_all(Map::<u64, u64>::empty(), s);
    lemma_insert_all_dom(Map::<u64, u64>::empty(), s);
    assert forall|k: u64| #[trigger] m.dom().contains(k) implies t.contains(k) by {
        assert(has_key(s, k));
        let i = choose|i: int| 0 <= i < s.len() && (#[trigger] s[i]).0 == k;
        assert(t.contains(s[i].0));
    };
    lemma_remove_all_covers(m, t);
}

} // verus!
