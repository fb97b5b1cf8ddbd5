//! The tree node: a leaf holds a sorted run of entries, a branch holds
//! boundary keys and child subtrees behind shared, reference-counted
//! handles. Untouched subtrees are shared between versions; a write first
//! takes sole ownership of the node it touches, cloning it when the node is
//! still visible to another version.

use crate::seqmap::{
    all_at_least, all_below, has_key, lemma_all_at_least_from, lemma_all_below_from,
    lemma_map_of_concat, lemma_map_of_has_key, lemma_map_of_index, lemma_sorted_concat, lookup,
    map_of, sorted,
};
use std::rc::Rc;
use vstd::map::*;
use vstd::prelude::*;

verus! {

/// Minimum number of entries in a non-root leaf. A leaf holds at most
/// `2 * B` entries; a branch holds between `B + 1` and `2 * B + 1` children
/// (the root is exempt from the minima).
pub const B: usize = 2;

/// A node of the tree. A `Leaf` holds entries sorted strictly by key. A
/// `Branch` holds `keys.len() + 1` children; every key in `children[i]`
/// lies below `keys[i]`, and every key in `children[i + 1]` is `keys[i]`
/// or above.
#[derive(Clone)]
pub enum Node {
    Leaf { items: Vec<(u64, u64)> },
    Branch { keys: Vec<u64>, children: Vec<Rc<Node>> },
}

/// In-order run of the entries of `n`.
pub open spec fn entries(n: Node) -> Seq<(u64, u64)>
    decreases n, 1int,
{
    match n {
        Node::Leaf { items } => items@,
        Node::Branch { keys: _, children } => entries_all(children@),
    }
}

/// The node behind a shared handle.
pub open spec fn node_of(c: Rc<Node>) -> Node {
    *c
}

/// The entries of the child at position `j` of a run.
pub open spec fn entries_at(cs: Seq<Rc<Node>>, j: int) -> Seq<(u64, u64)> {
    entries(*cs[j])
}

/// Concatenation, in order, of the entries of a run of children.
pub open spec fn entries_all(cs: Seq<Rc<Node>>) -> Seq<(u64, u64)>
    decreases cs, 0int,
{
    if cs.len() == 0 {
        Seq::empty()
    } else {
        entries_all(cs.drop_last()) + entries(*cs.last())
    }
}

/// Distance from `n` down to its leftmost leaf. In a well-formed tree every
/// leaf sits at exactly this depth.
pub open spec fn height(n: Node) -> nat
    decreases n,
{
    match n {
        Node::Leaf { .. } => 0,
        Node::Branch { keys: _, children } => if children@.len() == 0 {
            1
        } else {
            1 + height(*children@[0])
        },
    }
}

/// Occupancy of a node: entries of a leaf, children of a branch.
pub open spec fn size(n: Node) -> nat {
    match n {
        Node::Leaf { items } => items@.len(),
        Node::Branch { keys: _, children } => children@.len(),
    }
}

/// Minimum occupancy of a non-root node.
pub open spec fn min_size(n: Node) -> nat {
    match n {
        Node::Leaf { .. } => B as nat,
        Node::Branch { .. } => (B + 1) as nat,
    }
}

/// The node meets the minimum occupancy asked of a non-root node.
pub open spec fn full_enough(n: Node) -> bool {
    size(n) >= min_size(n)
}

/// Well-formedness of the subtree rooted at `n`: sorted entries, occupancy
/// bounds, boundary keys that fence the children, and children of equal
/// height. The minimum occupancy binds the children, never `n` itself, so
/// the same predicate serves the root and every inner node.
pub open spec fn wf(n: Node) -> bool
    decreases n, 1int,
{
    match n {
        Node::Leaf { items } => sorted(items@) && items@.len() <= 2 * B,
        Node::Branch { keys, children } => {
            &&& children@.len() <= 2 * B + 1
            &&& wf_all(children@)
            &&& forall|i: int|
                0 <= i < children@.len() ==> height(*#[trigger] children@[i]) + 1 == height(n)
            &&& forall|i: int| 0 <= i < children@.len() ==> full_enough(*#[trigger] children@[i])
            &&& branch_parts(keys@, children@)
        },
    }
}

/// The fence conditions of a branch: one more child than keys, keys
/// strictly increasing, and each key bounding the entries of the children
/// on either side of it.
pub open spec fn branch_parts(ks: Seq<u64>, cs: Seq<Rc<Node>>) -> bool {
    &&& cs.len() == ks.len() + 1
    &&& forall|i: int, j: int| 0 <= i < j < ks.len() ==> ks[i] < ks[j]
    &&& forall|i: int| #![trigger ks[i]]
        0 <= i < ks.len() ==> all_below(entries(*cs[i]), ks[i])
    &&& forall|i: int| #![trigger ks[i]]
        0 <= i < ks.len() ==> all_at_least(entries(*cs[i + 1]), ks[i])
}

/// Well-formedness of each node of a run of children.
pub open spec fn wf_all(cs: Seq<Rc<Node>>) -> bool
    decreases cs, 0int,
{
    if cs.len() == 0 {
        true
    } else {
        wf_all(cs.drop_last()) && wf(*cs.last())
    }
}

pub proof fn lemma_wf_all_index(cs: Seq<Rc<Node>>)
    ensures
        wf_all(cs) <==> forall|i: int| 0 <= i < cs.len() ==> wf(*#[trigger] cs[i]),
    decreases cs.len(),
{
    if cs.len() > 0 {
        lemma_wf_all_index(cs.drop_last());
        if wf_all(cs) {
            assert forall|i: int| 0 <= i < cs.len() implies wf(*#[trigger] cs[i]) by {
                if i < cs.len() - 1 {
                    assert(cs.drop_last()[i] == cs[i]);
                }
            };
        }
        if forall|i: int| 0 <= i < cs.len() ==> wf(*#[trigger] cs[i]) {
            assert forall|i: int| 0 <= i < cs.drop_last().len() implies wf(
                *#[trigger] cs.drop_last()[i],
            ) by {
                assert(cs.drop_last()[i] == cs[i]);
            };
        }
    }
}

/// `entries_all` distributes over splitting a run of children in two.
pub proof fn lemma_entries_all_split(cs: Seq<Rc<Node>>, j: int)
    requires
        0 <= j <= cs.len(),
    ensures
        entries_all(cs) == entries_all(cs.take(j)) + entries_all(cs.skip(j)),
    decreases cs.len(),
{
    if j == cs.len() {
        assert(cs.take(j) =~= cs);
        assert(entries_all(cs.skip(j)) == Seq::<(u64, u64)>::empty());
        assert(entries_all(cs) =~= entries_all(cs.take(j)) + entries_all(cs.skip(j)));
    } else {
        let d = cs.drop_last();
        lemma_entries_all_split(d, j);
        assert(d.take(j) =~= cs.take(j));
        assert(cs.skip(j).drop_last() =~= d.skip(j));
        assert(cs.skip(j).len() > 0);
        assert(cs.skip(j).last() == cs.last());
        assert(entries_all(cs.skip(j)) == entries_all(d.skip(j)) + entries(*cs.last()));
        assert(entries_all(cs) == (entries_all(cs.take(j)) + entries_all(d.skip(j))) + entries(
            *cs.last(),
        ));
        assert((entries_all(cs.take(j)) + entries_all(d.skip(j))) + entries(*cs.last())
            =~= entries_all(cs.take(j)) + (entries_all(d.skip(j)) + entries(*cs.last())));
    }
}

/// The entries of a single child, as a run.
pub proof fn lemma_entries_all_one(c: Rc<Node>)
    ensures
        entries_all(seq![c]) == entries(*c),
{
    assert(seq![c].drop_last() =~= Seq::<Rc<Node>>::empty());
    assert(entries_all(seq![c]) == entries_all(Seq::<Rc<Node>>::empty()) + entries(*c));
    assert(Seq::<(u64, u64)>::empty() + entries(*c) =~= entries(*c));
}

/// Carving the child at `j` out of a run of children.
pub proof fn lemma_entries_all_parts(cs: Seq<Rc<Node>>, j: int)
    requires
        0 <= j < cs.len(),
    ensures
        entries_all(cs) == entries_all(cs.take(j)) + entries(*cs[j]) + entries_all(
            cs.skip(j + 1),
        ),
{
    lemma_entries_all_split(cs, j);
    lemma_entries_all_split(cs.skip(j), 1);
    assert(cs.skip(j).take(1) =~= seq![cs[j]]);
    lemma_entries_all_one(cs[j]);
    assert(cs.skip(j).skip(1) =~= cs.skip(j + 1));
    assert(entries_all(cs.take(j)) + (entries(*cs[j]) + entries_all(cs.skip(j + 1)))
        =~= entries_all(cs.take(j)) + entries(*cs[j]) + entries_all(cs.skip(j + 1)));
}

/// Every child of a well-formed branch has sorted entries.
pub proof fn lemma_children_sorted(cs: Seq<Rc<Node>>)
    requires
        wf_all(cs),
    ensures
        forall|i: int| 0 <= i < cs.len() ==> sorted(entries(*#[trigger] cs[i])),
    decreases cs, 0int,
{
    if cs.len() > 0 {
        lemma_children_sorted(cs.drop_last());
        lemma_wf_sorted(node_of(cs.last()));
        assert forall|i: int| 0 <= i < cs.len() implies sorted(entries(*#[trigger] cs[i])) by {
            if i < cs.len() - 1 {
                assert(cs.drop_last()[i] == cs[i]);
            }
        };
    }
}

/// The in-order run of a well-formed subtree is sorted.
pub proof fn lemma_wf_sorted(n: Node)
    requires
        wf(n),
    ensures
        sorted(entries(n)),
    decreases n, 1int,
{
    match n {
        Node::Leaf { .. } => {},
        Node::Branch { keys, children } => {
            lemma_children_sorted(children@);
            lemma_sorted_prefix(keys@, children@, children@.len() as int);
            assert(children@.take(children@.len() as int) =~= children@);
        },
    }
}

/// A prefix of a well-fenced run of children concatenates to a sorted run,
/// bounded above by the key at its right edge.
pub proof fn lemma_sorted_prefix(ks: Seq<u64>, cs: Seq<Rc<Node>>, j: int)
    requires
        branch_parts(ks, cs),
        forall|i: int| 0 <= i < cs.len() ==> sorted(entries(*#[trigger] cs[i])),
        1 <= j <= cs.len(),
    ensures
        sorted(entries_all(cs.take(j))),
        j <= ks.len() ==> all_below(entries_all(cs.take(j)), ks[j - 1]),
    decreases j,
{
    if j == 1 {
        lemma_entries_all_one(cs[0]);
        assert(cs.take(1) =~= seq![cs[0]]);
        if j <= ks.len() {
            assert(all_below(entries(*cs[0]), ks[0]));
        }
    } else {
        lemma_sorted_prefix(ks, cs, j - 1);
        let pre = entries_all(cs.take(j - 1));
        let mid = entries_at(cs, j - 1);
        assert(cs.take(j).drop_last() =~= cs.take(j - 1));
        assert(cs.take(j).last() == cs[j - 1]);
        assert(entries_all(cs.take(j)) == pre + mid);
        assert(all_below(pre, ks[j - 2]));
        assert(all_at_least(mid, ks[j - 2]));
        lemma_sorted_concat(pre, mid, ks[j - 2]);
        if j <= ks.len() {
            assert(all_below(mid, ks[j - 1]));
            assert(ks[j - 2] < ks[j - 1]);
            assert forall|i: int| 0 <= i < (pre + mid).len() implies (#[trigger] (pre + mid)[i]).0
                < ks[j - 1] by {
                if i < pre.len() {
                    assert(pre[i].0 < ks[j - 2]);
                } else {
                    assert(mid[i - pre.len()].0 < ks[j - 1]);
                }
            };
        }
    }
}

/// A suffix of a well-fenced run of children has all keys at or above the
/// key at its left edge.
pub proof fn lemma_at_least_suffix(ks: Seq<u64>, cs: Seq<Rc<Node>>, j: int)
    requires
        branch_parts(ks, cs),
        1 <= j <= cs.len(),
    ensures
        all_at_least(entries_all(cs.skip(j)), ks[j - 1]),
    decreases cs.len() - j,
{
    if j == cs.len() {
        assert(entries_all(cs.skip(j)) == Seq::<(u64, u64)>::empty());
    } else {
        lemma_entries_all_parts(cs.skip(j), 0);
        assert(cs.skip(j).take(0) =~= Seq::<Rc<Node>>::empty());
        assert(cs.skip(j)[0] == cs[j]);
        assert(cs.skip(j).skip(1) =~= cs.skip(j + 1));
        assert(entries_all(cs.skip(j)) == Seq::<(u64, u64)>::empty() + entries(*cs[j])
            + entries_all(cs.skip(j + 1)));
        let rest = entries_all(cs.skip(j + 1));
        assert(all_at_least(entries(*cs[j]), ks[j - 1]));
        if j + 1 <= cs.len() {
            lemma_at_least_suffix(ks, cs, j + 1);
            if j < ks.len() {
                assert(all_at_least(rest, ks[j]));
                assert(ks[j - 1] < ks[j]);
            }
        }
        assert forall|i: int| 0 <= i < entries_all(cs.skip(j)).len() implies (
        #[trigger] entries_all(cs.skip(j))[i]).0 >= ks[j - 1] by {
            let whole = Seq::<(u64, u64)>::empty() + entries(*cs[j]) + rest;
            assert(entries_all(cs.skip(j)) == whole);
            let m = entries(*cs[j]).len() as int;
            if i < m {
                assert(whole[i] == entries(*cs[j])[i]);
            } else {
                assert(whole[i] == rest[i - m]);
                assert(j < ks.len());
            }
        };
    }
}

/// The run of children decomposed around the child that covers key `k`:
/// entries left of it all lie below `k`'s fence, entries right of it at or
/// above, so `k` can only occur in the child itself.
pub proof fn lemma_focus(ks: Seq<u64>, cs: Seq<Rc<Node>>, j: int, k: u64)
    requires
        branch_parts(ks, cs),
        forall|i: int| 0 <= i < cs.len() ==> sorted(entries(*#[trigger] cs[i])),
        0 <= j < cs.len(),
        j > 0 ==> ks[j - 1] <= k,
        j < ks.len() ==> k < ks[j],
    ensures
        entries_all(cs) == entries_all(cs.take(j)) + entries(*cs[j]) + entries_all(
            cs.skip(j + 1),
        ),
        map_of(entries_all(cs)) == map_of(entries_all(cs.take(j))).union_prefer_right(
            map_of(entries(*cs[j])),
        ).union_prefer_right(map_of(entries_all(cs.skip(j + 1)))),
        !map_of(entries_all(cs.take(j))).dom().contains(k),
        !map_of(entries_all(cs.skip(j + 1))).dom().contains(k),
{
    lemma_entries_all_parts(cs, j);
    let pre = entries_all(cs.take(j));
    let mid = entries_at(cs, j);
    let suf = entries_all(cs.skip(j + 1));
    lemma_map_of_concat(pre + mid, suf);
    lemma_map_of_concat(pre, mid);
    lemma_map_of_has_key(pre);
    lemma_map_of_has_key(suf);
    if j > 0 {
        lemma_sorted_prefix(ks, cs, j);
        assert(all_below(pre, ks[j - 1]));
        if map_of(pre).dom().contains(k) {
            let i = choose|i: int| 0 <= i < pre.len() && (#[trigger] pre[i]).0 == k;
            assert(pre[i].0 < ks[j - 1]);
            assert(false);
        }
    } else {
        assert(cs.take(0) =~= Seq::<Rc<Node>>::empty());
        assert(pre == Seq::<(u64, u64)>::empty());
    }
    if j < ks.len() {
        lemma_at_least_suffix(ks, cs, j + 1);
        assert(all_at_least(suf, ks[j]));
        if map_of(suf).dom().contains(k) {
            let i = choose|i: int| 0 <= i < suf.len() && (#[trigger] suf[i]).0 == k;
            assert(suf[i].0 >= ks[j]);
            assert(false);
        }
    } else {
        assert(cs.skip(j + 1) =~= Seq::<Rc<Node>>::empty());
    }
}

/// `entries_all` distributes over concatenation of child runs.
pub proof fn lemma_entries_all_concat(a: Seq<Rc<Node>>, b: Seq<Rc<Node>>)
    ensures
        entries_all(a + b) == entries_all(a) + entries_all(b),
{
    lemma_entries_all_split(a + b, a.len() as int);
    assert((a + b).take(a.len() as int) =~= a);
    assert((a + b).skip(a.len() as int) =~= b);
}

/// A well-formed subtree with at least one entry or child holds at least
/// one entry: the minima below it never let a run dry out.
pub proof fn lemma_entries_nonempty(n: Node)
    requires
        wf(n),
        size(n) >= 1,
    ensures
        entries(n).len() > 0,
    decreases n,
{
    match n {
        Node::Leaf { .. } => {},
        Node::Branch { keys: _, children } => {
            lemma_wf_all_index(children@);
            lemma_entries_all_parts(children@, 0);
            lemma_entries_nonempty(node_of(children@[0]));
        },
    }
}

/// What holds of a whole run of children holds of each child: its keys are
/// among the run's keys, and the run's bounds bound it.
pub proof fn lemma_child_within(ms: Seq<Rc<Node>>, i: int)
    requires
        0 <= i < ms.len(),
    ensures
        forall|x: u64| #[trigger] map_of(entries_at(ms, i)).dom().contains(x) ==> map_of(
            entries_all(ms),
        ).dom().contains(x),
        forall|b: u64| #[trigger] all_below(entries_all(ms), b) ==> all_below(
            entries_at(ms, i),
            b,
        ),
        forall|b: u64| #[trigger] all_at_least(entries_all(ms), b) ==> all_at_least(
            entries_at(ms, i),
            b,
        ),
{
    lemma_entries_all_parts(ms, i);
    let a = entries_all(ms.take(i));
    let mid = entries_at(ms, i);
    let c = entries_all(ms.skip(i + 1));
    assert(entries_all(ms) == a + mid + c);
    assert forall|e: int| 0 <= e < mid.len() implies entries_all(ms)[a.len() + e] == #[trigger] mid[e] by {
        assert((a + mid + c)[a.len() + e] == mid[e]);
    };
    lemma_map_of_has_key(mid);
    lemma_map_of_has_key(entries_all(ms));
    assert forall|x: u64| #[trigger] map_of(mid).dom().contains(x) implies map_of(
        entries_all(ms),
    ).dom().contains(x) by {
        let e = choose|e: int| 0 <= e < mid.len() && (#[trigger] mid[e]).0 == x;
        assert(entries_all(ms)[a.len() + e] == mid[e]);
        assert(has_key(entries_all(ms), x));
    };
}

/// Splicing a run of replacement children (with their interior fences) in
/// place of the child range `[lo, hi)` keeps the fence conditions, as long
/// as the replacements' keys stay within the replaced range's span with at
/// most the key `k` added, and decomposes the runs and maps on both sides.
#[verifier::rlimit(100)]
pub proof fn lemma_parts_splice(
    ks: Seq<u64>,
    cs: Seq<Rc<Node>>,
    ks2: Seq<u64>,
    cs2: Seq<Rc<Node>>,
    lo: int,
    hi: int,
    mid_ks: Seq<u64>,
    mids: Seq<Rc<Node>>,
    k: u64,
)
    requires
        branch_parts(ks, cs),
        forall|i: int| 0 <= i < cs.len() ==> sorted(entries(*#[trigger] cs[i])),
        0 <= lo < hi <= cs.len(),
        mids.len() >= 1,
        mid_ks.len() == mids.len() - 1,
        cs2 == cs.take(lo) + mids + cs.skip(hi),
        ks2 == ks.take(lo) + mid_ks + ks.skip(hi - 1),
        lo > 0 ==> ks[lo - 1] <= k,
        hi - 1 < ks.len() ==> k < ks[hi - 1],
        forall|x: u64| #[trigger] map_of(entries_all(mids)).dom().contains(x) ==> map_of(
            entries_all(cs.subrange(lo, hi)),
        ).dom().contains(x) || x == k,
        forall|i: int| 0 <= i < mid_ks.len() ==> all_below(entries_at(mids, i), #[trigger] mid_ks[i]),
        forall|i: int|
            0 <= i < mid_ks.len() ==> all_at_least(entries_at(mids, i + 1), #[trigger] mid_ks[i]),
        forall|i: int, j: int| 0 <= i < j < mid_ks.len() ==> mid_ks[i] < mid_ks[j],
        forall|i: int| 0 <= i < mids.len() ==> #[trigger] entries_at(mids, i).len() > 0,
    ensures
        branch_parts(ks2, cs2),
        entries_all(cs2) == entries_all(cs.take(lo)) + entries_all(mids) + entries_all(
            cs.skip(hi),
        ),
        map_of(entries_all(cs2)) == map_of(entries_all(cs.take(lo))).union_prefer_right(
            map_of(entries_all(mids)),
        ).union_prefer_right(map_of(entries_all(cs.skip(hi)))),
        map_of(entries_all(cs)) == map_of(entries_all(cs.take(lo))).union_prefer_right(
            map_of(entries_all(cs.subrange(lo, hi))),
        ).union_prefer_right(map_of(entries_all(cs.skip(hi)))),
        !map_of(entries_all(cs.take(lo))).dom().contains(k),
        !map_of(entries_all(cs.skip(hi))).dom().contains(k),
{
    let m = mids.len() as int;
    let d = hi - lo - m;
    let a = cs.take(lo);
    let r = cs.subrange(lo, hi);
    let c = cs.skip(hi);
    // the two decompositions
    assert(cs =~= (a + r) + c);
    lemma_entries_all_concat(a + r, c);
    lemma_entries_all_concat(a, r);
    assert(entries_all(cs) == (entries_all(a) + entries_all(r)) + entries_all(c));
    lemma_map_of_concat(entries_all(a) + entries_all(r), entries_all(c));
    lemma_map_of_concat(entries_all(a), entries_all(r));
    assert(cs2 =~= (a + mids) + c);
    lemma_entries_all_concat(a + mids, c);
    lemma_entries_all_concat(a, mids);
    assert(entries_all(cs2) == (entries_all(a) + entries_all(mids)) + entries_all(c));
    lemma_map_of_concat(entries_all(a) + entries_all(mids), entries_all(c));
    lemma_map_of_concat(entries_all(a), entries_all(mids));
    // the prefix and suffix hold no key of the replaced span
    lemma_map_of_has_key(entries_all(a));
    lemma_map_of_has_key(entries_all(c));
    if lo > 0 {
        lemma_sorted_prefix(ks, cs, lo);
        assert(all_below(entries_all(a), ks[lo - 1]));
        if map_of(entries_all(a)).dom().contains(k) {
            let e = choose|e: int|
                0 <= e < entries_all(a).len() && (#[trigger] entries_all(a)[e]).0 == k;
            assert(entries_all(a)[e].0 < ks[lo - 1]);
            assert(false);
        }
    } else {
        assert(a =~= Seq::<Rc<Node>>::empty());
        assert(entries_all(a) == Seq::<(u64, u64)>::empty());
    }
    if hi - 1 < ks.len() {
        lemma_at_least_suffix(ks, cs, hi);
        assert(all_at_least(entries_all(c), ks[hi - 1]));
        if map_of(entries_all(c)).dom().contains(k) {
            let e = choose|e: int|
                0 <= e < entries_all(c).len() && (#[trigger] entries_all(c)[e]).0 == k;
            assert(entries_all(c)[e].0 >= ks[hi - 1]);
            assert(false);
        }
    } else {
        assert(hi == cs.len());
        assert(c =~= Seq::<Rc<Node>>::empty());
        assert(entries_all(c) == Seq::<(u64, u64)>::empty());
    }
    lemma_splice_fences(ks, cs, ks2, cs2, lo, hi, mid_ks, mids, k);

}



/// The replacement children stay within the replaced span's outer fences.
#[verifier::rlimit(100)]
proof fn lemma_splice_mids_bounds(
    ks: Seq<u64>,
    cs: Seq<Rc<Node>>,
    ks2: Seq<u64>,
    cs2: Seq<Rc<Node>>,
    lo: int,
    hi: int,
    mid_ks: Seq<u64>,
    mids: Seq<Rc<Node>>,
    k: u64,
)
    requires
        branch_parts(ks, cs),
        forall|i: int| 0 <= i < cs.len() ==> sorted(entries(*#[trigger] cs[i])),
        0 <= lo < hi <= cs.len(),
        mids.len() >= 1,
        mid_ks.len() == mids.len() - 1,
        cs2 == cs.take(lo) + mids + cs.skip(hi),
        ks2 == ks.take(lo) + mid_ks + ks.skip(hi - 1),
        lo > 0 ==> ks[lo - 1] <= k,
        hi - 1 < ks.len() ==> k < ks[hi - 1],
        forall|x: u64| #[trigger] map_of(entries_all(mids)).dom().contains(x) ==> map_of(
            entries_all(cs.subrange(lo, hi)),
        ).dom().contains(x) || x == k,
        forall|i: int| 0 <= i < mid_ks.len() ==> all_below(entries_at(mids, i), #[trigger] mid_ks[i]),
        forall|i: int|
            0 <= i < mid_ks.len() ==> all_at_least(entries_at(mids, i + 1), #[trigger] mid_ks[i]),
        forall|i: int, j: int| 0 <= i < j < mid_ks.len() ==> mid_ks[i] < mid_ks[j],
        forall|i: int| 0 <= i < mids.len() ==> #[trigger] entries_at(mids, i).len() > 0,
    ensures
        forall|i: int|
            0 <= i < mids.len() ==> (lo > 0 ==> all_at_least(
                #[trigger] entries_at(mids, i),
                ks[lo - 1],
            )),
        forall|i: int|
            0 <= i < mids.len() ==> (hi - 1 < ks.len() ==> all_below(
                #[trigger] entries_at(mids, i),
                ks[hi - 1],
            )),
{
    let m = mids.len() as int;
    let d = hi - lo - m;
    let a = cs.take(lo);
    let r = cs.subrange(lo, hi);
    let c = cs.skip(hi);
    // the replaced span's bounds, then the replacements' bounds
    if lo > 0 {
        lemma_at_least_suffix(ks, cs, lo);
        lemma_entries_all_concat(r, c);
        assert(cs.skip(lo) =~= r + c);
        assert(entries_all(cs.skip(lo)) == entries_all(r) + entries_all(c));
        assert forall|e: int| 0 <= e < entries_all(r).len() implies (
        #[trigger] entries_all(r)[e]).0 >= ks[lo - 1] by {
            assert((entries_all(r) + entries_all(c))[e] == entries_all(r)[e]);
        };
        assert(all_at_least(entries_all(r), ks[lo - 1]));
        lemma_all_at_least_from(entries_all(mids), entries_all(r), k, ks[lo - 1]);
    }
    if hi - 1 < ks.len() {
        lemma_sorted_prefix(ks, cs, hi);
        assert(all_below(entries_all(cs.take(hi)), ks[hi - 1]));
        assert(cs.take(hi) =~= a + r);
        lemma_entries_all_concat(a, r);
        assert forall|e: int| 0 <= e < entries_all(r).len() implies (
        #[trigger] entries_all(r)[e]).0 < ks[hi - 1] by {
            assert((entries_all(a) + entries_all(r))[entries_all(a).len() + e] == entries_all(
                r,
            )[e]);
        };
        assert(all_below(entries_all(r), ks[hi - 1]));
        lemma_all_below_from(entries_all(mids), entries_all(r), k, ks[hi - 1]);
    }
    // per-child bounds of the replacements
    assert forall|i: int| 0 <= i < m implies (lo > 0 ==> all_at_least(
        entries_at(mids, i),
        ks[lo - 1],
    )) && (hi - 1 < ks.len() ==> all_below(entries_at(mids, i), ks[hi - 1])) by {
        lemma_child_within(mids, i);
    };
}

/// The spliced key run is strictly increasing.
#[verifier::rlimit(100)]
proof fn lemma_splice_keys_sorted(
    ks: Seq<u64>,
    cs: Seq<Rc<Node>>,
    ks2: Seq<u64>,
    cs2: Seq<Rc<Node>>,
    lo: int,
    hi: int,
    mid_ks: Seq<u64>,
    mids: Seq<Rc<Node>>,
    k: u64,
)
    requires
        branch_parts(ks, cs),
        forall|i: int| 0 <= i < cs.len() ==> sorted(entries(*#[trigger] cs[i])),
        0 <= lo < hi <= cs.len(),
        mids.len() >= 1,
        mid_ks.len() == mids.len() - 1,
        cs2 == cs.take(lo) + mids + cs.skip(hi),
        ks2 == ks.take(lo) + mid_ks + ks.skip(hi - 1),
        lo > 0 ==> ks[lo - 1] <= k,
        hi - 1 < ks.len() ==> k < ks[hi - 1],
        forall|x: u64| #[trigger] map_of(entries_all(mids)).dom().contains(x) ==> map_of(
            entries_all(cs.subrange(lo, hi)),
        ).dom().contains(x) || x == k,
        forall|i: int| 0 <= i < mid_ks.len() ==> all_below(entries_at(mids, i), #[trigger] mid_ks[i]),
        forall|i: int|
            0 <= i < mid_ks.len() ==> all_at_least(entries_at(mids, i + 1), #[trigger] mid_ks[i]),
        forall|i: int, j: int| 0 <= i < j < mid_ks.len() ==> mid_ks[i] < mid_ks[j],
        forall|i: int| 0 <= i < mids.len() ==> #[trigger] entries_at(mids, i).len() > 0,
    ensures
        forall|i: int, j: int| 0 <= i < j < ks2.len() ==> ks2[i] < ks2[j],
{
    let m = mids.len() as int;
    let d = hi - lo - m;
    lemma_splice_mids_bounds(ks, cs, ks2, cs2, lo, hi, mid_ks, mids, k);
    // witnesses that fence the new interior keys strictly between the old ones
    assert(m > 1 && lo > 0 ==> ks[lo - 1] < mid_ks[0]) by {
        if m > 1 && lo > 0 {
            let e = entries_at(mids, 0)[0];
            assert(all_at_least(entries_at(mids, 0), ks[lo - 1]));
            assert(all_below(entries_at(mids, 0), mid_ks[0]));
            assert(ks[lo - 1] <= e.0 < mid_ks[0]);
        }
    };
    assert(m > 1 && hi - 1 < ks.len() ==> mid_ks[m - 2] < ks[hi - 1]) by {
        if m > 1 && hi - 1 < ks.len() {
            let e = entries_at(mids, m - 1)[0];
            assert(all_at_least(entries_at(mids, m - 1), mid_ks[m - 2]));
            assert(all_below(entries_at(mids, m - 1), ks[hi - 1]));
            assert(mid_ks[m - 2] <= e.0 < ks[hi - 1]);
        }
    };
    // the spliced key run is strictly increasing
    assert forall|i: int, j: int| 0 <= i < j < ks2.len() implies ks2[i] < ks2[j] by {
        if i < lo && j < lo {
        } else if i < lo && j < lo + m - 1 {
            assert(ks[i] <= ks[lo - 1]);
            assert(ks[lo - 1] < mid_ks[0]);
            assert(mid_ks[0] <= mid_ks[j - lo]);
        } else if i < lo {
            assert(ks[i] <= ks[lo - 1]);
            assert(ks[hi - 1] <= ks[j + d]);
            if m > 1 {
                assert(ks[lo - 1] < mid_ks[0]);
                assert(mid_ks[m - 2] < ks[hi - 1]);
            } else {
                assert(lo - 1 < j + d < ks.len());
            }
        } else if i < lo + m - 1 && j < lo + m - 1 {
        } else if i < lo + m - 1 {
            assert(mid_ks[i - lo] <= mid_ks[m - 2]);
            assert(mid_ks[m - 2] < ks[hi - 1]);
            assert(ks[hi - 1] <= ks[j + d]);
        } else {
            assert(ks[i + d] < ks[j + d]);
        }
    };
}

/// The fence half of the splice argument: the spliced key and child runs
/// satisfy the fence conditions.
#[verifier::rlimit(100)]
proof fn lemma_splice_fences(
    ks: Seq<u64>,
    cs: Seq<Rc<Node>>,
    ks2: Seq<u64>,
    cs2: Seq<Rc<Node>>,
    lo: int,
    hi: int,
    mid_ks: Seq<u64>,
    mids: Seq<Rc<Node>>,
    k: u64,
)
    requires
        branch_parts(ks, cs),
        forall|i: int| 0 <= i < cs.len() ==> sorted(entries(*#[trigger] cs[i])),
        0 <= lo < hi <= cs.len(),
        mids.len() >= 1,
        mid_ks.len() == mids.len() - 1,
        cs2 == cs.take(lo) + mids + cs.skip(hi),
        ks2 == ks.take(lo) + mid_ks + ks.skip(hi - 1),
        lo > 0 ==> ks[lo - 1] <= k,
        hi - 1 < ks.len() ==> k < ks[hi - 1],
        forall|x: u64| #[trigger] map_of(entries_all(mids)).dom().contains(x) ==> map_of(
            entries_all(cs.subrange(lo, hi)),
        ).dom().contains(x) || x == k,
        forall|i: int| 0 <= i < mid_ks.len() ==> all_below(entries_at(mids, i), #[trigger] mid_ks[i]),
        forall|i: int|
            0 <= i < mid_ks.len() ==> all_at_least(entries_at(mids, i + 1), #[trigger] mid_ks[i]),
        forall|i: int, j: int| 0 <= i < j < mid_ks.len() ==> mid_ks[i] < mid_ks[j],
        forall|i: int| 0 <= i < mids.len() ==> #[trigger] entries_at(mids, i).len() > 0,
    ensures
        branch_parts(ks2, cs2),
{
    let m = mids.len() as int;
    let d = hi - lo - m;
    lemma_splice_mids_bounds(ks, cs, ks2, cs2, lo, hi, mid_ks, mids, k);
    // index mappings of the spliced runs
    assert forall|x: int| 0 <= x < ks2.len() implies ks2[x] == (if x < lo {
        ks[x]
    } else if x < lo + m - 1 {
        mid_ks[x - lo]
    } else {
        ks[x + d]
    }) by {};
    assert forall|x: int| 0 <= x < cs2.len() implies cs2[x] == (if x < lo {
        cs[x]
    } else if x < lo + m {
        mids[x - lo]
    } else {
        cs[x + d]
    }) by {};
    lemma_splice_keys_sorted(ks, cs, ks2, cs2, lo, hi, mid_ks, mids, k);
    // the fence conditions pair by pair
    assert forall|i: int| 0 <= i < ks2.len() implies all_below(
        entries(*#[trigger] cs2[i]),
        ks2[i],
    ) && all_at_least(entries(*cs2[i + 1]), ks2[i]) by {
        if i < lo - 1 {
            assert(all_below(entries(*cs[i]), ks[i]));
            assert(all_at_least(entries(*cs[i + 1]), ks[i]));
        } else if i == lo - 1 {
            assert(all_below(entries(*cs[i]), ks[i]));
            assert(all_at_least(entries_at(mids, 0), ks[lo - 1]));
        } else if i < lo + m - 1 {
            assert(all_below(entries_at(mids, i - lo), mid_ks[i - lo]));
            assert(all_at_least(entries_at(mids, i - lo + 1), mid_ks[i - lo]));
        } else if i == lo + m - 1 {
            assert(ks2[i] == ks[hi - 1]);
            assert(all_below(entries_at(mids, m - 1), ks[hi - 1]));
            assert(cs2[i + 1] == cs[hi]);
            assert(all_at_least(entries(*cs[hi]), ks[hi - 1]));
        } else {
            assert(all_below(entries(*cs[i + d]), ks[i + d]));
            assert(all_at_least(entries(*cs[i + d + 1]), ks[i + d]));
        }
    };
    assert(cs2.len() == ks2.len() + 1);
    assert forall|i: int| #![trigger ks2[i]] 0 <= i < ks2.len() implies all_below(
        entries(*cs2[i]),
        ks2[i],
    ) && all_at_least(entries(*cs2[i + 1]), ks2[i]) by {
        assert(all_below(entries(*cs2[i]), ks2[i]) && all_at_least(entries(*cs2[i + 1]), ks2[i]));
    };
    assert(branch_parts(ks2, cs2));
}


/// Rebuilding a branch after the child range `[lo, hi)` was replaced: the
/// fence conditions, well-formedness, heights and minima of the spliced run,
/// and the two runs' maps, side by side.
pub proof fn lemma_branch_rebuild(
    ks: Seq<u64>,
    cs: Seq<Rc<Node>>,
    ks2: Seq<u64>,
    cs2: Seq<Rc<Node>>,
    lo: int,
    hi: int,
    mid_ks: Seq<u64>,
    mids: Seq<Rc<Node>>,
    k: u64,
    h: nat,
)
    requires
        branch_parts(ks, cs),
        wf_all(cs),
        forall|i: int| 0 <= i < cs.len() ==> height(*#[trigger] cs[i]) + 1 == h,
        forall|i: int| 0 <= i < cs.len() ==> full_enough(*#[trigger] cs[i]),
        0 <= lo < hi <= cs.len(),
        mids.len() >= 1,
        mid_ks.len() == mids.len() - 1,
        cs2 == cs.take(lo) + mids + cs.skip(hi),
        ks2 == ks.take(lo) + mid_ks + ks.skip(hi - 1),
        lo > 0 ==> ks[lo - 1] <= k,
        hi - 1 < ks.len() ==> k < ks[hi - 1],
        forall|x: u64| #[trigger] map_of(entries_all(mids)).dom().contains(x) ==> map_of(
            entries_all(cs.subrange(lo, hi)),
        ).dom().contains(x) || x == k,
        forall|i: int| 0 <= i < mid_ks.len() ==> all_below(entries_at(mids, i), #[trigger] mid_ks[i]),
        forall|i: int|
            0 <= i < mid_ks.len() ==> all_at_least(entries_at(mids, i + 1), #[trigger] mid_ks[i]),
        forall|i: int, j: int| 0 <= i < j < mid_ks.len() ==> mid_ks[i] < mid_ks[j],
        forall|i: int| 0 <= i < mids.len() ==> #[trigger] entries_at(mids, i).len() > 0,
        forall|i: int| 0 <= i < mids.len() ==> wf(*#[trigger] mids[i]),
        forall|i: int| 0 <= i < mids.len() ==> height(*#[trigger] mids[i]) + 1 == h,
        forall|i: int| 0 <= i < mids.len() ==> full_enough(*#[trigger] mids[i]),
    ensures
        branch_parts(ks2, cs2),
        wf_all(cs2),
        forall|i: int| 0 <= i < cs2.len() ==> height(*#[trigger] cs2[i]) + 1 == h,
        forall|i: int| 0 <= i < cs2.len() ==> full_enough(*#[trigger] cs2[i]),
        forall|i: int| 0 <= i < cs2.len() ==> sorted(entries(*#[trigger] cs2[i])),
        entries_all(cs2) == entries_all(cs.take(lo)) + entries_all(mids) + entries_all(
            cs.skip(hi),
        ),
        map_of(entries_all(cs2)) == map_of(entries_all(cs.take(lo))).union_prefer_right(
            map_of(entries_all(mids)),
        ).union_prefer_right(map_of(entries_all(cs.skip(hi)))),
        map_of(entries_all(cs)) == map_of(entries_all(cs.take(lo))).union_prefer_right(
            map_of(entries_all(cs.subrange(lo, hi))),
        ).union_prefer_right(map_of(entries_all(cs.skip(hi)))),
        !map_of(entries_all(cs.take(lo))).dom().contains(k),
        !map_of(entries_all(cs.skip(hi))).dom().contains(k),
{
    let m = mids.len() as int;
    let d = hi - lo - m;
    lemma_wf_all_index(cs);
    lemma_children_sorted(cs);
    lemma_parts_splice(ks, cs, ks2, cs2, lo, hi, mid_ks, mids, k);
    assert forall|i: int| 0 <= i < cs2.len() implies wf(*#[trigger] cs2[i]) && height(
        *cs2[i],
    ) + 1 == h && full_enough(*cs2[i]) by {
        if i < lo {
            assert(cs2[i] == cs[i]);
        } else if i < lo + m {
            assert(cs2[i] == mids[i - lo]);
        } else {
            assert(cs2[i] == cs[i + d]);
        }
    };
    lemma_wf_all_index(cs2);
    lemma_children_sorted(cs2);
}

/// Cutting a fenced run of children in two at child position `at`: both
/// halves keep their fence conditions, with `ks[at - 1]` promoted as the
/// bound between them.
pub proof fn lemma_parts_cut(ks: Seq<u64>, cs: Seq<Rc<Node>>, at: int)
    requires
        branch_parts(ks, cs),
        1 <= at < cs.len(),
    ensures
        branch_parts(ks.take(at - 1), cs.take(at)),
        branch_parts(ks.skip(at), cs.skip(at)),
{
    assert forall|i: int| 0 <= i < ks.take(at - 1).len() implies all_below(
        entries(*#[trigger] cs.take(at)[i]),
        ks.take(at - 1)[i],
    ) && all_at_least(entries(*cs.take(at)[i + 1]), ks.take(at - 1)[i]) by {
        assert(cs.take(at)[i] == cs[i]);
        assert(cs.take(at)[i + 1] == cs[i + 1]);
        assert(all_below(entries(*cs[i]), ks[i]));
        assert(all_at_least(entries(*cs[i + 1]), ks[i]));
    };
    assert forall|i: int| 0 <= i < ks.skip(at).len() implies all_below(
        entries(*#[trigger] cs.skip(at)[i]),
        ks.skip(at)[i],
    ) && all_at_least(entries(*cs.skip(at)[i + 1]), ks.skip(at)[i]) by {
        assert(cs.skip(at)[i] == cs[at + i]);
        assert(cs.skip(at)[i + 1] == cs[at + i + 1]);
        assert(all_below(entries(*cs[at + i]), ks[at + i]));
        assert(all_at_least(entries(*cs[at + i + 1]), ks[at + i]));
    };
}

/// Relies on std's `Rc::clone`: the returned handle refers to the very
/// same node, so its value equals the argument's.
#[verifier::external_body]
pub fn share(rc: &Rc<Node>) -> (r: Rc<Node>)
    ensures
        r == *rc,
{
    rc.clone()
}

/// Relies on std's `Rc::unwrap_or_clone`: the inner node is moved out when
/// this handle is the only one, and cloned otherwise — copy-on-write. The
/// derived clone copies each run of entries, keys and child handles, so the
/// result equals the shared node.
#[verifier::external_body]
pub fn take_node(rc: Rc<Node>) -> (n: Node)
    ensures
        n == *rc,
{
    Rc::unwrap_or_clone(rc)
}

/// Index of the child that covers `k`: the first whose fence lies above
/// `k`, or the last child.
fn find_child(keys: &Vec<u64>, k: u64) -> (j: usize)
    ensures
        0 <= j <= keys@.len(),
        forall|i: int| 0 <= i < j ==> #[trigger] keys@[i] <= k,
        j < keys@.len() ==> k < keys@[j as int],
{
    let mut j: usize = 0;
    while j < keys.len()
        invariant
            0 <= j <= keys@.len(),
            forall|i: int| 0 <= i < j ==> #[trigger] keys@[i] <= k,
        decreases keys@.len() - j,
    {
        if k < keys[j] {
            return j;
        }
        j += 1;
    }
    j
}

/// Linear scan of a sorted leaf run for the value under `k`.
fn leaf_lookup(items: &Vec<(u64, u64)>, k: u64) -> (r: Option<u64>)
    requires
        sorted(items@),
    ensures
        r == lookup(map_of(items@), k),
{
    let mut i: usize = 0;
    while i < items.len()
        invariant
            0 <= i <= items@.len(),
            sorted(items@),
            forall|x: int| 0 <= x < i ==> (#[trigger] items@[x]).0 != k,
        decreases items@.len() - i,
    {
        if items[i].0 == k {
            proof {
                lemma_map_of_index(items@, i as int);
            }
            return Some(items[i].1);
        }
        i += 1;
    }
    proof {
        lemma_map_of_has_key(items@);
        assert(!has_key(items@, k));
    }
    None
}

/// Pure lookup: descend along the fences to the one leaf that can hold `k`.
pub fn node_get(n: &Node, k: u64) -> (r: Option<u64>)
    requires
        wf(*n),
    ensures
        r == lookup(map_of(entries(*n)), k),
    decreases height(*n),
{
    match n {
        Node::Leaf { items } => leaf_lookup(items, k),
        Node::Branch { keys, children } => {
            let j = find_child(keys, k);
            proof {
                lemma_wf_all_index(children@);
                assert(wf(*children@[j as int]));
                assert(height(*children@[j as int]) < height(*n));
            }
            let r = node_get(&children[j], k);
            proof {
                lemma_children_sorted(children@);
                lemma_focus(keys@, children@, j as int, k);
                let pre = map_of(entries_all(children@.take(j as int)));
                let mid = map_of(entries_at(children@, j as int));
                let suf = map_of(entries_all(children@.skip(j as int + 1)));
                assert(map_of(entries(*n)) == pre.union_prefer_right(mid).union_prefer_right(suf));
                assert(lookup(pre.union_prefer_right(mid).union_prefer_right(suf), k) == lookup(
                    mid,
                    k,
                ));
            }
            r
        },
    }
}


/// What a node-level insert produced: nothing (an equal entry was already
/// there), a node of the same height, or two nodes and the boundary key
/// between them, for the caller to absorb.
pub enum InsertOutcome {
    NoChange(Node),
    Update(Node),
    Split(Node, u64, Node),
}

/// Position of the first entry of a sorted run whose key is `k` or above.
fn find_pos(items: &Vec<(u64, u64)>, k: u64) -> (i: usize)
    ensures
        0 <= i <= items@.len(),
        forall|x: int| 0 <= x < i ==> (#[trigger] items@[x]).0 < k,
        i < items@.len() ==> items@[i as int].0 >= k,
{
    let mut i: usize = 0;
    while i < items.len()
        invariant
            0 <= i <= items@.len(),
            forall|x: int| 0 <= x < i ==> (#[trigger] items@[x]).0 < k,
        decreases items@.len() - i,
    {
        if items[i].0 >= k {
            return i;
        }
        i += 1;
    }
    i
}

/// Insert `(k, v)`, descending to the one leaf that may hold `k`; splits
/// propagate back up through the outcome.
#[verifier::rlimit(100)]
pub fn node_insert(n: Node, k: u64, v: u64) -> (r: InsertOutcome)
    requires
        wf(n),
    ensures
        match r {
            InsertOutcome::NoChange(m) => {
                &&& wf(m) && height(m) == height(n) && size(m) == size(n)
                &&& entries(m) == entries(n)
                &&& map_of(entries(n)).contains_pair(k, v)
            },
            InsertOutcome::Update(m) => {
                &&& wf(m) && height(m) == height(n) && size(m) >= size(n)
                &&& map_of(entries(m)) == map_of(entries(n)).insert(k, v)
            },
            InsertOutcome::Split(l, mid, rgt) => {
                &&& wf(l) && wf(rgt)
                &&& height(l) == height(n) && height(rgt) == height(n)
                &&& full_enough(l) && full_enough(rgt)
                &&& all_below(entries(l), mid) && all_at_least(entries(rgt), mid)
                &&& entries(l).len() > 0 && entries(rgt).len() > 0
                &&& map_of(entries(l) + entries(rgt)) == map_of(entries(n)).insert(k, v)
            },
        },
    decreases height(n),
{
    let ghost n0 = n;
    match n {
        Node::Leaf { mut items } => {
            let ghost s0 = items@;
            let i = find_pos(&items, k);
            if i < items.len() && items[i].0 == k {
                if items[i].1 == v {
                    proof {
                        crate::seqmap::lemma_map_of_index(s0, i as int);
                    }
                    InsertOutcome::NoChange(Node::Leaf { items })
                } else {
                    let _replaced = items.remove(i);
                    items.insert(i, (k, v));
                    proof {
                        crate::seqmap::lemma_leaf_remove(s0, i as int);
                        let s1 = s0.remove(i as int);
                        assert forall|x: int| 0 <= x < i implies (#[trigger] s1[x]).0 < k by {
                            assert(s1[x] == s0[x]);
                        };
                        if i < s1.len() {
                            assert(s1[i as int] == s0[i as int + 1]);
                            assert(s0[i as int].0 < s0[i as int + 1].0);
                        }
                        crate::seqmap::lemma_leaf_insert(s1, i as int, k, v);
                        crate::seqmap::lemma_remove_insert(map_of(s0), k, v);
                    }
                    InsertOutcome::Update(Node::Leaf { items })
                }
            } else {
                items.insert(i, (k, v));
                proof {
                    crate::seqmap::lemma_leaf_insert(s0, i as int, k, v);
                }
                let ghost s1 = s0.insert(i as int, (k, v));
                if items.len() <= 2 * B {
                    InsertOutcome::Update(Node::Leaf { items })
                } else {
                    let right = items.split_off(B + 1);
                    let mid = right[0].0;
                    proof {
                        assert(items@ =~= s1.take(B as int + 1));
                        assert(right@ =~= s1.skip(B as int + 1));
                        assert(s1 =~= items@ + right@);
                        assert forall|x: int| 0 <= x < items@.len() implies (
                        #[trigger] items@[x]).0 < mid by {
                            assert(items@[x] == s1[x]);
                            assert(right@[0] == s1[B as int + 1]);
                            assert(s1[x].0 < s1[B as int + 1].0);
                        };
                        assert forall|x: int| 0 <= x < right@.len() implies (
                        #[trigger] right@[x]).0 >= mid by {
                            assert(right@[x] == s1[B as int + 1 + x]);
                            if x > 0 {
                                assert(s1[B as int + 1].0 < s1[B as int + 1 + x].0);
                            }
                        };
                        assert(sorted(items@));
                        assert(sorted(right@));
                    }
                    InsertOutcome::Split(Node::Leaf { items }, mid, Node::Leaf { items: right })
                }
            }
        },
        Node::Branch { keys, mut children } => {
            let ghost ks0 = keys@;
            let ghost cs0 = children@;
            let ghost h = height(n0);
            let j = find_child(&keys, k);
            proof {
                lemma_wf_all_index(cs0);
                lemma_children_sorted(cs0);
            }
            let crc = children.remove(j);
            let child = take_node(crc);
            proof {
                assert(child == node_of(cs0[j as int]));
                assert(wf(child));
                assert(height(child) + 1 == h);
                assert(cs0.subrange(j as int, j as int + 1) =~= seq![cs0[j as int]]);
                lemma_entries_all_one(cs0[j as int]);
            }
            let ghost region = map_of(entries(child));
            match node_insert(child, k, v) {
                InsertOutcome::NoChange(c) => {
                    let rc = Rc::new(c);
                    children.insert(j, rc);
                    proof {
                        assert(node_of(rc) == c);
                        lemma_entries_all_one(rc);
                        assert(children@ =~= cs0.take(j as int) + seq![rc] + cs0.skip(
                            j as int + 1,
                        ));
                        assert(ks0 =~= ks0.take(j as int) + Seq::<u64>::empty() + ks0.skip(
                            j as int,
                        ));
                        crate::seqmap::lemma_map_of_has_key(entries(c));
                        assert(entries(c).len() > 0);
                        lemma_branch_rebuild(
                            ks0,
                            cs0,
                            ks0,
                            children@,
                            j as int,
                            j as int + 1,
                            Seq::<u64>::empty(),
                            seq![rc],
                            k,
                            h,
                        );
                        lemma_entries_all_parts(cs0, j as int);
                        assert(entries_all(children@) == entries_all(cs0));
                    }
                    InsertOutcome::NoChange(Node::Branch { keys, children })
                },
                InsertOutcome::Update(c) => {
                    let rc = Rc::new(c);
                    children.insert(j, rc);
                    proof {
                        assert(node_of(rc) == c);
                        lemma_entries_all_one(rc);
                        assert(children@ =~= cs0.take(j as int) + seq![rc] + cs0.skip(
                            j as int + 1,
                        ));
                        assert(ks0 =~= ks0.take(j as int) + Seq::<u64>::empty() + ks0.skip(
                            j as int,
                        ));
                        crate::seqmap::lemma_map_of_has_key(entries(c));
                        assert(map_of(entries(c)).dom().contains(k));
                        assert(entries(c).len() > 0);
                        lemma_branch_rebuild(
                            ks0,
                            cs0,
                            ks0,
                            children@,
                            j as int,
                            j as int + 1,
                            Seq::<u64>::empty(),
                            seq![rc],
                            k,
                            h,
                        );
                        let p = map_of(entries_all(cs0.take(j as int)));
                        let sfx = map_of(entries_all(cs0.skip(j as int + 1)));
                        crate::seqmap::lemma_union_insert_right(p, region, k, v);
                        crate::seqmap::lemma_union_insert_left(
                            p.union_prefer_right(region),
                            sfx,
                            k,
                            v,
                        );
                    }
                    InsertOutcome::Update(Node::Branch { keys, children })
                },
                InsertOutcome::Split(l, midk, rgt) => {
                    let mut keys = keys;
                    let lrc = Rc::new(l);
                    let rrc = Rc::new(rgt);
                    children.insert(j, rrc);
                    children.insert(j, lrc);
                    keys.insert(j, midk);
                    proof {
                        assert(node_of(lrc) == l);
                        assert(node_of(rrc) == rgt);
                        lemma_entries_all_one(lrc);
                        assert(children@ =~= cs0.take(j as int) + seq![lrc, rrc] + cs0.skip(
                            j as int + 1,
                        ));
                        assert(keys@ =~= ks0.take(j as int) + seq![midk] + ks0.skip(j as int));
                        assert(seq![lrc, rrc].drop_last() =~= seq![lrc]);
                        assert(entries_all(seq![lrc, rrc]) == entries(l) + entries(rgt));
                        crate::seqmap::lemma_map_of_has_key(entries(l) + entries(rgt));
                        assert(entries_at(seq![lrc, rrc], 0) == entries(l));
                        assert(entries_at(seq![lrc, rrc], 1) == entries(rgt));
                        lemma_branch_rebuild(
                            ks0,
                            cs0,
                            keys@,
                            children@,
                            j as int,
                            j as int + 1,
                            seq![midk],
                            seq![lrc, rrc],
                            k,
                            h,
                        );
                        let p = map_of(entries_all(cs0.take(j as int)));
                        let sfx = map_of(entries_all(cs0.skip(j as int + 1)));
                        crate::seqmap::lemma_union_insert_right(p, region, k, v);
                        crate::seqmap::lemma_union_insert_left(
                            p.union_prefer_right(region),
                            sfx,
                            k,
                            v,
                        );
                    }
                    if children.len() <= 2 * B + 1 {
                        InsertOutcome::Update(Node::Branch { keys, children })
                    } else {
                        let ghost ks2 = keys@;
                        let ghost cs2 = children@;
                        let right_children = children.split_off(B + 1);
                        let mut right_keys = keys.split_off(B + 1);
                        let promoted = keys.pop().unwrap();
                        proof {
                            assert(children@ =~= cs2.take(B as int + 1));
                            assert(right_children@ =~= cs2.skip(B as int + 1));
                            assert(keys@ =~= ks2.take(B as int));
                            assert(right_keys@ =~= ks2.skip(B as int + 1));
                            assert(promoted == ks2[B as int]);
                            lemma_parts_cut(ks2, cs2, B as int + 1);
                            lemma_children_sorted(cs2);
                            lemma_sorted_prefix(ks2, cs2, B as int + 1);
                            lemma_at_least_suffix(ks2, cs2, B as int + 1);
                            lemma_entries_all_split(cs2, B as int + 1);
                            lemma_wf_all_index(cs2);
                            lemma_wf_all_index(cs2.take(B as int + 1));
                            lemma_wf_all_index(cs2.skip(B as int + 1));
                            assert forall|x: int| 0 <= x < cs2.take(B as int + 1).len() implies wf(
                                *#[trigger] cs2.take(B as int + 1)[x],
                            ) && height(*cs2.take(B as int + 1)[x]) + 1 == h && full_enough(
                                *cs2.take(B as int + 1)[x],
                            ) by {
                                assert(cs2.take(B as int + 1)[x] == cs2[x]);
                            };
                            assert forall|x: int| 0 <= x < cs2.skip(B as int + 1).len() implies wf(
                                *#[trigger] cs2.skip(B as int + 1)[x],
                            ) && height(*cs2.skip(B as int + 1)[x]) + 1 == h && full_enough(
                                *cs2.skip(B as int + 1)[x],
                            ) by {
                                assert(cs2.skip(B as int + 1)[x] == cs2[x + B as int + 1]);
                            };
                        }
                        let left = Node::Branch { keys, children };
                        let right = Node::Branch { keys: right_keys, children: right_children };
                        proof {
                            assert(wf(left));
                            assert(wf(right));
                            assert(height(left) == h);
                            assert(height(right) == h);
                            lemma_entries_nonempty(left);
                            lemma_entries_nonempty(right);
                        }
                        InsertOutcome::Split(left, promoted, right)
                    }
                },
            }
        },
    }
}


/// What a node-level remove produced: nothing (the key was absent), a node
/// that still meets its minimum (or lost nothing), or a node one below its
/// minimum, for the caller to refill by borrowing or merging.
pub enum RemoveOutcome {
    NoChange(Node),
    Update(Node, (u64, u64)),
    Underflow(Node, (u64, u64)),
}

/// The node holds more than its minimum occupancy, so it can spare one
/// entry or child.
fn above_min(n: &Node) -> (r: bool)
    ensures
        r == (size(*n) > min_size(*n)),
{
    match n {
        Node::Leaf { items } => items.len() > B,
        Node::Branch { keys: _, children } => children.len() > B + 1,
    }
}

/// Merge two adjacent siblings around the fence `sep` between them into one
/// node carrying both runs.
#[verifier::rlimit(100)]
fn merge_nodes(l: Node, sep: u64, r: Node) -> (m: Node)
    requires
        wf(l),
        wf(r),
        height(l) == height(r),
        all_below(entries(l), sep),
        all_at_least(entries(r), sep),
        height(l) == 0 ==> size(l) + size(r) <= 2 * B,
        height(l) > 0 ==> size(l) + size(r) <= 2 * B + 1,
    ensures
        wf(m),
        height(m) == height(l),
        size(m) == size(l) + size(r),
        entries(m) == entries(l) + entries(r),
{
    match (l, r) {
        (Node::Leaf { items: mut a }, Node::Leaf { items: mut b }) => {
            let ghost a0 = a@;
            let ghost b0 = b@;
            a.append(&mut b);
            proof {
                lemma_sorted_concat(a0, b0, sep);
            }
            Node::Leaf { items: a }
        },
        (
            Node::Branch { keys: mut ka, children: mut ca },
            Node::Branch { keys: mut kb, children: mut cb },
        ) => {
            let ghost l0 = Node::Branch { keys: ka, children: ca };
            let ghost r0 = Node::Branch { keys: kb, children: cb };
            let ghost ka0 = ka@;
            let ghost ca0 = ca@;
            let ghost kb0 = kb@;
            let ghost cb0 = cb@;
            let ghost h = height(l0);
            ka.push(sep);
            ka.append(&mut kb);
            ca.append(&mut cb);
            proof {
                assert(ka@ =~= ka0 + seq![sep] + kb0);
                assert(ca@ =~= ca0 + cb0);
                lemma_wf_all_index(ca0);
                lemma_wf_all_index(cb0);
                lemma_children_sorted(ca0);
                lemma_children_sorted(cb0);
                lemma_entries_all_concat(ca0, cb0);
                // each old child keeps its fences; the new fence `sep` is
                // witnessed strict on both sides by a nonempty neighbour
                assert forall|i: int| 0 <= i < ca0.len() implies all_below(
                    entries_at(ca0, i),
                    sep,
                ) && #[trigger] entries_at(ca0, i).len() > 0 by {
                    lemma_child_within(ca0, i);
                    lemma_entries_nonempty(node_of(ca0[i]));
                };
                assert forall|i: int| 0 <= i < cb0.len() implies all_at_least(
                    entries_at(cb0, i),
                    sep,
                ) && #[trigger] entries_at(cb0, i).len() > 0 by {
                    lemma_child_within(cb0, i);
                    lemma_entries_nonempty(node_of(cb0[i]));
                };
                assert forall|i: int| 0 <= i < ka0.len() implies ka0[i] < sep by {
                    assert(entries_at(ca0, i + 1).len() > 0);
                    let e = entries_at(ca0, i + 1)[0];
                    assert(all_at_least(entries_at(ca0, i + 1), ka0[i]));
                    assert(ka0[i] <= e.0);
                    assert(e.0 < sep);
                };
                assert forall|i: int| 0 <= i < kb0.len() implies sep < kb0[i] by {
                    assert(entries_at(cb0, i).len() > 0);
                    let e = entries_at(cb0, i)[0];
                    assert(all_below(entries_at(cb0, i), kb0[i]));
                    assert(sep <= e.0);
                    assert(e.0 < kb0[i]);
                };
                assert forall|i: int| 0 <= i < ka@.len() implies all_below(
                    entries(*#[trigger] ca@[i]),
                    ka@[i],
                ) && all_at_least(entries(*ca@[i + 1]), ka@[i]) by {
                    if i < ka0.len() {
                        assert(ca@[i] == ca0[i]);
                        assert(ka@[i] == ka0[i]);
                        if i + 1 < ca0.len() {
                            assert(ca@[i + 1] == ca0[i + 1]);
                        } else {
                            assert(ca@[i + 1] == cb0[0]);
                            assert(all_at_least(entries_at(cb0, 0), sep));
                            assert(sep > ka0[i]) by {
                                assert(entries_at(ca0, i + 1).len() > 0);
                                let e = entries_at(ca0, i + 1)[0];
                                assert(all_at_least(entries_at(ca0, i + 1), ka0[i]));
                                assert(e.0 < sep);
                            };
                        }
                    } else if i == ka0.len() {
                        assert(ka@[i] == sep);
                        assert(ca@[i] == ca0[i]);
                        assert(all_below(entries_at(ca0, i), sep));
                        assert(ca@[i + 1] == cb0[0]);
                        assert(all_at_least(entries_at(cb0, 0), sep));
                    } else {
                        assert(ka@[i] == kb0[i - ka0.len() - 1]);
                        assert(ca@[i] == cb0[i - ka0.len() - 1]);
                        assert(ca@[i + 1] == cb0[i - ka0.len()]);
                        assert(all_below(entries(*cb0[i - ka0.len() - 1]), kb0[i - ka0.len()
                            - 1]));
                        assert(all_at_least(entries(*cb0[i - ka0.len()]), kb0[i - ka0.len()
                            - 1]));
                    }
                };
                assert forall|i: int| 0 <= i < ca@.len() implies wf(*#[trigger] ca@[i])
                    && height(*ca@[i]) + 1 == h && full_enough(*ca@[i]) by {
                    if i < ca0.len() {
                        assert(ca@[i] == ca0[i]);
                    } else {
                        assert(ca@[i] == cb0[i - ca0.len()]);
                    }
                };
                lemma_wf_all_index(ca@);
                let m0 = Node::Branch { keys: ka, children: ca };
                assert(height(m0) == h);
                assert(branch_parts(ka@, ca@));
                assert(wf(m0));
            }
            Node::Branch { keys: ka, children: ca }
        },
        (a, _) => {
            proof {
                assert(false);
            }
            a
        },
    }
}


/// Move the last entry or child of `l` over to the front of `r`, with the
/// fence rotated accordingly: the donor spares one, the taker is refilled.
#[verifier::rlimit(100)]
fn borrow_from_left(l: Node, sep: u64, r: Node) -> (res: (Node, u64, Node))
    requires
        wf(l),
        wf(r),
        height(l) == height(r),
        all_below(entries(l), sep),
        all_at_least(entries(r), sep),
        size(l) > min_size(l),
        size(r) + 1 == min_size(r),
    ensures
        wf(res.0),
        wf(res.2),
        height(res.0) == height(l),
        height(res.2) == height(l),
        size(res.0) == size(l) - 1,
        size(res.2) == size(r) + 1,
        full_enough(res.0),
        full_enough(res.2),
        all_below(entries(res.0), res.1),
        all_at_least(entries(res.2), res.1),
        entries(res.0) + entries(res.2) == entries(l) + entries(r),
        entries(res.0).len() > 0,
        entries(res.2).len() > 0,
{
    match (l, r) {
        (Node::Leaf { items: mut a }, Node::Leaf { items: mut b }) => {
            let ghost a0 = a@;
            let ghost b0 = b@;
            let e = a.pop().unwrap();
            b.insert(0, e);
            proof {
                assert(a@ =~= a0.drop_last());
                assert(b@ =~= seq![e] + b0);
                assert(e == a0.last());
                assert forall|x: int| 0 <= x < a@.len() implies (#[trigger] a@[x]).0 < e.0 by {
                    assert(a0[x].0 < a0[a0.len() - 1].0);
                };
                assert(all_below(seq![e], sep));
                lemma_sorted_concat(seq![e], b0, sep);
                assert(a@ + b@ =~= a0 + b0);
            }
            (Node::Leaf { items: a }, e.0, Node::Leaf { items: b })
        },
        (
            Node::Branch { keys: mut ka, children: mut ca },
            Node::Branch { keys: mut kb, children: mut cb },
        ) => {
            let ghost l0 = Node::Branch { keys: ka, children: ca };
            let ghost r0 = Node::Branch { keys: kb, children: cb };
            let ghost ka0 = ka@;
            let ghost ca0 = ca@;
            let ghost kb0 = kb@;
            let ghost cb0 = cb@;
            let ghost h = height(l0);
            let moved = ca.pop().unwrap();
            let sep2 = ka.pop().unwrap();
            cb.insert(0, moved);
            kb.insert(0, sep);
            proof {
                assert(ca@ =~= ca0.drop_last());
                assert(ka@ =~= ka0.drop_last());
                assert(cb@ =~= seq![moved] + cb0);
                assert(kb@ =~= seq![sep] + kb0);
                assert(moved == ca0.last());
                assert(sep2 == ka0.last());
                lemma_wf_all_index(ca0);
                lemma_wf_all_index(cb0);
                lemma_children_sorted(ca0);
                lemma_children_sorted(cb0);
                // the donor keeps its fences on a prefix
                lemma_parts_cut(ka0, ca0, ca0.len() - 1);
                assert(ka0.take(ca0.len() - 2) =~= ka@);
                assert(ca0.take(ca0.len() - 1) =~= ca@);
                lemma_sorted_prefix(ka0, ca0, ca0.len() - 1);
                lemma_entries_all_split(ca0, ca0.len() - 1);
                assert(ca0.skip(ca0.len() - 1) =~= seq![moved]);
                lemma_entries_all_one(moved);
                assert(entries_all(ca0) == entries_all(ca@) + entries(*moved));
                // bounds of the moved child and of the runs
                assert(all_at_least(entries(*moved), sep2)) by {
                    assert(all_at_least(entries(*ca0[ka0.len() as int]), ka0[ka0.len() - 1]));
                };
                assert(all_below(entries(*moved), sep)) by {
                    lemma_child_within(ca0, ca0.len() - 1);
                    assert(entries(l0) == entries_all(ca0));
                    assert(all_below(entries_all(ca0), sep));
                    assert(all_below(entries_at(ca0, ca0.len() - 1), sep));
                };
                assert forall|i: int| 0 <= i < cb0.len() implies all_at_least(
                    entries_at(cb0, i),
                    sep,
                ) && #[trigger] entries_at(cb0, i).len() > 0 by {
                    lemma_child_within(cb0, i);
                    lemma_entries_nonempty(node_of(cb0[i]));
                    assert(entries(r0) == entries_all(cb0));
                    assert(all_at_least(entries_all(cb0), sep));
                };
                assert forall|i: int| 0 <= i < kb0.len() implies sep < kb0[i] by {
                    assert(entries_at(cb0, i).len() > 0);
                    let e = entries_at(cb0, i)[0];
                    assert(all_below(entries_at(cb0, i), kb0[i]));
                    assert(sep <= e.0);
                    assert(e.0 < kb0[i]);
                };
                // the taker's fences, pair by pair
                assert forall|i: int| 0 <= i < kb@.len() implies all_below(
                    entries(*#[trigger] cb@[i]),
                    kb@[i],
                ) && all_at_least(entries(*cb@[i + 1]), kb@[i]) by {
                    if i == 0 {
                        assert(cb@[0] == moved);
                        assert(kb@[0] == sep);
                        assert(cb@[1] == cb0[0]);
                        assert(all_at_least(entries_at(cb0, 0), sep));
                    } else {
                        assert(cb@[i] == cb0[i - 1]);
                        assert(cb@[i + 1] == cb0[i]);
                        assert(kb@[i] == kb0[i - 1]);
                        assert(all_below(entries(*cb0[i - 1]), kb0[i - 1]));
                        assert(all_at_least(entries(*cb0[i]), kb0[i - 1]));
                    }
                };
                assert forall|i: int| 0 <= i < cb@.len() implies wf(*#[trigger] cb@[i])
                    && height(*cb@[i]) + 1 == h && full_enough(*cb@[i]) by {
                    if i == 0 {
                        assert(cb@[0] == moved);
                        assert(moved == ca0[ca0.len() - 1]);
                    } else {
                        assert(cb@[i] == cb0[i - 1]);
                    }
                };
                assert forall|i: int| 0 <= i < ca@.len() implies wf(*#[trigger] ca@[i])
                    && height(*ca@[i]) + 1 == h && full_enough(*ca@[i]) by {
                    assert(ca@[i] == ca0[i]);
                };
                lemma_wf_all_index(ca@);
                lemma_wf_all_index(cb@);
                let lb = Node::Branch { keys: ka, children: ca };
                let rb = Node::Branch { keys: kb, children: cb };
                assert(branch_parts(ka@, ca@));
                assert(branch_parts(kb@, cb@));
                assert(wf(lb));
                assert(wf(rb));
                assert(height(lb) == h);
                assert(height(rb) == h);
                // the two runs of entries, re-fenced at the donor's last key
                lemma_entries_all_concat(seq![moved], cb0);
                assert(entries(rb) == entries(*moved) + entries_all(cb0));
                assert(all_below(entries(lb), sep2));
                assert forall|x: int| 0 <= x < entries(rb).len() implies (
                #[trigger] entries(rb)[x]).0 >= sep2 by {
                    let em = entries(*moved);
                    if x < em.len() {
                        assert(entries(rb)[x] == em[x]);
                    } else {
                        assert(entries(rb)[x] == entries_all(cb0)[x - em.len()]);
                        assert(entries_at(cb0, 0).len() > 0);
                        let e = entries_at(cb0, 0)[0];
                        assert(entries(*moved).len() > 0) by {
                            lemma_entries_nonempty(node_of(moved));
                        };
                        let w = entries(*moved)[0];
                        assert(sep2 <= w.0 < sep);
                        assert(entries(r0) == entries_all(cb0));
                        assert(all_at_least(entries_all(cb0), sep));
                    }
                };
                assert(entries(lb) + entries(rb) =~= entries(l0) + entries(r0));
                lemma_entries_nonempty(node_of(moved));
                assert(entries(rb).len() > 0);
                lemma_entries_nonempty(lb);
            }
            (
                Node::Branch { keys: ka, children: ca },
                sep2,
                Node::Branch { keys: kb, children: cb },
            )
        },
        (a, _) => {
            proof {
                assert(false);
            }
            (a, 0, Node::Leaf { items: Vec::new() })
        },
    }
}


/// Move the first entry or child of `r` over to the end of `l`, with the
/// fence rotated accordingly: the donor spares one, the taker is refilled.
#[verifier::rlimit(100)]
fn borrow_from_right(l: Node, sep: u64, r: Node) -> (res: (Node, u64, Node))
    requires
        wf(l),
        wf(r),
        height(l) == height(r),
        all_below(entries(l), sep),
        all_at_least(entries(r), sep),
        size(l) + 1 == min_size(l),
        size(r) > min_size(r),
    ensures
        wf(res.0),
        wf(res.2),
        height(res.0) == height(l),
        height(res.2) == height(l),
        size(res.0) == size(l) + 1,
        size(res.2) == size(r) - 1,
        full_enough(res.0),
        full_enough(res.2),
        all_below(entries(res.0), res.1),
        all_at_least(entries(res.2), res.1),
        entries(res.0) + entries(res.2) == entries(l) + entries(r),
        entries(res.0).len() > 0,
        entries(res.2).len() > 0,
{
    match (l, r) {
        (Node::Leaf { items: mut a }, Node::Leaf { items: mut b }) => {
            let ghost a0 = a@;
            let ghost b0 = b@;
            let e = b.remove(0);
            a.push(e);
            let sep2 = b[0].0;
            proof {
                assert(b@ =~= b0.skip(1));
                assert(a@ =~= a0 + seq![e]);
                assert(e == b0[0]);
                assert(sep2 == b0[1].0);
                lemma_sorted_concat(a0, seq![e], sep);
                assert forall|x: int| 0 <= x < a@.len() implies (#[trigger] a@[x]).0 < sep2 by {
                    if x < a0.len() {
                        assert(a0[x].0 < sep);
                        assert(sep <= b0[0].0);
                        assert(b0[0].0 < b0[1].0);
                    } else {
                        assert(a@[x] == b0[0]);
                        assert(b0[0].0 < b0[1].0);
                    }
                };
                assert forall|x: int| 0 <= x < b@.len() implies (#[trigger] b@[x]).0 >= sep2 by {
                    assert(b@[x] == b0[x + 1]);
                    if x > 0 {
                        assert(b0[1].0 < b0[x + 1].0);
                    }
                };
                assert(a@ + b@ =~= a0 + b0);
            }
            (Node::Leaf { items: a }, sep2, Node::Leaf { items: b })
        },
        (
            Node::Branch { keys: mut ka, children: mut ca },
            Node::Branch { keys: mut kb, children: mut cb },
        ) => {
            let ghost l0 = Node::Branch { keys: ka, children: ca };
            let ghost r0 = Node::Branch { keys: kb, children: cb };
            let ghost ka0 = ka@;
            let ghost ca0 = ca@;
            let ghost kb0 = kb@;
            let ghost cb0 = cb@;
            let ghost h = height(l0);
            let moved = cb.remove(0);
            let sep2 = kb.remove(0);
            ca.push(moved);
            ka.push(sep);
            proof {
                let ghost mv = ca@.last();
                assert(ca@ =~= ca0 + seq![mv]);
                assert(ka@ =~= ka0 + seq![sep]);
                assert(cb@ =~= cb0.skip(1));
                assert(kb@ =~= kb0.skip(1));
                assert(mv == cb0[0]);
                assert(sep2 == kb0[0]);
                lemma_wf_all_index(ca0);
                lemma_wf_all_index(cb0);
                lemma_children_sorted(ca0);
                lemma_children_sorted(cb0);
                // the donor keeps its fences on a suffix
                lemma_parts_cut(kb0, cb0, 1);
                assert(entries(r0) == entries_all(cb0));
                assert(entries(l0) == entries_all(ca0));
                lemma_at_least_suffix(kb0, cb0, 1);
                // bounds of the moved child
                assert(all_at_least(entries(*mv), sep)) by {
                    lemma_child_within(cb0, 0);
                    assert(all_at_least(entries_all(cb0), sep));
                };
                assert(all_below(entries(*mv), sep2)) by {
                    assert(all_below(entries(*cb0[0]), kb0[0]));
                };
                assert forall|i: int| 0 <= i < ca0.len() implies all_below(
                    entries_at(ca0, i),
                    sep,
                ) && #[trigger] entries_at(ca0, i).len() > 0 by {
                    lemma_child_within(ca0, i);
                    assert(all_below(entries_all(ca0), sep));
                    lemma_entries_nonempty(node_of(ca0[i]));
                };
                assert forall|i: int| 0 <= i < ka0.len() implies ka0[i] < sep by {
                    assert(entries_at(ca0, i + 1).len() > 0);
                    let e = entries_at(ca0, i + 1)[0];
                    assert(all_at_least(entries_at(ca0, i + 1), ka0[i]));
                    assert(ka0[i] <= e.0);
                    assert(e.0 < sep);
                };
                // the taker's fences, pair by pair
                assert forall|i: int| 0 <= i < ka@.len() implies all_below(
                    entries(*#[trigger] ca@[i]),
                    ka@[i],
                ) && all_at_least(entries(*ca@[i + 1]), ka@[i]) by {
                    if i < ka0.len() {
                        assert(ca@[i] == ca0[i]);
                        assert(ca@[i + 1] == ca0[i + 1]);
                        assert(ka@[i] == ka0[i]);
                        assert(all_below(entries(*ca0[i]), ka0[i]));
                        assert(all_at_least(entries(*ca0[i + 1]), ka0[i]));
                    } else {
                        assert(ka@[i] == sep);
                        assert(ca@[i] == ca0[i]);
                        assert(all_below(entries_at(ca0, i), sep));
                        assert(ca@[i + 1] == mv);
                        assert(all_at_least(entries(*mv), sep));
                    }
                };
                assert forall|i: int| 0 <= i < ca@.len() implies wf(*#[trigger] ca@[i])
                    && height(*ca@[i]) + 1 == h && full_enough(*ca@[i]) by {
                    if i < ca0.len() {
                        assert(ca@[i] == ca0[i]);
                    } else {
                        assert(ca@[i] == cb0[0]);
                    }
                };
                assert forall|i: int| 0 <= i < cb@.len() implies wf(*#[trigger] cb@[i])
                    && height(*cb@[i]) + 1 == h && full_enough(*cb@[i]) by {
                    assert(cb@[i] == cb0[i + 1]);
                };
                lemma_wf_all_index(ca@);
                lemma_wf_all_index(cb@);
                let lb = Node::Branch { keys: ka, children: ca };
                let rb = Node::Branch { keys: kb, children: cb };
                assert(branch_parts(ka@, ca@));
                assert(branch_parts(kb@, cb@));
                assert(wf(lb));
                assert(wf(rb));
                assert(height(lb) == h);
                assert(height(rb) == h);
                // the two runs of entries, re-fenced at the donor's old first key
                lemma_entries_all_concat(ca0, seq![mv]);
                lemma_entries_all_one(mv);
                assert(entries(lb) == entries_all(ca0) + entries(*mv));
                lemma_entries_all_parts(cb0, 0);
                assert(cb0.take(0) =~= Seq::<Rc<Node>>::empty());
                assert(entries_all(cb0) == Seq::<(u64, u64)>::empty() + entries(*mv)
                    + entries_all(cb0.skip(1)));
                assert(entries(lb) + entries(rb) =~= entries(l0) + entries(r0));
                // bounds at the new fence
                assert(all_at_least(entries(rb), sep2)) by {
                    assert(entries(rb) == entries_all(cb0.skip(1)));
                    assert(all_at_least(entries_all(cb0.skip(1)), kb0[0]));
                };
                assert(all_below(entries(lb), sep2)) by {
                    assert(entries(*mv).len() > 0) by {
                        lemma_entries_nonempty(node_of(mv));
                    };
                    let w = entries(*mv)[0];
                    assert(sep <= w.0 < sep2);
                    assert forall|x: int| 0 <= x < entries(lb).len() implies (
                    #[trigger] entries(lb)[x]).0 < sep2 by {
                        let ea = entries_all(ca0);
                        if x < ea.len() {
                            assert(entries(lb)[x] == ea[x]);
                            assert(all_below(ea, sep));
                        } else {
                            assert(entries(lb)[x] == entries(*mv)[x - ea.len()]);
                        }
                    };
                };
                lemma_entries_nonempty(node_of(mv));
                assert(entries(lb).len() > 0);
                lemma_entries_nonempty(rb);
            }
            (
                Node::Branch { keys: ka, children: ca },
                sep2,
                Node::Branch { keys: kb, children: cb },
            )
        },
        (a, _) => {
            proof {
                assert(false);
            }
            (a, 0, Node::Leaf { items: Vec::new() })
        },
    }
}


/// A key bounded away from a run's keys is not in the run's map.
pub proof fn lemma_not_in_below(s: Seq<(u64, u64)>, b: u64, k: u64)
    requires
        all_below(s, b),
        b <= k,
    ensures
        !map_of(s).dom().contains(k),
{
    lemma_map_of_has_key(s);
    if map_of(s).dom().contains(k) {
        let i = choose|i: int| 0 <= i < s.len() && (#[trigger] s[i]).0 == k;
        assert(s[i].0 < b);
    }
}

/// The counterpart of `lemma_not_in_below` for a lower bound.
pub proof fn lemma_not_in_at_least(s: Seq<(u64, u64)>, b: u64, k: u64)
    requires
        all_at_least(s, b),
        k < b,
    ensures
        !map_of(s).dom().contains(k),
{
    lemma_map_of_has_key(s);
    if map_of(s).dom().contains(k) {
        let i = choose|i: int| 0 <= i < s.len() && (#[trigger] s[i]).0 == k;
        assert(s[i].0 >= b);
    }
}

/// Removing a key from the right part of a pair of runs removes it from
/// the pair, provided the left part never held it.
pub proof fn lemma_pair_minus(
    a: Seq<(u64, u64)>,
    b: Seq<(u64, u64)>,
    b2: Seq<(u64, u64)>,
    k: u64,
)
    requires
        map_of(b2) == map_of(b).remove(k),
        !map_of(a).dom().contains(k),
    ensures
        map_of(a + b2) == map_of(a + b).remove(k),
{
    lemma_map_of_concat(a, b2);
    lemma_map_of_concat(a, b);
    crate::seqmap::lemma_union_remove(map_of(a), map_of(b), k);
    crate::seqmap::lemma_remove_absent(map_of(a), k);
}

/// The mirror of `lemma_pair_minus`: the key leaves the left part.
pub proof fn lemma_pair_minus_left(
    a2: Seq<(u64, u64)>,
    a: Seq<(u64, u64)>,
    b: Seq<(u64, u64)>,
    k: u64,
)
    requires
        map_of(a2) == map_of(a).remove(k),
        !map_of(b).dom().contains(k),
    ensures
        map_of(a2 + b) == map_of(a + b).remove(k),
{
    lemma_map_of_concat(a2, b);
    lemma_map_of_concat(a, b);
    crate::seqmap::lemma_union_remove(map_of(a), map_of(b), k);
    crate::seqmap::lemma_remove_absent(map_of(b), k);
}

/// The adjacent pair `(j - 1, j)` of a fenced run, as one run of entries:
/// removing `k` from the right member removes it from the pair, and an
/// entry the right member holds, the pair holds.
pub proof fn lemma_left_pair_region(
    cs: Seq<Rc<Node>>,
    ks: Seq<u64>,
    j: int,
    leftn: Node,
    childn: Node,
    cn: Node,
    k: u64,
    kv: (u64, u64),
)
    requires
        branch_parts(ks, cs),
        1 <= j < cs.len(),
        leftn == node_of(cs[j - 1]),
        childn == node_of(cs[j]),
        ks[j - 1] <= k,
        map_of(entries(cn)) == map_of(entries(childn)).remove(k),
        map_of(entries(childn)).contains_pair(k, kv.1),
    ensures
        entries_all(cs.subrange(j - 1, j + 1)) == entries(leftn) + entries(childn),
        map_of(entries(leftn) + entries(cn)) == map_of(
            entries_all(cs.subrange(j - 1, j + 1)),
        ).remove(k),
        map_of(entries_all(cs.subrange(j - 1, j + 1))).contains_pair(k, kv.1),
{
    assert(cs.subrange(j - 1, j + 1) =~= seq![cs[j - 1], cs[j]]);
    assert(seq![cs[j - 1], cs[j]].drop_last() =~= seq![cs[j - 1]]);
    lemma_entries_all_one(cs[j - 1]);
    assert(entries_all(seq![cs[j - 1], cs[j]]) == entries(leftn) + entries(childn));
    assert(all_below(entries(leftn), ks[j - 1]));
    lemma_not_in_below(entries(leftn), ks[j - 1], k);
    lemma_pair_minus(entries(leftn), entries(childn), entries(cn), k);
    lemma_map_of_concat(entries(leftn), entries(childn));
    assert(map_of(entries(childn)).dom().contains(k));
}

/// The mirror of `lemma_left_pair_region` for the pair `(0, 1)` when the
/// key leaves the left member.
pub proof fn lemma_right_pair_region(
    cs: Seq<Rc<Node>>,
    ks: Seq<u64>,
    childn: Node,
    rightn: Node,
    cn: Node,
    k: u64,
    kv: (u64, u64),
)
    requires
        branch_parts(ks, cs),
        2 <= cs.len(),
        childn == node_of(cs[0]),
        rightn == node_of(cs[1]),
        k < ks[0],
        map_of(entries(cn)) == map_of(entries(childn)).remove(k),
        map_of(entries(childn)).contains_pair(k, kv.1),
    ensures
        entries_all(cs.subrange(0, 2)) == entries(childn) + entries(rightn),
        map_of(entries(cn) + entries(rightn)) == map_of(entries_all(cs.subrange(0, 2))).remove(
            k,
        ),
        map_of(entries_all(cs.subrange(0, 2))).contains_pair(k, kv.1),
{
    assert(cs.subrange(0, 2) =~= seq![cs[0], cs[1]]);
    assert(seq![cs[0], cs[1]].drop_last() =~= seq![cs[0]]);
    lemma_entries_all_one(cs[0]);
    assert(entries_all(seq![cs[0], cs[1]]) == entries(childn) + entries(rightn));
    assert(all_at_least(entries(rightn), ks[0]));
    lemma_not_in_at_least(entries(rightn), ks[0], k);
    lemma_pair_minus_left(entries(cn), entries(childn), entries(rightn), k);
    lemma_map_of_concat(entries(childn), entries(rightn));
    assert(map_of(entries(childn)).dom().contains(k));
}

/// Rebuilding a branch whose child pair `(jj - 1, jj)` was rebalanced after
/// a removal: the branch keeps its shape and its map loses exactly `k`.
#[verifier::rlimit(100)]
pub proof fn lemma_remove_pair_rebuild(
    ks: Seq<u64>,
    cs: Seq<Rc<Node>>,
    ks2: Seq<u64>,
    cs2: Seq<Rc<Node>>,
    jj: int,
    mid_ks: Seq<u64>,
    mids: Seq<Rc<Node>>,
    mids_entries: Seq<(u64, u64)>,
    k: u64,
    kv: (u64, u64),
    h: nat,
    region: Map<u64, u64>,
)
    requires
        branch_parts(ks, cs),
        wf_all(cs),
        forall|i: int| 0 <= i < cs.len() ==> height(*#[trigger] cs[i]) + 1 == h,
        forall|i: int| 0 <= i < cs.len() ==> full_enough(*#[trigger] cs[i]),
        1 <= jj < cs.len(),
        mids.len() >= 1,
        mid_ks.len() == mids.len() - 1,
        cs2 == cs.take(jj - 1) + mids + cs.skip(jj + 1),
        ks2 == ks.take(jj - 1) + mid_ks + ks.skip(jj),
        jj - 2 >= 0 ==> ks[jj - 2] <= k,
        jj < ks.len() ==> k < ks[jj],
        entries_all(mids) == mids_entries,
        map_of(mids_entries) == map_of(entries_all(cs.subrange(jj - 1, jj + 1))).remove(k),
        map_of(entries_all(cs.subrange(jj - 1, jj + 1))).contains_pair(k, kv.1),
        kv.0 == k,
        forall|i: int| 0 <= i < mid_ks.len() ==> all_below(entries_at(mids, i), #[trigger] mid_ks[i]),
        forall|i: int|
            0 <= i < mid_ks.len() ==> all_at_least(entries_at(mids, i + 1), #[trigger] mid_ks[i]),
        forall|i: int, j: int| 0 <= i < j < mid_ks.len() ==> mid_ks[i] < mid_ks[j],
        forall|i: int| 0 <= i < mids.len() ==> #[trigger] entries_at(mids, i).len() > 0,
        forall|i: int| 0 <= i < mids.len() ==> wf(*#[trigger] mids[i]),
        forall|i: int| 0 <= i < mids.len() ==> height(*#[trigger] mids[i]) + 1 == h,
        forall|i: int| 0 <= i < mids.len() ==> full_enough(*#[trigger] mids[i]),
    ensures
        branch_parts(ks2, cs2),
        wf_all(cs2),
        forall|i: int| 0 <= i < cs2.len() ==> height(*#[trigger] cs2[i]) + 1 == h,
        forall|i: int| 0 <= i < cs2.len() ==> full_enough(*#[trigger] cs2[i]),
        cs2.len() == cs.len() - 2 + mids.len(),
        ks2.len() == cs2.len() - 1,
        map_of(entries_all(cs2)) == map_of(entries_all(cs)).remove(k),
        map_of(entries_all(cs)).contains_pair(k, kv.1),
{
    lemma_branch_rebuild(ks, cs, ks2, cs2, jj - 1, jj + 1, mid_ks, mids, k, h);
    let p = map_of(entries_all(cs.take(jj - 1)));
    let rg = map_of(entries_all(cs.subrange(jj - 1, jj + 1)));
    let sfx = map_of(entries_all(cs.skip(jj + 1)));
    crate::seqmap::lemma_union_remove(p.union_prefer_right(rg), sfx, k);
    crate::seqmap::lemma_union_remove(p, rg, k);
    crate::seqmap::lemma_remove_absent(p, k);
    crate::seqmap::lemma_remove_absent(sfx, k);
    assert(map_of(entries_all(cs2)) == p.union_prefer_right(map_of(mids_entries)).union_prefer_right(
        sfx,
    ));
    assert(map_of(entries_all(cs)).remove(k) == p.union_prefer_right(rg.remove(k)).union_prefer_right(
        sfx,
    ));
}

/// Remove the entry under `k`, descending to the one leaf that may hold it;
/// an underflowing child is refilled from a sibling or merged with it.
#[verifier::rlimit(100)]
pub fn node_remove(n: Node, k: u64) -> (r: RemoveOutcome)
    requires
        wf(n),
        height(n) > 0 ==> size(n) >= 2,
    ensures
        match r {
            RemoveOutcome::NoChange(m) => {
                &&& wf(m) && height(m) == height(n) && size(m) == size(n)
                &&& entries(m) == entries(n)
                &&& !map_of(entries(n)).dom().contains(k)
            },
            RemoveOutcome::Update(m, kv) => {
                &&& wf(m) && height(m) == height(n)
                &&& full_enough(m) || size(m) == size(n)
                &&& kv.0 == k && map_of(entries(n)).contains_pair(k, kv.1)
                &&& map_of(entries(m)) == map_of(entries(n)).remove(k)
            },
            RemoveOutcome::Underflow(m, kv) => {
                &&& wf(m) && height(m) == height(n)
                &&& size(m) + 1 == size(n) && size(m) < min_size(m)
                &&& kv.0 == k && map_of(entries(n)).contains_pair(k, kv.1)
                &&& map_of(entries(m)) == map_of(entries(n)).remove(k)
            },
        },
    decreases height(n), 1int,
{
    let ghost n0 = n;
    match n {
        Node::Leaf { mut items } => {
            let ghost s0 = items@;
            let i = find_pos(&items, k);
            if i < items.len() && items[i].0 == k {
                let kv = items.remove(i);
                proof {
                    crate::seqmap::lemma_leaf_remove(s0, i as int);
                }
                if items.len() >= B {
                    RemoveOutcome::Update(Node::Leaf { items }, kv)
                } else {
                    RemoveOutcome::Underflow(Node::Leaf { items }, kv)
                }
            } else {
                proof {
                    crate::seqmap::lemma_map_of_has_key(s0);
                    assert forall|x: int| 0 <= x < s0.len() implies (#[trigger] s0[x]).0 != k by {
                        if x >= i {
                            if x > i {
                                assert(s0[i as int].0 < s0[x].0);
                            }
                        }
                    };
                    assert(!has_key(s0, k));
                }
                RemoveOutcome::NoChange(Node::Leaf { items })
            }
        },
        Node::Branch { keys, children } => {
            let ghost n0 = n;
            branch_remove(keys, children, k, Ghost(n0))
        },
    }
}

/// The branch half of `node_remove`: descend into the covering child, then
/// absorb its outcome, refilling or merging an underflowing child.
#[verifier::rlimit(100)]
fn branch_remove(keys: Vec<u64>, children: Vec<Rc<Node>>, k: u64, Ghost(n0): Ghost<Node>) -> (r:
    RemoveOutcome)
    requires
        n0 == (Node::Branch { keys, children }),
        wf(n0),
        size(n0) >= 2,
    ensures
        match r {
            RemoveOutcome::NoChange(m) => {
                &&& wf(m) && height(m) == height(n0) && size(m) == size(n0)
                &&& entries(m) == entries(n0)
                &&& !map_of(entries(n0)).dom().contains(k)
            },
            RemoveOutcome::Update(m, kv) => {
                &&& wf(m) && height(m) == height(n0)
                &&& full_enough(m) || size(m) == size(n0)
                &&& kv.0 == k && map_of(entries(n0)).contains_pair(k, kv.1)
                &&& map_of(entries(m)) == map_of(entries(n0)).remove(k)
            },
            RemoveOutcome::Underflow(m, kv) => {
                &&& wf(m) && height(m) == height(n0)
                &&& size(m) + 1 == size(n0) && size(m) < min_size(m)
                &&& kv.0 == k && map_of(entries(n0)).contains_pair(k, kv.1)
                &&& map_of(entries(m)) == map_of(entries(n0)).remove(k)
            },
        },
    decreases height(n0), 0int,
{
    let mut keys = keys;
    let mut children = children;
            let ghost ks0 = keys@;
            let ghost cs0 = children@;
            let ghost h = height(n0);
            let j = find_child(&keys, k);
            proof {
                lemma_wf_all_index(cs0);
                lemma_children_sorted(cs0);
            }
            let crc = children.remove(j);
            let child = take_node(crc);
            proof {
                assert(child == node_of(cs0[j as int]));
                assert(wf(child));
                assert(height(child) + 1 == h);
                assert(cs0.subrange(j as int, j as int + 1) =~= seq![cs0[j as int]]);
                lemma_entries_all_one(cs0[j as int]);
            }
            let ghost region = map_of(entries(child));
            match node_remove(child, k) {
                RemoveOutcome::NoChange(c) => {
                    let rc = Rc::new(c);
                    children.insert(j, rc);
                    proof {
                        assert(node_of(rc) == c);
                        lemma_entries_all_one(rc);
                        assert(children@ =~= cs0.take(j as int) + seq![rc] + cs0.skip(
                            j as int + 1,
                        ));
                        assert(ks0 =~= ks0.take(j as int) + Seq::<u64>::empty() + ks0.skip(
                            j as int,
                        ));
                        lemma_entries_nonempty(c);
                        lemma_branch_rebuild(
                            ks0,
                            cs0,
                            ks0,
                            children@,
                            j as int,
                            j as int + 1,
                            Seq::<u64>::empty(),
                            seq![rc],
                            k,
                            h,
                        );
                        lemma_entries_all_parts(cs0, j as int);
                        assert(entries_all(children@) == entries_all(cs0));
                        assert(!map_of(entries_all(cs0)).dom().contains(k));
                    }
                    RemoveOutcome::NoChange(Node::Branch { keys, children })
                },
                RemoveOutcome::Update(c, kv) => {
                    let rc = Rc::new(c);
                    children.insert(j, rc);
                    proof {
                        assert(node_of(rc) == c);
                        lemma_entries_all_one(rc);
                        assert(children@ =~= cs0.take(j as int) + seq![rc] + cs0.skip(
                            j as int + 1,
                        ));
                        assert(ks0 =~= ks0.take(j as int) + Seq::<u64>::empty() + ks0.skip(
                            j as int,
                        ));
                        assert(full_enough(c));
                        lemma_entries_nonempty(c);
                        lemma_branch_rebuild(
                            ks0,
                            cs0,
                            ks0,
                            children@,
                            j as int,
                            j as int + 1,
                            Seq::<u64>::empty(),
                            seq![rc],
                            k,
                            h,
                        );
                        let p = map_of(entries_all(cs0.take(j as int)));
                        let sfx = map_of(entries_all(cs0.skip(j as int + 1)));
                        crate::seqmap::lemma_union_remove(p.union_prefer_right(region), sfx, k);
                        crate::seqmap::lemma_union_remove(p, region, k);
                        crate::seqmap::lemma_remove_absent(p, k);
                        crate::seqmap::lemma_remove_absent(sfx, k);
                    }
                    RemoveOutcome::Update(Node::Branch { keys, children }, kv)
                },
                RemoveOutcome::Underflow(c, kv) => {
                    let shrunk = refill_child(
                        &mut keys,
                        &mut children,
                        j,
                        c,
                        k,
                        kv,
                        Ghost(ks0),
                        Ghost(cs0),
                        Ghost(child),
                        Ghost(h),
                    );
                    if !shrunk {
                        RemoveOutcome::Update(Node::Branch { keys, children }, kv)
                    } else if children.len() >= B + 1 {
                        RemoveOutcome::Update(Node::Branch { keys, children }, kv)
                    } else {
                        RemoveOutcome::Underflow(Node::Branch { keys, children }, kv)
                    }
                },
            }
}

/// Refill an underflowing child: borrow from an adjacent sibling when it
/// can spare one, else merge the two; the run of keys and children is
/// rewritten in place. Returns whether the branch lost a child.
#[verifier::rlimit(100)]
fn refill_child(
    keys: &mut Vec<u64>,
    children: &mut Vec<Rc<Node>>,
    j: usize,
    c: Node,
    k: u64,
    kv: (u64, u64),
    Ghost(ks0): Ghost<Seq<u64>>,
    Ghost(cs0): Ghost<Seq<Rc<Node>>>,
    Ghost(child): Ghost<Node>,
    Ghost(h): Ghost<nat>,
) -> (shrunk: bool)
    requires
        branch_parts(ks0, cs0),
        wf_all(cs0),
        forall|i: int| 0 <= i < cs0.len() ==> height(*#[trigger] cs0[i]) + 1 == h,
        forall|i: int| 0 <= i < cs0.len() ==> full_enough(*#[trigger] cs0[i]),
        2 <= cs0.len() <= 2 * B + 1,
        0 <= j < cs0.len(),
        old(keys)@ == ks0,
        old(children)@ == cs0.remove(j as int),
        child == node_of(cs0[j as int]),
        wf(c),
        height(c) == height(child),
        size(c) + 1 == size(child),
        size(c) < min_size(c),
        j > 0 ==> ks0[j - 1] <= k,
        j < ks0.len() ==> k < ks0[j as int],
        map_of(entries(c)) == map_of(entries(child)).remove(k),
        map_of(entries(child)).contains_pair(k, kv.1),
        kv.0 == k,
    ensures
        branch_parts(final(keys)@, final(children)@),
        wf_all(final(children)@),
        forall|i: int|
            0 <= i < final(children)@.len() ==> height(*#[trigger] final(children)@[i]) + 1 == h,
        forall|i: int|
            0 <= i < final(children)@.len() ==> full_enough(*#[trigger] final(children)@[i]),
        shrunk ==> final(children)@.len() == cs0.len() - 1,
        !shrunk ==> final(children)@.len() == cs0.len(),
        map_of(entries_all(final(children)@)) == map_of(entries_all(cs0)).remove(k),
        map_of(entries_all(cs0)).contains_pair(k, kv.1),
{
    if j > 0 {
        refill_from_left(keys, children, j, c, k, kv, Ghost(ks0), Ghost(cs0), Ghost(child), Ghost(h))
    } else {
        refill_from_right(keys, children, j, c, k, kv, Ghost(ks0), Ghost(cs0), Ghost(child), Ghost(h))
    }
}

/// The left-sibling half of `refill_child`.
#[verifier::rlimit(100)]
fn refill_from_left(
    keys: &mut Vec<u64>,
    children: &mut Vec<Rc<Node>>,
    j: usize,
    c: Node,
    k: u64,
    kv: (u64, u64),
    Ghost(ks0): Ghost<Seq<u64>>,
    Ghost(cs0): Ghost<Seq<Rc<Node>>>,
    Ghost(child): Ghost<Node>,
    Ghost(h): Ghost<nat>,
) -> (shrunk: bool)
    requires
        branch_parts(ks0, cs0),
        wf_all(cs0),
        forall|i: int| 0 <= i < cs0.len() ==> height(*#[trigger] cs0[i]) + 1 == h,
        forall|i: int| 0 <= i < cs0.len() ==> full_enough(*#[trigger] cs0[i]),
        2 <= cs0.len() <= 2 * B + 1,
        1 <= j < cs0.len(),
        old(keys)@ == ks0,
        old(children)@ == cs0.remove(j as int),
        child == node_of(cs0[j as int]),
        wf(c),
        height(c) == height(child),
        size(c) + 1 == size(child),
        size(c) < min_size(c),
        j > 0 ==> ks0[j - 1] <= k,
        j < ks0.len() ==> k < ks0[j as int],
        map_of(entries(c)) == map_of(entries(child)).remove(k),
        map_of(entries(child)).contains_pair(k, kv.1),
        kv.0 == k,
    ensures
        branch_parts(final(keys)@, final(children)@),
        wf_all(final(children)@),
        forall|i: int|
            0 <= i < final(children)@.len() ==> height(*#[trigger] final(children)@[i]) + 1 == h,
        forall|i: int|
            0 <= i < final(children)@.len() ==> full_enough(*#[trigger] final(children)@[i]),
        shrunk ==> final(children)@.len() == cs0.len() - 1,
        !shrunk ==> final(children)@.len() == cs0.len(),
        map_of(entries_all(final(children)@)) == map_of(entries_all(cs0)).remove(k),
        map_of(entries_all(cs0)).contains_pair(k, kv.1),
{
    proof {
        lemma_wf_all_index(cs0);
        assert(wf(child));
        assert(full_enough(child));
        assert(min_size(c) == min_size(child));
        assert(size(child) == min_size(child));
        assert(size(c) + 1 == min_size(c));
    }
    let ghost region = map_of(entries(child));
                        let lrc = children.remove(j - 1);
                        let left = take_node(lrc);
                        let sepl = keys.remove(j - 1);
                        proof {
                            assert(left == node_of(cs0[j as int - 1]));
                            assert(sepl == ks0[j as int - 1]);
                            assert(all_below(entries(left), sepl));
                            assert(all_at_least(entries(child), sepl));
                            assert(all_at_least(entries(c), sepl)) by {
                                crate::seqmap::lemma_all_at_least_from(
                                    entries(c),
                                    entries(child),
                                    k,
                                    sepl,
                                );
                            };
                            assert(height(left) == height(c));
                        }
                        if above_min(&left) {
                            let (l2, sep2, r2) = borrow_from_left(left, sepl, c);
                            keys.insert(j - 1, sep2);
                            let r2rc = Rc::new(r2);
                            let l2rc = Rc::new(l2);
                            children.insert(j - 1, r2rc);
                            children.insert(j - 1, l2rc);
                            proof {
                                let jj = j as int;
                                assert(children@ =~= cs0.take(jj - 1) + seq![l2rc, r2rc]
                                    + cs0.skip(jj + 1));
                                assert(keys@ =~= ks0.take(jj - 1) + seq![sep2] + ks0.skip(jj));
                                assert(seq![l2rc, r2rc].drop_last() =~= seq![l2rc]);
                                lemma_entries_all_one(l2rc);
                                assert(entries_all(seq![l2rc, r2rc]) == entries(node_of(l2rc))
                                    + entries(node_of(r2rc)));
                                assert(entries_at(seq![l2rc, r2rc], 0) == entries(node_of(l2rc)));
                                assert(entries_at(seq![l2rc, r2rc], 1) == entries(node_of(r2rc)));
                                lemma_left_pair_region(cs0, ks0, jj, left, child, c, k, kv);
                                assert(entries(node_of(l2rc)) + entries(node_of(r2rc)) == entries(
                                    left,
                                ) + entries(c));
                                lemma_map_of_concat(entries(left), entries(c));
                                lemma_remove_pair_rebuild(
                                    ks0,
                                    cs0,
                                    keys@,
                                    children@,
                                    jj,
                                    seq![sep2],
                                    seq![l2rc, r2rc],
                                    entries(node_of(l2rc)) + entries(node_of(r2rc)),
                                    k,
                                    kv,
                                    h,
                                    region,
                                );
                            }
                            false
                        } else {
                            let merged = merge_nodes(left, sepl, c);
                            let mrc = Rc::new(merged);
                            children.insert(j - 1, mrc);
                            proof {
                                let jj = j as int;
                                assert(children@ =~= cs0.take(jj - 1) + seq![mrc] + cs0.skip(
                                    jj + 1,
                                ));
                                assert(keys@ =~= ks0.take(jj - 1) + Seq::<u64>::empty()
                                    + ks0.skip(jj));
                                lemma_entries_all_one(mrc);
                                lemma_left_pair_region(cs0, ks0, jj, left, child, c, k, kv);
                                assert(entries(node_of(mrc)) == entries(left) + entries(c));
                                lemma_entries_nonempty(left);
                                assert(entries(node_of(mrc)).len() > 0);
                                lemma_remove_pair_rebuild(
                                    ks0,
                                    cs0,
                                    keys@,
                                    children@,
                                    jj,
                                    Seq::<u64>::empty(),
                                    seq![mrc],
                                    entries(node_of(mrc)),
                                    k,
                                    kv,
                                    h,
                                    region,
                                );
                            }
                            true
                        }
}

/// The right-sibling half of `refill_child`.
#[verifier::rlimit(100)]
fn refill_from_right(
    keys: &mut Vec<u64>,
    children: &mut Vec<Rc<Node>>,
    j: usize,
    c: Node,
    k: u64,
    kv: (u64, u64),
    Ghost(ks0): Ghost<Seq<u64>>,
    Ghost(cs0): Ghost<Seq<Rc<Node>>>,
    Ghost(child): Ghost<Node>,
    Ghost(h): Ghost<nat>,
) -> (shrunk: bool)
    requires
        branch_parts(ks0, cs0),
        wf_all(cs0),
        forall|i: int| 0 <= i < cs0.len() ==> height(*#[trigger] cs0[i]) + 1 == h,
        forall|i: int| 0 <= i < cs0.len() ==> full_enough(*#[trigger] cs0[i]),
        2 <= cs0.len() <= 2 * B + 1,
        j == 0 && 2 <= cs0.len(),
        old(keys)@ == ks0,
        old(children)@ == cs0.remove(j as int),
        child == node_of(cs0[j as int]),
        wf(c),
        height(c) == height(child),
        size(c) + 1 == size(child),
        size(c) < min_size(c),
        j > 0 ==> ks0[j - 1] <= k,
        j < ks0.len() ==> k < ks0[j as int],
        map_of(entries(c)) == map_of(entries(child)).remove(k),
        map_of(entries(child)).contains_pair(k, kv.1),
        kv.0 == k,
    ensures
        branch_parts(final(keys)@, final(children)@),
        wf_all(final(children)@),
        forall|i: int|
            0 <= i < final(children)@.len() ==> height(*#[trigger] final(children)@[i]) + 1 == h,
        forall|i: int|
            0 <= i < final(children)@.len() ==> full_enough(*#[trigger] final(children)@[i]),
        shrunk ==> final(children)@.len() == cs0.len() - 1,
        !shrunk ==> final(children)@.len() == cs0.len(),
        map_of(entries_all(final(children)@)) == map_of(entries_all(cs0)).remove(k),
        map_of(entries_all(cs0)).contains_pair(k, kv.1),
{
    proof {
        lemma_wf_all_index(cs0);
        assert(wf(child));
        assert(full_enough(child));
        assert(min_size(c) == min_size(child));
        assert(size(child) == min_size(child));
        assert(size(c) + 1 == min_size(c));
    }
    let ghost region = map_of(entries(child));
                        let rrc = children.remove(0);
                        let right = take_node(rrc);
                        let sepr = keys.remove(0);
                        proof {
                            assert(right == node_of(cs0[1]));
                            assert(sepr == ks0[0]);
                            assert(all_below(entries(child), sepr));
                            assert(all_at_least(entries(right), sepr));
                            assert(all_below(entries(c), sepr)) by {
                                crate::seqmap::lemma_all_below_from(
                                    entries(c),
                                    entries(child),
                                    k,
                                    sepr,
                                );
                            };
                            assert(height(right) == height(c));
                        }
                        if above_min(&right) {
                            let (l2, sep2, r2) = borrow_from_right(c, sepr, right);
                            keys.insert(0, sep2);
                            let r2rc = Rc::new(r2);
                            let l2rc = Rc::new(l2);
                            children.insert(0, r2rc);
                            children.insert(0, l2rc);
                            proof {
                                assert(children@ =~= cs0.take(0) + seq![l2rc, r2rc] + cs0.skip(
                                    2,
                                ));
                                assert(keys@ =~= ks0.take(0) + seq![sep2] + ks0.skip(1));
                                assert(seq![l2rc, r2rc].drop_last() =~= seq![l2rc]);
                                lemma_entries_all_one(l2rc);
                                assert(entries_all(seq![l2rc, r2rc]) == entries(node_of(l2rc))
                                    + entries(node_of(r2rc)));
                                assert(entries_at(seq![l2rc, r2rc], 0) == entries(node_of(l2rc)));
                                assert(entries_at(seq![l2rc, r2rc], 1) == entries(node_of(r2rc)));
                                lemma_right_pair_region(cs0, ks0, child, right, c, k, kv);
                                assert(entries(node_of(l2rc)) + entries(node_of(r2rc)) == entries(
                                    c,
                                ) + entries(right));
                                lemma_map_of_concat(entries(c), entries(right));
                                if 1 < ks0.len() {
                                    assert(ks0[0] < ks0[1]);
                                }
                                lemma_remove_pair_rebuild(
                                    ks0,
                                    cs0,
                                    keys@,
                                    children@,
                                    1,
                                    seq![sep2],
                                    seq![l2rc, r2rc],
                                    entries(node_of(l2rc)) + entries(node_of(r2rc)),
                                    k,
                                    kv,
                                    h,
                                    region,
                                );
                            }
                            false
                        } else {
                            let merged = merge_nodes(c, sepr, right);
                            let mrc = Rc::new(merged);
                            children.insert(0, mrc);
                            proof {
                                assert(children@ =~= cs0.take(0) + seq![mrc] + cs0.skip(2));
                                assert(keys@ =~= ks0.take(0) + Seq::<u64>::empty() + ks0.skip(
                                    1,
                                ));
                                lemma_entries_all_one(mrc);
                                lemma_right_pair_region(cs0, ks0, child, right, c, k, kv);
                                assert(entries(node_of(mrc)) == entries(c) + entries(right));
                                lemma_entries_nonempty(right);
                                assert(entries(node_of(mrc)).len() > 0);
                                if 1 < ks0.len() {
                                    assert(ks0[0] < ks0[1]);
                                }
                                lemma_remove_pair_rebuild(
                                    ks0,
                                    cs0,
                                    keys@,
                                    children@,
                                    1,
                                    Seq::<u64>::empty(),
                                    seq![mrc],
                                    entries(node_of(mrc)),
                                    k,
                                    kv,
                                    h,
                                    region,
                                );
                            }
                            true
                        }
}


/// Every leaf of `n` sits exactly `d` levels down.
pub open spec fn all_leaves_at(n: Node, d: nat) -> bool
    decreases n, 1int,
{
    match n {
        Node::Leaf { .. } => d == 0,
        Node::Branch { keys: _, children } => d > 0 && leaves_all_at(
            children@,
            (d - 1) as nat,
        ),
    }
}

/// Every leaf of every child of a run sits exactly `d` levels down.
pub open spec fn leaves_all_at(cs: Seq<Rc<Node>>, d: nat) -> bool
    decreases cs, 0int,
{
    if cs.len() == 0 {
        true
    } else {
        leaves_all_at(cs.drop_last(), d) && all_leaves_at(*cs.last(), d)
    }
}

/// Height balance: in a well-formed subtree, every leaf sits at the same
/// depth, the subtree's height.
pub proof fn lemma_wf_balanced(n: Node)
    requires
        wf(n),
    ensures
        all_leaves_at(n, height(n)),
    decreases n, 1int,
{
    match n {
        Node::Leaf { .. } => {},
        Node::Branch { keys, children } => {
            lemma_wf_all_index(children@);
            lemma_leaves_run(children@, (height(n) - 1) as nat);
        },
    }
}

/// The run form of `lemma_wf_balanced`.
proof fn lemma_leaves_run(cs: Seq<Rc<Node>>, d: nat)
    requires
        wf_all(cs),
        forall|i: int| 0 <= i < cs.len() ==> height(*#[trigger] cs[i]) == d,
    ensures
        leaves_all_at(cs, d),
    decreases cs, 0int,
{
    if cs.len() > 0 {
        lemma_wf_all_index(cs);
        lemma_wf_all_index(cs.drop_last());
        assert forall|i: int| 0 <= i < cs.drop_last().len() implies height(
            *#[trigger] cs.drop_last()[i],
        ) == d && wf(*cs.drop_last()[i]) by {
            assert(cs.drop_last()[i] == cs[i]);
        };
        lemma_leaves_run(cs.drop_last(), d);
        lemma_wf_balanced(node_of(cs.last()));
    }
}

} // verus!
