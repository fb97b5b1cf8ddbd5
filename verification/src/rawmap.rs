//! The map facade: a persistent ordered map over one shared root node.

use crate::node::{
    entries, height, lemma_wf_sorted, node_get, node_insert, node_remove, share, size, take_node,
    wf, InsertOutcome, Node, RemoveOutcome,
};
use crate::seqmap::{lookup, map_of, sorted};
use std::rc::Rc;
use vstd::prelude::*;

verus! {

/// A persistent ordered map from integer keys to integer values. Updates
/// through `insert` return a new version and leave this one untouched;
/// `insert_mut` rewrites this version in place, cloning only nodes still
/// shared with other versions.
pub struct RawMap {
    root: Rc<Node>,
}

impl RawMap {
    /// The sorted run of entries this version holds.
    pub closed spec fn to_seq(self) -> Seq<(u64, u64)> {
        entries(*self.root)
    }

    /// The tree behind this version.
    pub closed spec fn tree(self) -> Node {
        *self.root
    }

    /// The finite map this version denotes.
    pub closed spec fn view(self) -> Map<u64, u64> {
        map_of(self.to_seq())
    }

    /// The structural invariant: the root subtree is well-formed, and a
    /// branch root keeps at least two children. Every constructor and
    /// update establishes it.
    pub closed spec fn inv(self) -> bool {
        &&& wf(*self.root)
        &&& height(*self.root) > 0 ==> size(*self.root) >= 2
    }

    /// The empty map.
    pub fn new() -> (m: Self)
        ensures
            m.inv(),
            m@ == Map::<u64, u64>::empty(),
            m.to_seq() == Seq::<(u64, u64)>::empty(),
    {
        RawMap { root: Rc::new(Node::Leaf { items: Vec::new() }) }
    }

    /// Pure lookup.
    pub fn get(&self, k: u64) -> (r: Option<u64>)
        requires
            self.inv(),
        ensures
            r == lookup(self@, k),
    {
        node_get(&self.root, k)
    }

    /// Functional insert: a new version holding `(k, v)`, this one
    /// untouched. Subtrees off the touched path are shared, not copied.
    pub fn insert(&self, k: u64, v: u64) -> (m: Self)
        requires
            self.inv(),
        ensures
            m.inv(),
            m@ == self@.insert(k, v),
    {
        let root = take_node(share(&self.root));
        match node_insert(root, k, v) {
            InsertOutcome::NoChange(_) => {
                let m = RawMap { root: share(&self.root) };
                proof {
                    crate::seqmap::lemma_insert_present(self@, k, v);
                }
                m
            },
            InsertOutcome::Update(r) => RawMap { root: Rc::new(r) },
            InsertOutcome::Split(l, mid, r) => {
                let mut keys: Vec<u64> = Vec::new();
                let mut children: Vec<Rc<Node>> = Vec::new();
                keys.push(mid);
                let lrc = Rc::new(l);
                let rrc = Rc::new(r);
                children.push(lrc);
                children.push(rrc);
                proof {
                    use_split_root(keys@, children@, l, mid, r);
                }
                RawMap { root: Rc::new(Node::Branch { keys, children }) }
            },
        }
    }

    /// In-place insert: observably the same result as `insert`, written
    /// back into this version; uniquely owned nodes are reused.
    pub fn insert_mut(&mut self, k: u64, v: u64)
        requires
            old(self).inv(),
        ensures
            final(self).inv(),
            final(self)@ == old(self)@.insert(k, v),
    {
        let mut tmp: Rc<Node> = Rc::new(Node::Leaf { items: Vec::new() });
        core::mem::swap(&mut self.root, &mut tmp);
        let root = take_node(tmp);
        match node_insert(root, k, v) {
            InsertOutcome::NoChange(r) => {
                self.root = Rc::new(r);
                proof {
                    crate::seqmap::lemma_insert_present(old(self)@, k, v);
                }
            },
            InsertOutcome::Update(r) => {
                self.root = Rc::new(r);
            },
            InsertOutcome::Split(l, mid, r) => {
                let mut keys: Vec<u64> = Vec::new();
                let mut children: Vec<Rc<Node>> = Vec::new();
                keys.push(mid);
                let lrc = Rc::new(l);
                let rrc = Rc::new(r);
                children.push(lrc);
                children.push(rrc);
                proof {
                    use_split_root(keys@, children@, l, mid, r);
                }
                self.root = Rc::new(Node::Branch { keys, children });
            },
        }
    }

    /// Functional remove: a new version without the entry under `k`, this
    /// one untouched.
    pub fn remove(&self, k: u64) -> (m: Self)
        requires
            self.inv(),
        ensures
            m.inv(),
            m@ == self@.remove(k),
    {
        let root = take_node(share(&self.root));
        match node_remove(root, k) {
            RemoveOutcome::NoChange(_) => {
                let m = RawMap { root: share(&self.root) };
                proof {
                    crate::seqmap::lemma_remove_absent(self@, k);
                }
                m
            },
            RemoveOutcome::Update(r, _) => RawMap { root: collapse_root(r) },
            RemoveOutcome::Underflow(r, _) => RawMap { root: collapse_root(r) },
        }
    }

    /// In-place remove: observably the same result as `remove`, written
    /// back into this version.
    pub fn remove_mut(&mut self, k: u64)
        requires
            old(self).inv(),
        ensures
            final(self).inv(),
            final(self)@ == old(self)@.remove(k),
    {
        let mut tmp: Rc<Node> = Rc::new(Node::Leaf { items: Vec::new() });
        core::mem::swap(&mut self.root, &mut tmp);
        let root = take_node(tmp);
        match node_remove(root, k) {
            RemoveOutcome::NoChange(r) => {
                self.root = Rc::new(r);
                proof {
                    crate::seqmap::lemma_remove_absent(old(self)@, k);
                }
            },
            RemoveOutcome::Update(r, _) => {
                self.root = collapse_root(r);
            },
            RemoveOutcome::Underflow(r, _) => {
                self.root = collapse_root(r);
            },
        }
    }

    /// The entries in ascending key order, for iteration.
    pub fn iter(&self) -> (r: Vec<(u64, u64)>)
        requires
            self.inv(),
        ensures
            r@ == self.to_seq(),
            sorted(r@),
            map_of(r@) == self@,
    {
        let mut out: Vec<(u64, u64)> = Vec::new();
        node_to_vec(&self.root, &mut out);
        proof {
            lemma_wf_sorted(crate::node::node_of(self.root));
            assert(out@ =~= self.to_seq());
        }
        out
    }

    /// Relies on std's `Rc::ptr_eq`: both versions hold the very same root
    /// node, so they denote the same map.
    #[verifier::external_body]
    pub fn shares_root(&self, other: &Self) -> (r: bool)
        ensures
            r ==> self@ == other@,
    {
        Rc::ptr_eq(&self.root, &other.root)
    }
}

/// The two-child root made after a root split is well-formed and holds the
/// split's entries.
proof fn use_split_root(ks: Seq<u64>, cs: Seq<Rc<Node>>, l: Node, mid: u64, r: Node)
    requires
        wf(l),
        wf(r),
        height(l) == height(r),
        crate::node::full_enough(l),
        crate::node::full_enough(r),
        crate::seqmap::all_below(entries(l), mid),
        crate::seqmap::all_at_least(entries(r), mid),
        ks == seq![mid],
        cs.len() == 2,
        *cs[0] == l,
        *cs[1] == r,
    ensures
        crate::node::branch_parts(ks, cs),
        crate::node::wf_all(cs),
        crate::node::entries_all(cs) == entries(l) + entries(r),
        forall|i: int| 0 <= i < cs.len() ==> height(*#[trigger] cs[i]) + 1 == height(l) + 1,
        forall|i: int| 0 <= i < cs.len() ==> crate::node::full_enough(*#[trigger] cs[i]),
{
    assert(cs.drop_last() =~= seq![cs[0]]);
    crate::node::lemma_entries_all_one(cs[0]);
    assert(crate::node::entries_all(cs) == entries(l) + entries(r));
    crate::node::lemma_wf_all_index(cs);
    assert forall|i: int| 0 <= i < cs.len() implies wf(*#[trigger] cs[i]) by {
        if i == 0 {
        } else {
            assert(*cs[1] == r);
        }
    };
}

/// A branch root left with a single child hands its place to that child;
/// the tree's height shrinks by one.
fn collapse_root(r: Node) -> (rc: Rc<Node>)
    requires
        wf(r),
        height(r) > 0 ==> size(r) >= 1,
    ensures
        wf(*rc),
        height(*rc) > 0 ==> size(*rc) >= 2,
        entries(*rc) == entries(r),
        crate::seqmap::map_of(entries(*rc)) == crate::seqmap::map_of(entries(r)),
{
    let ghost r0 = r;
    match r {
        Node::Branch { keys, mut children } => {
            let ghost cs0 = children@;
            if children.len() == 1 {
                let c = children.remove(0);
                proof {
                    assert(c == cs0[0]);
                    assert(cs0 =~= seq![c]);
                    crate::node::lemma_wf_all_index(cs0);
                    crate::node::lemma_entries_all_one(c);
                    assert(wf(crate::node::node_of(c)));
                    assert(crate::node::full_enough(crate::node::node_of(c)));
                    assert(entries(r0) == crate::node::entries_all(cs0));
                }
                c
            } else {
                Rc::new(Node::Branch { keys, children })
            }
        },
        Node::Leaf { items } => Rc::new(Node::Leaf { items }),
    }
}

/// Collect the subtree's entries, in order, after whatever `out` already
/// holds.
fn node_to_vec(n: &Node, out: &mut Vec<(u64, u64)>)
    requires
        wf(*n),
    ensures
        final(out)@ == old(out)@ + entries(*n),
    decreases height(*n),
{
    match n {
        Node::Leaf { items } => {
            let ghost o0 = out@;
            let mut i: usize = 0;
            while i < items.len()
                invariant
                    0 <= i <= items@.len(),
                    out@ == o0 + items@.take(i as int),
                decreases items@.len() - i,
            {
                out.push(items[i]);
                proof {
                    assert(o0 + items@.take(i as int) + seq![items@[i as int]] =~= o0
                        + items@.take(i as int + 1));
                }
                i += 1;
            }
            proof {
                assert(items@.take(items@.len() as int) =~= items@);
            }
        },
        Node::Branch { keys: _, children } => {
            let ghost o0 = out@;
            let ghost cs = children@;
            proof {
                crate::node::lemma_wf_all_index(cs);
            }
            proof {
                assert(entries(*n) == crate::node::entries_all(cs));
            }
            let ghost hn = height(*n);
            let mut i: usize = 0;
            while i < children.len()
                invariant
                    0 <= i <= cs.len(),
                    children@ == cs,
                    out@ == o0 + crate::node::entries_all(cs.take(i as int)),
                    forall|x: int| 0 <= x < cs.len() ==> wf(*#[trigger] cs[x]),
                    forall|x: int| 0 <= x < cs.len() ==> height(*#[trigger] cs[x]) < hn,
                    hn == height(*n),
                decreases cs.len() - i,
            {
                node_to_vec(&children[i], out);
                proof {
                    assert(cs.take(i as int + 1).drop_last() =~= cs.take(i as int));
                    assert(cs.take(i as int + 1).last() == cs[i as int]);
                    assert(crate::node::entries_all(cs.take(i as int + 1))
                        == crate::node::entries_all(cs.take(i as int)) + entries(*cs[i as int]));
                    assert(o0 + crate::node::entries_all(cs.take(i as int)) + entries(
                        *cs[i as int],
                    ) =~= o0 + crate::node::entries_all(cs.take(i as int + 1)));
                }
                i += 1;
            }
            proof {
                assert(cs.take(cs.len() as int) =~= cs);
            }
        },
    }
}


/// Sortedness invariant: the in-order traversal of any well-formed map is
/// strictly increasing by key, and denotes exactly the map's view.
pub proof fn lemma_traversal_sorted(m: RawMap)
    requires
        m.inv(),
    ensures
        sorted(m.to_seq()),
        map_of(m.to_seq()) == m@,
{
    lemma_wf_sorted(crate::node::node_of(m.root));
}

/// Height balance: every leaf of a well-formed map's tree sits at the same
/// depth, the root's height.
pub proof fn lemma_balanced(m: RawMap)
    requires
        m.inv(),
    ensures
        crate::node::all_leaves_at(m.tree(), height(m.tree())),
{
    crate::node::lemma_wf_balanced(m.tree());
}

/// A key inserted and not since removed or overwritten is found, with the
/// value it was inserted with; other inserts and removes leave it alone.
pub proof fn lemma_get_tracks_updates(m: Map<u64, u64>, k: u64, v: u64, k2: u64, v2: u64)
    ensures
        lookup(m.insert(k, v), k) == Some(v),
        k2 != k ==> lookup(m.insert(k2, v2), k) == lookup(m, k),
        k2 != k ==> lookup(m.remove(k2), k) == lookup(m, k),
{
}

} // verus!
