//! Properties of the tree and of its history that hold across operations,
//! stated over the models that the operations' contracts use.

use vstd::prelude::*;
use crate::node::{
    black_balanced, is_red, keys_of, left_leaning, llrb, no_red_red, ordered, sizes_ok,
    strictly_increasing, Node,
};
use crate::controller::{replay, Controller, Operation};
use crate::timeline::{closes_operation, grows_from, Timeline};
use crate::tree::{lemma_keys_of, RBTree};

verus! {

proof fn lemma_llrb_shape(t: Option<Box<Node>>)
    requires
        llrb(t),
    ensures
        no_red_red(t),
        left_leaning(t),
    decreases t,
{
    if let Some(n) = t {
        lemma_llrb_shape(n.left);
        lemma_llrb_shape(n.right);
    }
}

/// The keys of a well-formed tree, read in order, strictly increase.
pub proof fn law_keys_increasing(t: RBTree)
    requires
        t.wf(),
    ensures
        strictly_increasing(keys_of(t.root)),
        forall|k: u32| keys_of(t.root).contains(k) <==> t@.dom().contains(k),
{
    lemma_keys_of(t.root);
}

/// A tree that meets the red-black constraints has the same number of black
/// links on every path from the root to nil, no red node with a red child,
/// no red right child beside a non-red left one, and a black root.
pub proof fn law_red_black_shape(t: RBTree)
    requires
        t.is_llrb(),
    ensures
        black_balanced(t.root),
        no_red_red(t.root),
        left_leaning(t.root),
        !is_red(t.root),
{
    lemma_llrb_shape(t.root);
}

/// The snapshot that ends each insertion or deletion shows a tree whose keys
/// increase in order, whose nodes record their subtree sizes, with equal
/// black height on every path, no red node with a red child, no red link
/// leaning right, and a black root.
pub proof fn law_closing_snapshots(c: Controller, i: int)
    requires
        c.inv(),
        0 <= i < c.timeline().snaps().len(),
        closes_operation(c.timeline().snaps()[i].step),
    ensures
        strictly_increasing(keys_of(c.timeline().snaps()[i].tree.root)),
        sizes_ok(c.timeline().snaps()[i].tree.root),
        black_balanced(c.timeline().snaps()[i].tree.root),
        no_red_red(c.timeline().snaps()[i].tree.root),
        left_leaning(c.timeline().snaps()[i].tree.root),
        !is_red(c.timeline().snaps()[i].tree.root),
{
    let t = c.timeline().snaps()[i].tree;
    law_keys_increasing(t);
    law_red_black_shape(t);
}

/// Two controllers that hold the same tree and the same snapshots and run
/// the same operations, in the same order, end with the same tree and record
/// the same timeline.
pub proof fn law_deterministic(a: Controller, b: Controller, ops: Seq<Operation>)
    requires
        a.tree() == b.tree(),
        a.timeline().snaps() == b.timeline().snaps(),
    ensures
        replay(a.tree(), a.timeline().snaps(), ops) == replay(
            b.tree(),
            b.timeline().snaps(),
            ops,
        ),
{
}

/// Every snapshot the controller has recorded, intermediate ones included,
/// crosses the same number of black links on every path from its root to nil.
pub proof fn law_every_snapshot_black_balanced(c: Controller, i: int)
    requires
        c.inv(),
        0 <= i < c.timeline().snaps().len(),
    ensures
        black_balanced(c.timeline().snaps()[i].tree.root),
{
}

/// Every snapshot of a timeline, intermediate ones included, is a search
/// tree whose keys strictly increase in order and whose nodes record the
/// number of nodes of their subtrees.
pub proof fn law_every_snapshot_ordered_and_sized(tl: Timeline, i: int)
    requires
        tl.wf(),
        0 <= i < tl.snaps().len(),
    ensures
        ordered(tl.snaps()[i].tree.root),
        strictly_increasing(keys_of(tl.snaps()[i].tree.root)),
        sizes_ok(tl.snaps()[i].tree.root),
{
    crate::timeline::lemma_snapshot_sizes(tl, i);
    lemma_keys_of(tl.snaps()[i].tree.root);
}

/// The controller's cursor never leaves [-1, length - 1], and is -1 exactly
/// when its timeline is empty.
pub proof fn law_cursor_bounds(c: Controller)
    requires
        c.inv(),
    ensures
        -1 <= c.timeline().cursor_at() < c.timeline().snaps().len(),
        c.timeline().cursor_at() == -1 <==> c.timeline().snaps().len() == 0,
{
    crate::timeline::lemma_cursor_bounds(c.timeline());
}

/// A snapshot, once taken, stays as it was through every later step.
pub proof fn law_snapshots_isolated(a: Timeline, b: Timeline, c: Timeline, i: int)
    requires
        grows_from(b, a),
        grows_from(c, b),
        0 <= i < a.snaps().len(),
    ensures
        c.snaps()[i] == a.snaps()[i],
{
    crate::timeline::lemma_grows_trans(a, b, c);
}

/// Deleting a key twice leaves the same content as deleting it once, and
/// after the first deletion the key is absent, so the second one is a no-op.
pub proof fn law_delete_idempotent(m: Map<u32, String>, k: u32)
    ensures
        m.remove(k).remove(k) == m.remove(k),
        !m.remove(k).dom().contains(k),
{
    assert(m.remove(k).remove(k) =~= m.remove(k));
}

/// After inserting `k` with `v`, looking `k` up finds `v`.
pub proof fn law_lookup_after_insert(m: Map<u32, String>, k: u32, v: String)
    ensures
        m.insert(k, v).dom().contains(k),
        m.insert(k, v)[k] == v,
{
}

/// The content after inserting each of `entries` in turn into `m`.
pub open spec fn after_inserts(m: Map<u32, String>, entries: Seq<(u32, String)>) -> Map<
    u32,
    String,
>
    decreases entries.len(),
{
    if entries.len() == 0 {
        m
    } else {
        after_inserts(m, entries.drop_last()).insert(entries.last().0, entries.last().1)
    }
}

/// The content after deleting each of `keys` in turn from `m`.
pub open spec fn after_deletes(m: Map<u32, String>, keys: Seq<u32>) -> Map<u32, String>
    decreases keys.len(),
{
    if keys.len() == 0 {
        m
    } else {
        after_deletes(m, keys.drop_last()).remove(keys.last())
    }
}

proof fn lemma_after_inserts_dom(m: Map<u32, String>, entries: Seq<(u32, String)>, k: u32)
    ensures
        after_inserts(m, entries).dom().contains(k) <==> (m.dom().contains(k) || exists|i: int|
            0 <= i < entries.len() && (#[trigger] entries[i]).0 == k),
    decreases entries.len(),
{
    if entries.len() > 0 {
        let p = entries.drop_last();
        lemma_after_inserts_dom(m, p, k);
        if exists|i: int| 0 <= i < entries.len() && (#[trigger] entries[i]).0 == k {
            let i = choose|i: int| 0 <= i < entries.len() && (#[trigger] entries[i]).0 == k;
            if i < p.len() {
                assert(p[i] == entries[i]);
            }
        }
        if exists|i: int| 0 <= i < p.len() && (#[trigger] p[i]).0 == k {
            let i = choose|i: int| 0 <= i < p.len() && (#[trigger] p[i]).0 == k;
            assert(entries[i] == p[i]);
        }
    }
}

proof fn lemma_after_deletes_dom(m: Map<u32, String>, keys: Seq<u32>, k: u32)
    ensures
        after_deletes(m, keys).dom().contains(k) <==> (m.dom().contains(k) && !keys.contains(k)),
    decreases keys.len(),
{
    if keys.len() > 0 {
        let p = keys.drop_last();
        lemma_after_deletes_dom(m, p, k);
        if keys.contains(k) && k != keys.last() {
            let i = choose|i: int| 0 <= i < keys.len() && keys[i] == k;
            assert(p[i] == k);
        }
        if p.contains(k) {
            let i = choose|i: int| 0 <= i < p.len() && p[i] == k;
            assert(keys[i] == k);
        }
    }
}

/// Inserting every key of a set, in any order, into an empty tree and then
/// deleting every one of those keys, in any order, leaves the tree empty.
pub proof fn law_insert_delete_round_trip(entries: Seq<(u32, String)>, keys: Seq<u32>)
    requires
        forall|i: int| 0 <= i < entries.len() ==> keys.contains(#[trigger] entries[i].0),
    ensures
        after_deletes(after_inserts(Map::empty(), entries), keys) == Map::<u32, String>::empty(),
{
    let m = after_inserts(Map::empty(), entries);
    let r = after_deletes(m, keys);
    assert forall|k: u32| !r.dom().contains(k) by {
        lemma_after_deletes_dom(m, keys, k);
        lemma_after_inserts_dom(Map::empty(), entries, k);
        if m.dom().contains(k) {
            let i = choose|i: int| 0 <= i < entries.len() && (#[trigger] entries[i]).0 == k;
            assert(keys.contains(entries[i].0));
        }
    }
    assert(r =~= Map::<u32, String>::empty());
}

} // verus!
