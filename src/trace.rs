//! The exact outcome of an insertion or a deletion, as a function of the
//! tree and the arguments: the new tree and the snapshots recorded on the
//! way; and why each of those snapshots is black-balanced.

use vstd::prelude::*;
use crate::node::{
    balanced_node, black_balanced, black_height, count, fix_steps_balanced, flipped, is_red,
    left_is_red, lemma_flipped, lemma_rotl, lemma_rotr, mrl_steps_balanced, mrr_steps_balanced,
    rotl, rotr, same_black, Color, Node,
};
use crate::removal_shape::{left_prepared, right_prepared, right_rotated};
use crate::timeline::{attach, lemma_plug_balanced, path_balanced, plug, Frame, Snapshot, Step};
use crate::tree::RBTree;

verus! {

/// The snapshot of the whole tree that `ctx` and `t` describe, after `step`.
pub open spec fn shot(ctx: Seq<Frame>, t: Option<Box<Node>>, step: Step) -> Snapshot {
    Snapshot { tree: RBTree { root: plug(ctx, t) }, step }
}

/// The snapshots that the three rebalancing rules record at `h`.
pub open spec fn fix_trace(h: Node, ctx: Seq<Frame>) -> Seq<Snapshot> {
    let r1 = is_red(h.right) && !is_red(h.left);
    let h1 = if r1 {
        rotl(h)
    } else {
        h
    };
    let s1 = if r1 {
        seq![shot(ctx, Some(Box::new(h1)), Step::RotatedLeft(h.key))]
    } else {
        Seq::empty()
    };
    let r2 = is_red(h1.left) && left_is_red(h1.left);
    let h2 = if r2 {
        rotr(h1)
    } else {
        h1
    };
    let s2 = if r2 {
        seq![shot(ctx, Some(Box::new(h2)), Step::RotatedRight(h1.key))]
    } else {
        Seq::empty()
    };
    let r3 = is_red(h2.left) && is_red(h2.right);
    let s3 = if r3 {
        seq![shot(ctx, Some(Box::new(flipped(h2))), Step::FlippedColors(h2.key))]
    } else {
        Seq::empty()
    };
    s1 + s2 + s3
}

/// The new red node that an insertion creates.
pub open spec fn leaf(key: u32, value: String) -> Node {
    Node { key, value, color: Color::Red, size: 1, left: None, right: None }
}

/// The ancestor that the descent from `n` leaves behind on the path.
pub open spec fn frame_of(n: Node, went_left: bool) -> Frame {
    Frame {
        key: n.key,
        value: n.value,
        color: n.color,
        went_left,
        other: if went_left {
            n.right
        } else {
            n.left
        },
    }
}

/// The subtree that inserting `key` with `value` below `h` returns.
#[verifier::opaque]
pub open spec fn ins_node(h: Option<Box<Node>>, key: u32, value: String) -> Node
    decreases h,
{
    match h {
        None => leaf(key, value),
        Some(n) => if key == n.key {
            Node { value, ..*n }
        } else {
            let went_left = key < n.key;
            let down = if went_left {
                n.left
            } else {
                n.right
            };
            let c = ins_node(down, key, value);
            balanced_node(*attach(frame_of(*n, went_left), Some(Box::new(c))).unwrap())
        },
    }
}

/// The snapshots that inserting `key` with `value` below `h`, whose
/// ancestors `ctx` holds, records.
#[verifier::opaque]
pub open spec fn ins_trace(h: Option<Box<Node>>, key: u32, value: String, ctx: Seq<Frame>) -> Seq<
    Snapshot,
>
    decreases h,
{
    match h {
        None => seq![shot(ctx, Some(Box::new(leaf(key, value))), Step::Created(key))],
        Some(n) => if key == n.key {
            seq![shot(ctx, Some(Box::new(Node { value, ..*n })), Step::Overwrote(key))]
        } else {
            let went_left = key < n.key;
            let down = if went_left {
                n.left
            } else {
                n.right
            };
            let f = frame_of(*n, went_left);
            let c = ins_node(down, key, value);
            ins_trace(down, key, value, ctx.push(f)) + fix_trace(
                *attach(f, Some(Box::new(c))).unwrap(),
                ctx,
            )
        },
    }
}

/// The root after inserting `key` with `value` into the tree rooted at `root`.
pub open spec fn inserted_root(root: Option<Box<Node>>, key: u32, value: String) -> Option<
    Box<Node>,
> {
    Some(Box::new(Node { color: Color::Black, ..ins_node(root, key, value) }))
}

/// Every snapshot that inserting `key` with `value` into the tree rooted at
/// `root` records, the closing one last.
pub open spec fn insert_trace(root: Option<Box<Node>>, key: u32, value: String) -> Seq<Snapshot> {
    ins_trace(root, key, value, Seq::empty()).push(
        shot(Seq::empty(), inserted_root(root, key, value), Step::Inserted(key)),
    )
}

/// The snapshots that pushing a red link down to the left of `h` records.
pub open spec fn mrl_trace(h: Node, ctx: Seq<Frame>) -> Seq<Snapshot> {
    let f = flipped(h);
    let s1 = seq![shot(ctx, Some(Box::new(f)), Step::FlippedColors(h.key))];
    if left_is_red(f.right) {
        let x = *f.right.unwrap();
        let h2 = Node { right: Some(Box::new(rotr(x))), ..f };
        let h3 = rotl(h2);
        s1 + seq![
            shot(ctx, Some(Box::new(h2)), Step::RotatedRight(x.key)),
            shot(ctx, Some(Box::new(h3)), Step::RotatedLeft(h.key)),
            shot(ctx, Some(Box::new(flipped(h3))), Step::FlippedColors(h3.key)),
        ]
    } else {
        s1
    }
}

/// The snapshots that pushing a red link down to the right of `h` records.
pub open spec fn mrr_trace(h: Node, ctx: Seq<Frame>) -> Seq<Snapshot> {
    let f = flipped(h);
    let s1 = seq![shot(ctx, Some(Box::new(f)), Step::FlippedColors(h.key))];
    if left_is_red(f.left) {
        let h2 = rotr(f);
        s1 + seq![
            shot(ctx, Some(Box::new(h2)), Step::RotatedRight(h.key)),
            shot(ctx, Some(Box::new(flipped(h2))), Step::FlippedColors(h2.key)),
        ]
    } else {
        s1
    }
}

/// The snapshots that preparing `h` for a descent to its left records.
pub open spec fn left_prep_trace(h: Node, ctx: Seq<Frame>) -> Seq<Snapshot> {
    if !is_red(h.left) && !left_is_red(h.left) {
        mrl_trace(h, ctx)
    } else {
        Seq::empty()
    }
}

/// The snapshot that the right rotation starting a descent to the right of
/// `h` records, if it takes place.
pub open spec fn right_rot_trace(h: Node, ctx: Seq<Frame>) -> Seq<Snapshot> {
    if is_red(h.left) {
        seq![shot(ctx, Some(Box::new(right_rotated(h))), Step::RotatedRight(h.key))]
    } else {
        Seq::empty()
    }
}

/// The snapshots that preparing the rotated `n` for a descent to its right records.
pub open spec fn right_prep_trace(n: Node, ctx: Seq<Frame>) -> Seq<Snapshot> {
    if !is_red(n.right) && !left_is_red(n.right) {
        mrr_trace(n, ctx)
    } else {
        Seq::empty()
    }
}

/// `n` rebuilt around `d.0`, the outcome of a deletion below it on the side
/// `went_left` that recorded `d.1`, and rebalanced; with every snapshot.
pub open spec fn below_spec(
    n: Node,
    went_left: bool,
    d: (Option<Box<Node>>, Seq<Snapshot>),
    ctx: Seq<Frame>,
) -> (Option<Box<Node>>, Seq<Snapshot>) {
    let rebuilt = *attach(frame_of(n, went_left), d.0).unwrap();
    (Some(Box::new(balanced_node(rebuilt))), d.1 + fix_trace(rebuilt, ctx))
}

pub proof fn lemma_left_prepared_count(h: Node)
    ensures
        count(Some(Box::new(left_prepared(h)))) == count(Some(Box::new(h))),
{
    let f = flipped(h);
    lemma_flipped(h);
    if !is_red(h.left) && !left_is_red(h.left) && left_is_red(f.right) {
        let x = *f.right.unwrap();
        lemma_rotr(x);
        let h2 = Node { right: Some(Box::new(rotr(x))), ..f };
        assert(count(Some(Box::new(h2))) == count(Some(Box::new(f))));
        lemma_rotl(h2);
        lemma_flipped(rotl(h2));
    }
}

pub proof fn lemma_right_prepared_count(h: Node)
    ensures
        count(Some(Box::new(right_rotated(h)))) == count(Some(Box::new(h))),
        count(Some(Box::new(right_prepared(h)))) == count(Some(Box::new(h))),
{
    let n = right_rotated(h);
    if is_red(h.left) {
        lemma_rotr(h);
    }
    let f = flipped(n);
    lemma_flipped(n);
    if !is_red(n.right) && !left_is_red(n.right) && left_is_red(f.left) {
        lemma_rotr(f);
        lemma_flipped(rotr(f));
    }
}

/// The removal of the smallest key below `h`, whose ancestors `ctx` holds:
/// the new subtree, the removed key and value, and every snapshot recorded.
#[verifier::opaque]
pub open spec fn min_spec(h: Node, ctx: Seq<Frame>) -> (Option<Box<Node>>, u32, String, Seq<
    Snapshot,
>)
    decreases count(Some(Box::new(h))),
    via min_spec_decreases
{
    if h.left is None {
        (h.right, h.key, h.value, seq![shot(ctx, h.right, Step::Removed(h.key))])
    } else {
        let n = left_prepared(h);
        let t0 = left_prep_trace(h, ctx);
        if n.left is Some {
            let f = frame_of(n, true);
            let m = min_spec(*n.left.unwrap(), ctx.push(f));
            let b = below_spec(n, true, (m.0, m.3), ctx);
            (b.0, m.1, m.2, t0 + b.1)
        } else {
            (None, h.key, h.value, t0)
        }
    }
}

#[via_fn]
proof fn min_spec_decreases(h: Node, ctx: Seq<Frame>) {
    if h.left is Some {
        lemma_left_prepared_count(h);
    }
}

/// The replacement of `n`, whose key is being deleted, by the smallest node
/// of its right subtree; with every snapshot.
pub open spec fn replace_spec(n: Node, ctx: Seq<Frame>) -> (Option<Box<Node>>, Seq<Snapshot>) {
    let f = frame_of(n, false);
    let m = min_spec(*n.right.unwrap(), ctx.push(f));
    let rebuilt = *attach(Frame { key: m.1, value: m.2, ..f }, m.0).unwrap();
    (
        Some(Box::new(balanced_node(rebuilt))),
        m.3 + seq![shot(ctx, Some(Box::new(rebuilt)), Step::Replaced(n.key))] + fix_trace(
            rebuilt,
            ctx,
        ),
    )
}

/// The deletion of `key` below `h`, whose ancestors `ctx` holds: the new
/// subtree and every snapshot recorded.
#[verifier::opaque]
pub open spec fn del_spec(h: Node, key: u32, ctx: Seq<Frame>) -> (Option<Box<Node>>, Seq<
    Snapshot,
>)
    decreases count(Some(Box::new(h))),
    via del_spec_decreases
{
    if key < h.key {
        let n = left_prepared(h);
        let t0 = left_prep_trace(h, ctx);
        if n.left is Some {
            let d = del_spec(*n.left.unwrap(), key, ctx.push(frame_of(n, true)));
            let b = below_spec(n, true, d, ctx);
            (b.0, t0 + b.1)
        } else {
            (None, t0)
        }
    } else {
        let n1 = right_rotated(h);
        let t1 = right_rot_trace(h, ctx);
        if key == n1.key && n1.right is None {
            (n1.left, t1 + seq![shot(ctx, n1.left, Step::Removed(n1.key))])
        } else {
            let n2 = right_prepared(h);
            let t2 = t1 + right_prep_trace(n1, ctx);
            if key == n2.key {
                if n2.right is None {
                    (n2.left, t2 + seq![shot(ctx, n2.left, Step::Removed(n2.key))])
                } else {
                    let r = replace_spec(n2, ctx);
                    (r.0, t2 + r.1)
                }
            } else if n2.right is Some {
                let d = del_spec(*n2.right.unwrap(), key, ctx.push(frame_of(n2, false)));
                let b = below_spec(n2, false, d, ctx);
                (b.0, t2 + b.1)
            } else {
                (None, t2)
            }
        }
    }
}

#[via_fn]
proof fn del_spec_decreases(h: Node, key: u32, ctx: Seq<Frame>) {
    lemma_left_prepared_count(h);
    lemma_right_prepared_count(h);
}

/// The root reddened, when both its children are black, before a deletion.
pub open spec fn reddened(r: Node) -> Node {
    if !is_red(r.left) && !is_red(r.right) {
        Node { color: Color::Red, ..r }
    } else {
        r
    }
}

/// `t` with a black root.
pub open spec fn blackened(t: Option<Box<Node>>) -> Option<Box<Node>> {
    match t {
        Some(n) => Some(Box::new(Node { color: Color::Black, ..*n })),
        None => None,
    }
}

/// The root after deleting `key`, present in the tree rooted at `root`.
pub open spec fn deleted_root(root: Option<Box<Node>>, key: u32) -> Option<Box<Node>> {
    blackened(del_spec(reddened(*root.unwrap()), key, Seq::empty()).0)
}

/// Every snapshot that deleting `key`, present in the tree rooted at `root`,
/// records, the closing one last.
pub open spec fn delete_trace(root: Option<Box<Node>>, key: u32) -> Seq<Snapshot> {
    del_spec(reddened(*root.unwrap()), key, Seq::empty()).1.push(
        shot(Seq::empty(), deleted_root(root, key), Step::Deleted(key)),
    )
}

/// The removal of a minimum at a node without a left subtree.
pub proof fn lemma_min_spec_leaf(h: Node, ctx: Seq<Frame>)
    requires
        h.left is None,
    ensures
        min_spec(h, ctx) == (h.right, h.key, h.value, seq![shot(ctx, h.right, Step::Removed(h.key))]),
{
    reveal_with_fuel(min_spec, 1);
}

/// The removal of a minimum at a node with a left subtree, one level down.
pub proof fn lemma_min_spec_step(h: Node, ctx: Seq<Frame>)
    requires
        h.left is Some,
        left_prepared(h).left is Some,
    ensures
        ({
            let n = left_prepared(h);
            let m = min_spec(*n.left.unwrap(), ctx.push(frame_of(n, true)));
            let b = below_spec(n, true, (m.0, m.3), ctx);
            min_spec(h, ctx) == (b.0, m.1, m.2, left_prep_trace(h, ctx) + b.1)
        }),
{
    reveal_with_fuel(min_spec, 1);
}

/// One level of the deletion of `key` at `h`.
pub proof fn lemma_del_spec_step(h: Node, key: u32, ctx: Seq<Frame>)
    ensures
        del_spec(h, key, ctx) == if key < h.key {
            let n = left_prepared(h);
            let t0 = left_prep_trace(h, ctx);
            if n.left is Some {
                let d = del_spec(*n.left.unwrap(), key, ctx.push(frame_of(n, true)));
                let b = below_spec(n, true, d, ctx);
                (b.0, t0 + b.1)
            } else {
                (None, t0)
            }
        } else {
            let n1 = right_rotated(h);
            let t1 = right_rot_trace(h, ctx);
            if key == n1.key && n1.right is None {
                (n1.left, t1 + seq![shot(ctx, n1.left, Step::Removed(n1.key))])
            } else {
                let n2 = right_prepared(h);
                let t2 = t1 + right_prep_trace(n1, ctx);
                if key == n2.key {
                    if n2.right is None {
                        (n2.left, t2 + seq![shot(ctx, n2.left, Step::Removed(n2.key))])
                    } else {
                        let r = replace_spec(n2, ctx);
                        (r.0, t2 + r.1)
                    }
                } else if n2.right is Some {
                    let d = del_spec(*n2.right.unwrap(), key, ctx.push(frame_of(n2, false)));
                    let b = below_spec(n2, false, d, ctx);
                    (b.0, t2 + b.1)
                } else {
                    (None, t2)
                }
            }
        },
{
    reveal_with_fuel(del_spec, 1);
}

/// Insertion into an empty subtree, or at a node holding the key.
pub proof fn lemma_ins_base(h: Option<Box<Node>>, key: u32, value: String, ctx: Seq<Frame>)
    requires
        h is None || h.unwrap().key == key,
    ensures
        h is None ==> ins_node(h, key, value) == leaf(key, value) && ins_trace(h, key, value, ctx)
            == seq![shot(ctx, Some(Box::new(leaf(key, value))), Step::Created(key))],
        h is Some ==> ins_node(h, key, value) == (Node { value, ..*h.unwrap() }) && ins_trace(
            h,
            key,
            value,
            ctx,
        ) == seq![shot(ctx, Some(Box::new(Node { value, ..*h.unwrap() })), Step::Overwrote(key))],
{
    reveal_with_fuel(ins_node, 1);
    reveal_with_fuel(ins_trace, 1);
}

/// Insertion one level below the node `n`, whose key differs from `key`.
pub proof fn lemma_ins_step(n: Node, key: u32, value: String, ctx: Seq<Frame>)
    requires
        n.key != key,
    ensures
        ({
            let went_left = key < n.key;
            let down = if went_left {
                n.left
            } else {
                n.right
            };
            let f = frame_of(n, went_left);
            let rebuilt = *attach(f, Some(Box::new(ins_node(down, key, value)))).unwrap();
            &&& ins_node(Some(Box::new(n)), key, value) == balanced_node(rebuilt)
            &&& ins_trace(Some(Box::new(n)), key, value, ctx) == ins_trace(
                down,
                key,
                value,
                ctx.push(f),
            ) + fix_trace(rebuilt, ctx)
        }),
{
    reveal_with_fuel(ins_node, 1);
    reveal_with_fuel(ins_trace, 1);
}

/// Every snapshot of `s` shows a black-balanced tree.
pub open spec fn all_balanced(s: Seq<Snapshot>) -> bool {
    forall|i: int| 0 <= i < s.len() ==> black_balanced(#[trigger] s[i].tree.root)
}

pub proof fn lemma_all_balanced_concat(a: Seq<Snapshot>, b: Seq<Snapshot>)
    requires
        all_balanced(a),
        all_balanced(b),
    ensures
        all_balanced(a + b),
{
    assert forall|i: int| 0 <= i < (a + b).len() implies black_balanced(
        #[trigger] (a + b)[i].tree.root,
    ) by {
        if i < a.len() {
            assert((a + b)[i] == a[i]);
        } else {
            assert((a + b)[i] == b[i - a.len()]);
        }
    }
}

/// A snapshot of a node black-balanced with the height the path expects
/// shows a black-balanced tree.
pub proof fn lemma_shot_balanced(ctx: Seq<Frame>, a: Node, n: Node, step: Step)
    requires
        same_black(a, n),
        path_balanced(ctx, black_height(Some(Box::new(a)))),
    ensures
        all_balanced(seq![shot(ctx, Some(Box::new(n)), step)]),
{
    lemma_plug_balanced(ctx, Some(Box::new(n)));
}

pub proof fn lemma_fix_trace_balanced(h: Node, ctx: Seq<Frame>)
    requires
        fix_steps_balanced(h),
        path_balanced(ctx, black_height(Some(Box::new(h)))),
    ensures
        all_balanced(fix_trace(h, ctx)),
{
    let h1 = if is_red(h.right) && !is_red(h.left) {
        rotl(h)
    } else {
        h
    };
    let h2 = if is_red(h1.left) && left_is_red(h1.left) {
        rotr(h1)
    } else {
        h1
    };
    lemma_shot_balanced(ctx, h, h1, Step::RotatedLeft(h.key));
    lemma_shot_balanced(ctx, h, h2, Step::RotatedRight(h1.key));
    if is_red(h2.left) && is_red(h2.right) {
        lemma_shot_balanced(ctx, h, flipped(h2), Step::FlippedColors(h2.key));
    }
    let s1 = if is_red(h.right) && !is_red(h.left) {
        seq![shot(ctx, Some(Box::new(h1)), Step::RotatedLeft(h.key))]
    } else {
        Seq::empty()
    };
    let s2 = if is_red(h1.left) && left_is_red(h1.left) {
        seq![shot(ctx, Some(Box::new(h2)), Step::RotatedRight(h1.key))]
    } else {
        Seq::empty()
    };
    let s3 = if is_red(h2.left) && is_red(h2.right) {
        seq![shot(ctx, Some(Box::new(flipped(h2))), Step::FlippedColors(h2.key))]
    } else {
        Seq::empty()
    };
    lemma_all_balanced_concat(s1, s2);
    lemma_all_balanced_concat(s1 + s2, s3);
}

pub proof fn lemma_mrl_trace_balanced(h: Node, ctx: Seq<Frame>)
    requires
        mrl_steps_balanced(h),
        path_balanced(ctx, black_height(Some(Box::new(h)))),
    ensures
        all_balanced(mrl_trace(h, ctx)),
{
    let f = flipped(h);
    lemma_shot_balanced(ctx, h, f, Step::FlippedColors(h.key));
    if left_is_red(f.right) {
        let x = *f.right.unwrap();
        let h2 = Node { right: Some(Box::new(rotr(x))), ..f };
        let h3 = rotl(h2);
        lemma_shot_balanced(ctx, h, h2, Step::RotatedRight(x.key));
        lemma_shot_balanced(ctx, h, h3, Step::RotatedLeft(h.key));
        lemma_shot_balanced(ctx, h, flipped(h3), Step::FlippedColors(h3.key));
        let s1 = seq![shot(ctx, Some(Box::new(f)), Step::FlippedColors(h.key))];
        let s2 = seq![shot(ctx, Some(Box::new(h2)), Step::RotatedRight(x.key))];
        let s3 = seq![shot(ctx, Some(Box::new(h3)), Step::RotatedLeft(h.key))];
        let s4 = seq![shot(ctx, Some(Box::new(flipped(h3))), Step::FlippedColors(h3.key))];
        lemma_all_balanced_concat(s1, s2);
        lemma_all_balanced_concat(s1 + s2, s3);
        lemma_all_balanced_concat(s1 + s2 + s3, s4);
        assert(mrl_trace(h, ctx) =~= s1 + s2 + s3 + s4);
    }
}

pub proof fn lemma_mrr_trace_balanced(h: Node, ctx: Seq<Frame>)
    requires
        mrr_steps_balanced(h),
        path_balanced(ctx, black_height(Some(Box::new(h)))),
    ensures
        all_balanced(mrr_trace(h, ctx)),
{
    let f = flipped(h);
    lemma_shot_balanced(ctx, h, f, Step::FlippedColors(h.key));
    if left_is_red(f.left) {
        let h2 = rotr(f);
        lemma_shot_balanced(ctx, h, h2, Step::RotatedRight(h.key));
        lemma_shot_balanced(ctx, h, flipped(h2), Step::FlippedColors(h2.key));
        let s1 = seq![shot(ctx, Some(Box::new(f)), Step::FlippedColors(h.key))];
        let s2 = seq![shot(ctx, Some(Box::new(h2)), Step::RotatedRight(h.key))];
        let s3 = seq![shot(ctx, Some(Box::new(flipped(h2))), Step::FlippedColors(h2.key))];
        lemma_all_balanced_concat(s1, s2);
        lemma_all_balanced_concat(s1 + s2, s3);
        assert(mrr_trace(h, ctx) =~= s1 + s2 + s3);
    }
}

} // verus!
