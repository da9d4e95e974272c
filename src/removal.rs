//! Deletion from the left-leaning red-black tree: a red link is pushed down
//! ahead of the descent, the node is unlinked or replaced by its successor,
//! and each node is rebalanced on the way back up.

use vstd::prelude::*;
use crate::node::{
    black_balanced, black_height, count, flip_colors, is_red, keys_of, left_red, map_of,
    moved_red_left, moved_red_right, node_bound, ordered, red, rotate_left, rotate_right, sizes_ok,
    Node,
};
use crate::removal_shape::{
    del_post, del_pre, left_prepared, left_step, lemma_left_child_pre, lemma_left_of_key,
    lemma_left_result, lemma_min_unlink, lemma_right_child_pre, lemma_right_prep_balanced,
    lemma_right_result, lemma_root_post, lemma_root_pre, lemma_unlink, min_pre, right_prepared,
    right_rotated, right_step,
};
use crate::trace::{
    all_balanced, below_spec, del_spec, delete_trace, deleted_root, fix_trace, frame_of,
    lemma_all_balanced_concat, lemma_fix_trace_balanced, lemma_mrl_trace_balanced,
    lemma_mrr_trace_balanced, lemma_shot_balanced, min_spec, mrl_trace, mrr_trace, replace_spec,
    shot,
};
use crate::tree::RBTree;
use crate::timeline::{
    attach, frames_count, frames_ok, grows_by_operation, grows_by_steps, keys_within,
    lemma_close_operation, lemma_keys_within_push, lemma_path_balanced_push, lemma_path_push,
    lemma_plug_balanced, lemma_steps_none, lemma_steps_trans, path_balanced, path_ordered, Frame,
    Snapshot, Step, Timeline,
};

verus! {

/// Pushes a red link down to the left of `h`, recording each rewrite.
fn move_red_left(h: Box<Node>, ctx: &Vec<Frame>, tl: &mut Timeline) -> (r: Box<Node>)
    requires
        ordered(Some(h)),
        path_ordered(ctx@),
        keys_within(ctx@, Some(h)),
        sizes_ok(Some(h)),
        frames_ok(ctx@),
        frames_count(ctx@) + count(Some(h)) <= node_bound(),
        old(tl).wf(),
    ensures
        *r == moved_red_left(*h),
        keys_of(Some(r)) == keys_of(Some(h)),
        count(Some(r)) == count(Some(h)),
        ordered(Some(h)) ==> ordered(Some(r)) && map_of(Some(r)) == map_of(Some(h)) && r.key
            >= h.key,
        sizes_ok(Some(r)),
        h.left is Some ==> r.left is Some,
        final(tl).snaps() == old(tl).snaps() + mrl_trace(*h, ctx@),
        grows_by_steps(*final(tl), *old(tl)),
        final(tl).at_tail(),
{
    let ghost h0 = *h;
    let ghost tl0 = *tl;
    let k = h.key;
    let mut h = flip_colors(h);
    let t = Some(h);
    tl.checkpoint(ctx, &t, Step::FlippedColors(k));
    h = t.unwrap();
    if left_red(&h.right) {
        let ghost f = *h;
        let ghost tl1 = *tl;
        let right = h.right.take().unwrap();
        let rk = right.key;
        proof {
            assert(sizes_ok(f.right));
            assert(ordered(Some(Box::new(f))) ==> ordered(f.right));
        }
        let right = rotate_right(right);
        h.right = Some(right);
        proof {
            assert(count(h.right) == count(f.right));
            assert(sizes_ok(Some(h)));
            if ordered(Some(Box::new(f))) {
                assert(map_of(h.right) == map_of(f.right));
                assert(ordered(Some(h)));
                assert(map_of(Some(h)) =~= map_of(Some(Box::new(f))));
            }
        }
        let t = Some(h);
        tl.checkpoint(ctx, &t, Step::RotatedRight(rk));
        h = t.unwrap();
        let ghost tl2 = *tl;
        proof {
            lemma_steps_trans(tl0, tl1, tl2);
        }
        h = rotate_left(h);
        let t = Some(h);
        tl.checkpoint(ctx, &t, Step::RotatedLeft(k));
        h = t.unwrap();
        let ghost tl3 = *tl;
        proof {
            lemma_steps_trans(tl0, tl2, tl3);
            if ordered(Some(Box::new(f))) {
                assert(map_of(f.right).dom().contains(h.key));
            }
        }
        let nk = h.key;
        h = flip_colors(h);
        let t = Some(h);
        tl.checkpoint(ctx, &t, Step::FlippedColors(nk));
        h = t.unwrap();
        proof {
            lemma_steps_trans(tl0, tl3, *tl);
        }
    }
    proof {
        assert(tl.snaps() =~= tl0.snaps() + mrl_trace(h0, ctx@));
    }
    h
}

/// Pushes a red link down to the right of `h`, recording each rewrite.
fn move_red_right(h: Box<Node>, ctx: &Vec<Frame>, tl: &mut Timeline) -> (r: Box<Node>)
    requires
        ordered(Some(h)),
        path_ordered(ctx@),
        keys_within(ctx@, Some(h)),
        sizes_ok(Some(h)),
        frames_ok(ctx@),
        frames_count(ctx@) + count(Some(h)) <= node_bound(),
        old(tl).wf(),
    ensures
        *r == moved_red_right(*h),
        keys_of(Some(r)) == keys_of(Some(h)),
        count(Some(r)) == count(Some(h)),
        ordered(Some(h)) ==> ordered(Some(r)) && map_of(Some(r)) == map_of(Some(h)) && r.key
            <= h.key,
        sizes_ok(Some(r)),
        final(tl).snaps() == old(tl).snaps() + mrr_trace(*h, ctx@),
        grows_by_steps(*final(tl), *old(tl)),
        final(tl).at_tail(),
{
    let ghost h0 = *h;
    let ghost tl0 = *tl;
    let k = h.key;
    let mut h = flip_colors(h);
    let t = Some(h);
    tl.checkpoint(ctx, &t, Step::FlippedColors(k));
    h = t.unwrap();
    if left_red(&h.left) {
        let ghost f = *h;
        let ghost tl1 = *tl;
        h = rotate_right(h);
        let t = Some(h);
        tl.checkpoint(ctx, &t, Step::RotatedRight(k));
        h = t.unwrap();
        let ghost tl2 = *tl;
        proof {
            lemma_steps_trans(tl0, tl1, tl2);
            if ordered(Some(Box::new(f))) {
                assert(map_of(f.left).dom().contains(h.key));
            }
        }
        let nk = h.key;
        h = flip_colors(h);
        let t = Some(h);
        tl.checkpoint(ctx, &t, Step::FlippedColors(nk));
        h = t.unwrap();
        proof {
            lemma_steps_trans(tl0, tl2, *tl);
        }
    }
    proof {
        assert(tl.snaps() =~= tl0.snaps() + mrr_trace(h0, ctx@));
    }
    h
}

/// Rebuilds the ancestor `f` around the subtree `c`.
fn rejoin(f: Frame, c: Option<Box<Node>>) -> (r: Box<Node>)
    requires
        sizes_ok(f.other),
        sizes_ok(c),
        1 + count(f.other) + count(c) <= node_bound(),
    ensures
        Some(r) == attach(f, c),
        sizes_ok(Some(r)),
        count(Some(r)) == 1 + count(f.other) + count(c),
{
    let os: u64 = match &f.other {
        Some(o) => o.size,
        None => 0,
    };
    let cs: u64 = match &c {
        Some(n) => n.size,
        None => 0,
    };
    let Frame { key, value, color, went_left, other } = f;
    if went_left {
        Box::new(Node { key, value, color, size: 1 + os + cs, left: c, right: other })
    } else {
        Box::new(Node { key, value, color, size: 1 + os + cs, left: other, right: c })
    }
}

/// Removes the smallest key below `h`, whose ancestors `ctx` holds, and
/// returns the new subtree with the removed key and value.
fn delete_min(h: Box<Node>, ctx: &mut Vec<Frame>, tl: &mut Timeline) -> (r: (
    Option<Box<Node>>,
    u32,
    String,
))
    requires
        path_ordered(old(ctx)@),
        keys_within(old(ctx)@, Some(h)),
        ordered(Some(h)),
        sizes_ok(Some(h)),
        frames_ok(old(ctx)@),
        frames_count(old(ctx)@) + count(Some(h)) <= node_bound(),
        old(tl).wf(),
    ensures
        ordered(r.0),
        sizes_ok(r.0),
        map_of(Some(h)).dom().contains(r.1),
        map_of(Some(h))[r.1] == r.2,
        forall|k: u32| map_of(Some(h)).dom().contains(k) ==> r.1 <= k,
        map_of(r.0) == map_of(Some(h)).remove(r.1),
        count(r.0) + 1 == count(Some(h)),
        min_pre(*h) ==> del_post(*h, r.0),
        r.0 == min_spec(*h, old(ctx)@).0,
        r.1 == min_spec(*h, old(ctx)@).1,
        r.2 == min_spec(*h, old(ctx)@).2,
        final(tl).snaps() == old(tl).snaps() + min_spec(*h, old(ctx)@).3,
        min_pre(*h) && path_balanced(old(ctx)@, black_height(Some(h))) ==> all_balanced(
            min_spec(*h, old(ctx)@).3,
        ),
        final(ctx)@ == old(ctx)@,
        grows_by_steps(*final(tl), *old(tl)),
        final(tl).at_tail(),
    decreases count(Some(h)), 1nat,
{
    let ghost tl0 = *tl;
    let ghost h0 = *h;
    let mut h = h;
    if h.left.is_none() {
        let ghost g = *h;
        proof {
            if min_pre(h0) {
                lemma_min_unlink(h0);
            }
        }
        let Node { key, value, color: _, size: _, left: _, right } = *h;
        proof {
            assert(sizes_ok(g.right));
            assert(ordered(g.right));
            assert(map_of(g.left) =~= Map::<u32, String>::empty());
            assert(count(g.left) == 0);
            assert(map_of(right) =~= map_of(Some(h)).remove(key));
        }
        tl.checkpoint(ctx, &right, Step::Removed(key));
        proof {
            crate::trace::lemma_min_spec_leaf(h0, old(ctx)@);
            assert(tl.snaps() =~= old(tl).snaps() + min_spec(h0, old(ctx)@).3);
            if min_pre(h0) && path_balanced(old(ctx)@, black_height(Some(Box::new(h0)))) {
                lemma_plug_balanced(old(ctx)@, right);
            }
        }
        return (right, key, value);
    }
    if !red(&h.left) && !left_red(&h.left) {
        h = move_red_left(h, ctx, tl);
    }
    let ghost tl1 = *tl;
    proof {
        assert(*h == left_prepared(h0));
        crate::trace::lemma_left_prepared_count(h0);
        assert(count(Some(h)) == count(Some(Box::new(h0))));
        if min_pre(h0) {
            lemma_left_child_pre(h0, 0);
        }
    }
    let r = delete_min_below(h, Ghost(h0), ctx, tl);
    proof {
        lemma_steps_trans(tl0, tl1, *tl);
        crate::trace::lemma_min_spec_step(h0, old(ctx)@);
        assert(tl.snaps() =~= old(tl).snaps() + min_spec(h0, old(ctx)@).3);
        if min_pre(h0) && path_balanced(old(ctx)@, black_height(Some(Box::new(h0)))) {
            let n = left_prepared(h0);
            let m = min_spec(*n.left.unwrap(), old(ctx)@.push(frame_of(n, true)));
            let t0 = crate::trace::left_prep_trace(h0, old(ctx)@);
            if !is_red(h0.left) && !crate::node::left_is_red(h0.left) {
                lemma_mrl_trace_balanced(h0, old(ctx)@);
            }
            lemma_all_balanced_concat(t0, below_spec(n, true, (m.0, m.3), old(ctx)@).1);
        }
    }
    r
}

/// Removes the smallest key from the left subtree of `h` and rebalances `h`.
fn delete_min_below(
    h: Box<Node>,
    Ghost(h0): Ghost<Node>,
    ctx: &mut Vec<Frame>,
    tl: &mut Timeline,
) -> (r: (Option<Box<Node>>, u32, String))
    requires
        path_ordered(old(ctx)@),
        keys_within(old(ctx)@, Some(h)),
        ordered(Some(h)),
        sizes_ok(Some(h)),
        h.left is Some,
        frames_ok(old(ctx)@),
        frames_count(old(ctx)@) + count(Some(h)) <= node_bound(),
        old(tl).wf(),
    ensures
        ordered(r.0),
        sizes_ok(r.0),
        map_of(Some(h)).dom().contains(r.1),
        map_of(Some(h))[r.1] == r.2,
        forall|k: u32| map_of(Some(h)).dom().contains(k) ==> r.1 <= k,
        map_of(r.0) == map_of(Some(h)).remove(r.1),
        count(r.0) + 1 == count(Some(h)),
        left_step(h0, *h) ==> del_post(h0, r.0),
        ({
            let m = min_spec(*h.left.unwrap(), old(ctx)@.push(frame_of(*h, true)));
            let b = below_spec(*h, true, (m.0, m.3), old(ctx)@);
            &&& r.0 == b.0
            &&& r.1 == m.1
            &&& r.2 == m.2
            &&& final(tl).snaps() == old(tl).snaps() + b.1
            &&& (left_step(h0, *h) && path_balanced(
                old(ctx)@,
                black_height(Some(Box::new(h0))),
            ) ==> all_balanced(b.1))
        }),
        final(ctx)@ == old(ctx)@,
        grows_by_steps(*final(tl), *old(tl)),
        final(tl).at_tail(),
    decreases count(Some(h)), 0nat,
{
    let ghost tl1 = *tl;
    let ghost g = *h;
    proof {
        assert(ordered(g.left) && ordered(g.right));
        assert(sizes_ok(g.left) && sizes_ok(g.right));
        if left_step(h0, g) {
            lemma_left_child_pre(h0, 0);
        }
    }
    let Node { key: nk, value: nv, color: nc, size: _, left, right } = *h;
    let down = left.unwrap();
    let ghost f = Frame { key: nk, value: nv, color: nc, went_left: true, other: right };
    proof {
        crate::tree::lemma_frames_push(ctx@, f);
        assert(map_of(Some(Box::new(g))) == map_of(g.left).union_prefer_right(map_of(g.right)).insert(
            g.key,
            g.value,
        ));
        assert(ordered(g.left) && ordered(g.right));
        crate::timeline::lemma_keys_within_node(ctx@, g);
        lemma_path_push(ctx@, f);
        lemma_keys_within_push(ctx@, f, Some(down));
        if left_step(h0, g) && path_balanced(ctx@, black_height(Some(Box::new(h0)))) {
            assert(black_balanced(g.left) && black_balanced(g.right));
            lemma_path_balanced_push(ctx@, f, black_height(Some(down)));
        }
    }
    ctx.push(Frame { key: nk, value: nv, color: nc, went_left: true, other: right });
    let (c, mk, mv) = delete_min(down, ctx, tl);
    let fr = ctx.pop().unwrap();
    proof {
        assert(ctx@ =~= old(ctx)@);
        assert(fr == f);
    }
    let ghost tl2 = *tl;
    let rebuilt = rejoin(fr, c);
    proof {
        let hm = map_of(Some(h));
        assert(hm == map_of(g.left).union_prefer_right(map_of(g.right)).insert(nk, nv));
        assert(map_of(g.left).dom().contains(mk));
        assert forall|k: u32| hm.dom().contains(k) implies mk <= k by {
            if map_of(g.right).dom().contains(k) {
            } else if k != nk {
                assert(map_of(g.left).dom().contains(k));
            }
        }
        assert(*rebuilt == Node { left: c, size: rebuilt.size, ..g });
        assert forall|k: u32| map_of(c).dom().contains(k) implies k < nk by {
            assert(map_of(g.left).dom().contains(k));
        }
        assert(ordered(Some(rebuilt)));
        assert(map_of(Some(rebuilt)) =~= hm.remove(mk));
    }
    let ghost m = *rebuilt;
    let r = crate::tree::fix_up(rebuilt, ctx, tl);
    proof {
        lemma_steps_trans(tl1, tl2, *tl);
        if left_step(h0, g) {
            lemma_left_result(h0, c, m);
        }
        assert(f == frame_of(g, true));
        let mm = min_spec(*g.left.unwrap(), old(ctx)@.push(frame_of(g, true)));
        assert(tl.snaps() =~= old(tl).snaps() + below_spec(g, true, (mm.0, mm.3), old(ctx)@).1);
        if left_step(h0, g) && path_balanced(old(ctx)@, black_height(Some(Box::new(h0)))) {
            lemma_fix_trace_balanced(m, old(ctx)@);
            lemma_all_balanced_concat(mm.3, fix_trace(m, old(ctx)@));
        }
    }
    (Some(r), mk, mv)
}

/// Replaces the node `h`, which holds the key being deleted and has a right
/// subtree, by the smallest node of that subtree.
fn replace_by_successor(
    h: Box<Node>,
    key: u32,
    Ghost(h0): Ghost<Node>,
    ctx: &mut Vec<Frame>,
    tl: &mut Timeline,
) -> (r: Box<Node>)
    requires
        path_ordered(old(ctx)@),
        keys_within(old(ctx)@, Some(h)),
        ordered(Some(h)),
        sizes_ok(Some(h)),
        h.right is Some,
        frames_ok(old(ctx)@),
        frames_count(old(ctx)@) + count(Some(h)) <= node_bound(),
        old(tl).wf(),
    ensures
        ordered(Some(r)),
        sizes_ok(Some(r)),
        map_of(Some(r)) == map_of(Some(h)).remove(h.key),
        count(Some(r)) + 1 == count(Some(h)),
        right_step(h0, *h, key) && key == h.key ==> del_post(h0, Some(r)),
        Some(r) == replace_spec(*h, old(ctx)@).0,
        final(tl).snaps() == old(tl).snaps() + replace_spec(*h, old(ctx)@).1,
        right_step(h0, *h, key) && key == h.key && path_balanced(
            old(ctx)@,
            black_height(Some(Box::new(h0))),
        ) ==> all_balanced(replace_spec(*h, old(ctx)@).1),
        final(ctx)@ == old(ctx)@,
        grows_by_steps(*final(tl), *old(tl)),
        final(tl).at_tail(),
{
    let ghost tl0 = *tl;
    let ghost g = *h;
    proof {
        assert(ordered(g.left) && ordered(g.right));
        assert(sizes_ok(g.left) && sizes_ok(g.right));
        if right_step(h0, g, key) && key == g.key {
            lemma_right_child_pre(h0, key);
        }
    }
    let Node { key: nk, value: nv, color: nc, size: _, left, right } = *h;
    let down = right.unwrap();
    let ghost f = Frame { key: nk, value: nv, color: nc, went_left: false, other: left };
    proof {
        crate::tree::lemma_frames_push(ctx@, f);
        assert(map_of(Some(Box::new(g))) == map_of(g.left).union_prefer_right(map_of(g.right)).insert(
            g.key,
            g.value,
        ));
        assert(ordered(g.left) && ordered(g.right));
        crate::timeline::lemma_keys_within_node(ctx@, g);
        lemma_path_push(ctx@, f);
        lemma_keys_within_push(ctx@, f, Some(down));
        if right_step(h0, g, key) && key == g.key && path_balanced(
            ctx@,
            black_height(Some(Box::new(h0))),
        ) {
            lemma_right_prep_balanced(h0, key);
            assert(black_balanced(g.left) && black_balanced(g.right));
            lemma_path_balanced_push(ctx@, f, black_height(Some(down)));
        }
    }
    ctx.push(Frame { key: nk, value: nv, color: nc, went_left: false, other: left });
    let (c, mk, mv) = delete_min(down, ctx, tl);
    let fr = ctx.pop().unwrap();
    proof {
        assert(ctx@ =~= old(ctx)@);
        assert(fr == f);
    }
    let Frame { key: _, value: _, color, went_left, other } = fr;
    let ghost f2 = Frame { key: mk, value: mv, color, went_left, other };
    let rebuilt = rejoin(Frame { key: mk, value: mv, color, went_left, other }, c);
    proof {
        let hm = map_of(Some(h));
        assert(hm == map_of(g.left).union_prefer_right(map_of(g.right)).insert(nk, nv));
        assert(map_of(g.right).dom().contains(mk));
        assert(nk < mk);
        assert forall|k: u32| map_of(g.left).dom().contains(k) implies k < mk by {}
        assert forall|k: u32| map_of(c).dom().contains(k) implies mk < k by {
            assert(map_of(g.right).dom().contains(k));
        }
        assert(ordered(Some(rebuilt)));
        assert(!map_of(g.left).dom().contains(nk));
        assert(!map_of(g.right).dom().contains(nk));
        assert(map_of(Some(rebuilt)) =~= hm.remove(nk));
    }
    let ghost m = *rebuilt;
    let t = Some(rebuilt);
    tl.checkpoint(ctx, &t, Step::Replaced(nk));
    let ghost tl1 = *tl;
    let r = crate::tree::fix_up(t.unwrap(), ctx, tl);
    proof {
        lemma_steps_trans(tl0, tl1, *tl);
        if right_step(h0, g, key) && key == g.key {
            lemma_right_result(h0, key, c, m);
        }
        assert(f == frame_of(g, false));
        assert(f2 == Frame { key: mk, value: mv, ..f });
        assert(tl.snaps() =~= old(tl).snaps() + replace_spec(g, old(ctx)@).1);
        if right_step(h0, g, key) && key == g.key && path_balanced(
            old(ctx)@,
            black_height(Some(Box::new(h0))),
        ) {
            let mm = min_spec(*g.right.unwrap(), old(ctx)@.push(frame_of(g, false)));
            let s2 = seq![shot(old(ctx)@, Some(Box::new(m)), Step::Replaced(g.key))];
            lemma_shot_balanced(old(ctx)@, h0, m, Step::Replaced(g.key));
            lemma_fix_trace_balanced(m, old(ctx)@);
            lemma_all_balanced_concat(mm.3, s2);
            lemma_all_balanced_concat(mm.3 + s2, fix_trace(m, old(ctx)@));
        }
    }
    r
}

/// Unlinks `h`, which holds the key being deleted and has no right subtree.
fn unlink(h: Box<Node>, ctx: &Vec<Frame>, tl: &mut Timeline) -> (r: Option<Box<Node>>)
    requires
        ordered(Some(h)),
        path_ordered(ctx@),
        keys_within(ctx@, Some(h)),
        ordered(Some(h)),
        sizes_ok(Some(h)),
        h.right is None,
        frames_ok(ctx@),
        frames_count(ctx@) + count(Some(h)) <= node_bound(),
        old(tl).wf(),
    ensures
        r == h.left,
        final(tl).snaps() == old(tl).snaps() + seq![shot(ctx@, h.left, Step::Removed(h.key))],
        ordered(r),
        sizes_ok(r),
        map_of(r) == map_of(Some(h)).remove(h.key),
        count(r) + 1 == count(Some(h)),
        grows_by_steps(*final(tl), *old(tl)),
        final(tl).at_tail(),
{
    let ghost g = *h;
    let Node { key, value: _, color: _, size: _, left, right: _ } = *h;
    proof {
        assert(sizes_ok(g.left) && ordered(g.left));
        assert(!map_of(g.left).dom().contains(key));
        assert(map_of(g.right) =~= Map::<u32, String>::empty());
        assert(count(g.right) == 0);
        assert(map_of(left) =~= map_of(Some(h)).remove(key));
    }
    tl.checkpoint(ctx, &left, Step::Removed(key));
    proof {
        assert(tl.snaps() =~= old(tl).snaps() + seq![shot(ctx@, g.left, Step::Removed(key))]);
    }
    left
}

/// What deleting `key` from the child of `n` on the side `went_left` yields.
pub open spec fn below_outcome(n: Node, key: u32, went_left: bool, ctx: Seq<Frame>) -> (
    Option<Box<Node>>,
    Seq<crate::timeline::Snapshot>,
) {
    let child = if went_left {
        *n.left.unwrap()
    } else {
        *n.right.unwrap()
    };
    del_spec(child, key, ctx.push(frame_of(n, went_left)))
}

/// Rebuilding `g` around `c`, its child on the side `went_left` with `key`
/// deleted, keeps the order and deletes `key` from the whole.
proof fn lemma_below_rebuilt(
    g: Node,
    key: u32,
    went_left: bool,
    c: Option<Box<Node>>,
    size: u64,
)
    requires
        ordered(Some(Box::new(g))),
        ordered(c),
        went_left ==> map_of(g.left).dom().contains(key) && map_of(c) == map_of(g.left).remove(
            key,
        ),
        !went_left ==> map_of(g.right).dom().contains(key) && map_of(c) == map_of(
            g.right,
        ).remove(key),
    ensures
        ({
            let m = if went_left {
                Node { left: c, size, ..g }
            } else {
                Node { right: c, size, ..g }
            };
            ordered(Some(Box::new(m))) && map_of(Some(Box::new(m))) == map_of(
                Some(Box::new(g)),
            ).remove(key)
        }),
{
    let hm = map_of(Some(Box::new(g)));
    assert(hm == map_of(g.left).union_prefer_right(map_of(g.right)).insert(g.key, g.value));
    assert(ordered(g.left) && ordered(g.right));
    if went_left {
        let m = Node { left: c, size, ..g };
        assert forall|k: u32| map_of(c).dom().contains(k) implies k < g.key by {
            assert(map_of(g.left).dom().contains(k));
        }
        assert(!map_of(g.right).dom().contains(key));
        assert(ordered(Some(Box::new(m))));
        assert(map_of(Some(Box::new(m))) =~= hm.remove(key));
    } else {
        let m = Node { right: c, size, ..g };
        assert forall|k: u32| map_of(c).dom().contains(k) implies g.key < k by {
            assert(map_of(g.right).dom().contains(k));
        }
        assert(!map_of(g.left).dom().contains(key));
        assert(ordered(Some(Box::new(m))));
        assert(map_of(Some(Box::new(m))) =~= hm.remove(key));
    }
}

/// Deletes `key` from the child of `h` on the side `went_left`, where it is
/// present, and rebalances `h`.
fn delete_below(
    h: Box<Node>,
    key: u32,
    went_left: bool,
    Ghost(h0): Ghost<Node>,
    ctx: &mut Vec<Frame>,
    tl: &mut Timeline,
) -> (r: Box<Node>)
    requires
        path_ordered(old(ctx)@),
        keys_within(old(ctx)@, Some(h)),
        ordered(Some(h)),
        sizes_ok(Some(h)),
        went_left ==> map_of(h.left).dom().contains(key),
        !went_left ==> map_of(h.right).dom().contains(key),
        frames_ok(old(ctx)@),
        frames_count(old(ctx)@) + count(Some(h)) <= node_bound(),
        old(tl).wf(),
    ensures
        ordered(Some(r)),
        sizes_ok(Some(r)),
        map_of(Some(r)) == map_of(Some(h)).remove(key),
        count(Some(r)) + 1 == count(Some(h)),
        went_left && left_step(h0, *h) ==> del_post(h0, Some(r)),
        !went_left && right_step(h0, *h, key) ==> del_post(h0, Some(r)),
        Some(r) == below_spec(*h, went_left, below_outcome(*h, key, went_left, old(ctx)@), old(
            ctx,
        )@).0,
        final(tl).snaps() == old(tl).snaps() + below_spec(
            *h,
            went_left,
            below_outcome(*h, key, went_left, old(ctx)@),
            old(ctx)@,
        ).1,
        (went_left && left_step(h0, *h) || !went_left && right_step(h0, *h, key)) && path_balanced(
            old(ctx)@,
            black_height(Some(Box::new(h0))),
        ) ==> all_balanced(
            below_spec(*h, went_left, below_outcome(*h, key, went_left, old(ctx)@), old(ctx)@).1,
        ),
        final(ctx)@ == old(ctx)@,
        grows_by_steps(*final(tl), *old(tl)),
        final(tl).at_tail(),
    decreases count(Some(h)), 0nat,
{
    let ghost tl0 = *tl;
    let ghost g = *h;
    proof {
        if went_left && left_step(h0, g) {
            lemma_left_child_pre(h0, key);
        }
        if !went_left && right_step(h0, g, key) {
            lemma_right_child_pre(h0, key);
        }
        assert(sizes_ok(g.left) && sizes_ok(g.right));
    }
    let Node { key: nk, value: nv, color: nc, size: _, left, right } = *h;
    let (down, other) = if went_left {
        (left, right)
    } else {
        (right, left)
    };
    let down = down.unwrap();
    let ghost f = Frame { key: nk, value: nv, color: nc, went_left, other };
    proof {
        crate::tree::lemma_frames_push(ctx@, f);
        assert(map_of(Some(Box::new(g))) == map_of(g.left).union_prefer_right(map_of(g.right)).insert(
            g.key,
            g.value,
        ));
        assert(ordered(g.left) && ordered(g.right));
        crate::timeline::lemma_keys_within_node(ctx@, g);
        lemma_path_push(ctx@, f);
        lemma_keys_within_push(ctx@, f, Some(down));
        if (went_left && left_step(h0, g) || !went_left && right_step(h0, g, key)) && path_balanced(
            ctx@,
            black_height(Some(Box::new(h0))),
        ) {
            if !went_left {
                lemma_right_prep_balanced(h0, key);
            }
            assert(black_balanced(g.left) && black_balanced(g.right));
            lemma_path_balanced_push(ctx@, f, black_height(Some(down)));
        }
    }
    ctx.push(Frame { key: nk, value: nv, color: nc, went_left, other });
    let c = delete_rec(down, key, ctx, tl);
    let fr = ctx.pop().unwrap();
    proof {
        assert(ctx@ =~= old(ctx)@);
        assert(fr == f);
    }
    let ghost tl1 = *tl;
    let rebuilt = rejoin(fr, c);
    proof {
        if went_left {
            assert(*rebuilt == Node { left: c, size: rebuilt.size, ..g });
        } else {
            assert(*rebuilt == Node { right: c, size: rebuilt.size, ..g });
        }
        lemma_below_rebuilt(g, key, went_left, c, rebuilt.size);
    }
    let ghost m = *rebuilt;
    let r = crate::tree::fix_up(rebuilt, ctx, tl);
    proof {
        lemma_steps_trans(tl0, tl1, *tl);
        if went_left && left_step(h0, g) {
            lemma_left_result(h0, c, m);
        }
        if !went_left && right_step(h0, g, key) {
            lemma_right_result(h0, key, c, m);
        }
        assert(f == frame_of(g, went_left));
        if (went_left && left_step(h0, g) || !went_left && right_step(h0, g, key)) && path_balanced(
            old(ctx)@,
            black_height(Some(Box::new(h0))),
        ) {
            lemma_fix_trace_balanced(m, old(ctx)@);
            lemma_all_balanced_concat(
                below_outcome(g, key, went_left, old(ctx)@).1,
                fix_trace(m, old(ctx)@),
            );
        }
        assert(tl.snaps() =~= old(tl).snaps() + below_spec(
            g,
            went_left,
            below_outcome(g, key, went_left, old(ctx)@),
            old(ctx)@,
        ).1);
    }
    r
}

/// Deletes `key`, which is present below `h`, whose ancestors `ctx` holds,
/// and returns the new subtree, rebalanced.
fn delete_rec(h: Box<Node>, key: u32, ctx: &mut Vec<Frame>, tl: &mut Timeline) -> (r: Option<
    Box<Node>,
>)
    requires
        path_ordered(old(ctx)@),
        keys_within(old(ctx)@, Some(h)),
        ordered(Some(h)),
        sizes_ok(Some(h)),
        map_of(Some(h)).dom().contains(key),
        frames_ok(old(ctx)@),
        frames_count(old(ctx)@) + count(Some(h)) <= node_bound(),
        old(tl).wf(),
    ensures
        ordered(r),
        sizes_ok(r),
        map_of(r) == map_of(Some(h)).remove(key),
        count(r) + 1 == count(Some(h)),
        del_pre(*h, key) ==> del_post(*h, r),
        r == del_spec(*h, key, old(ctx)@).0,
        final(tl).snaps() == old(tl).snaps() + del_spec(*h, key, old(ctx)@).1,
        del_pre(*h, key) && path_balanced(old(ctx)@, black_height(Some(h))) ==> all_balanced(
            del_spec(*h, key, old(ctx)@).1,
        ),
        final(ctx)@ == old(ctx)@,
        grows_by_steps(*final(tl), *old(tl)),
        final(tl).at_tail(),
    decreases count(Some(h)), 2nat,
{
    if key < h.key {
        delete_left(h, key, ctx, tl)
    } else {
        delete_right(h, key, ctx, tl)
    }
}

/// Deletes `key`, present below `h` and smaller than its key.
fn delete_left(h: Box<Node>, key: u32, ctx: &mut Vec<Frame>, tl: &mut Timeline) -> (r: Option<
    Box<Node>,
>)
    requires
        path_ordered(old(ctx)@),
        keys_within(old(ctx)@, Some(h)),
        key < h.key,
        ordered(Some(h)),
        sizes_ok(Some(h)),
        map_of(Some(h)).dom().contains(key),
        frames_ok(old(ctx)@),
        frames_count(old(ctx)@) + count(Some(h)) <= node_bound(),
        old(tl).wf(),
    ensures
        ordered(r),
        sizes_ok(r),
        map_of(r) == map_of(Some(h)).remove(key),
        count(r) + 1 == count(Some(h)),
        del_pre(*h, key) ==> del_post(*h, r),
        r == del_spec(*h, key, old(ctx)@).0,
        final(tl).snaps() == old(tl).snaps() + del_spec(*h, key, old(ctx)@).1,
        del_pre(*h, key) && path_balanced(old(ctx)@, black_height(Some(h))) ==> all_balanced(
            del_spec(*h, key, old(ctx)@).1,
        ),
        final(ctx)@ == old(ctx)@,
        grows_by_steps(*final(tl), *old(tl)),
        final(tl).at_tail(),
    decreases count(Some(h)), 1nat,
{
    let ghost tl0 = *tl;
    let ghost h0 = *h;
    let mut h = h;
    if !red(&h.left) && !left_red(&h.left) {
        h = move_red_left(h, ctx, tl);
    }
    let ghost tl1 = *tl;
    proof {
        let g = *h;
        assert(map_of(Some(h)) == map_of(g.left).union_prefer_right(map_of(g.right)).insert(
            g.key,
            g.value,
        ));
        assert(!map_of(g.right).dom().contains(key));
        assert(map_of(Some(Box::new(h0))) == map_of(h0.left).union_prefer_right(
            map_of(h0.right),
        ).insert(h0.key, h0.value));
        assert(!map_of(h0.right).dom().contains(key));
        assert(h0.left is Some);
        if del_pre(h0, key) {
            lemma_left_of_key(h0, key);
            assert(left_step(h0, g));
        }
    }
    let r = delete_below(h, key, true, Ghost(h0), ctx, tl);
    proof {
        lemma_steps_trans(tl0, tl1, *tl);
        crate::trace::lemma_del_spec_step(h0, key, old(ctx)@);
        assert(tl.snaps() =~= old(tl).snaps() + del_spec(h0, key, old(ctx)@).1);
        if del_pre(h0, key) && path_balanced(old(ctx)@, black_height(Some(Box::new(h0)))) {
            lemma_left_child_pre(h0, key);
            if !is_red(h0.left) && !crate::node::left_is_red(h0.left) {
                lemma_mrl_trace_balanced(h0, old(ctx)@);
            }
            let n = left_prepared(h0);
            lemma_all_balanced_concat(
                crate::trace::left_prep_trace(h0, old(ctx)@),
                below_spec(n, true, below_outcome(n, key, true, old(ctx)@), old(ctx)@).1,
            );
        }
    }
    Some(r)
}

/// Deletes `key`, present below `h` and not smaller than its key.
fn delete_right(h: Box<Node>, key: u32, ctx: &mut Vec<Frame>, tl: &mut Timeline) -> (r: Option<
    Box<Node>,
>)
    requires
        path_ordered(old(ctx)@),
        keys_within(old(ctx)@, Some(h)),
        key >= h.key,
        ordered(Some(h)),
        sizes_ok(Some(h)),
        map_of(Some(h)).dom().contains(key),
        frames_ok(old(ctx)@),
        frames_count(old(ctx)@) + count(Some(h)) <= node_bound(),
        old(tl).wf(),
    ensures
        ordered(r),
        sizes_ok(r),
        map_of(r) == map_of(Some(h)).remove(key),
        count(r) + 1 == count(Some(h)),
        del_pre(*h, key) ==> del_post(*h, r),
        r == del_spec(*h, key, old(ctx)@).0,
        final(tl).snaps() == old(tl).snaps() + del_spec(*h, key, old(ctx)@).1,
        del_pre(*h, key) && path_balanced(old(ctx)@, black_height(Some(h))) ==> all_balanced(
            del_spec(*h, key, old(ctx)@).1,
        ),
        final(ctx)@ == old(ctx)@,
        grows_by_steps(*final(tl), *old(tl)),
        final(tl).at_tail(),
    decreases count(Some(h)), 1nat,
{
    let ghost tl0 = *tl;
    let ghost h0 = *h;
    let mut h = h;
    if red(&h.left) {
        let ghost g = *h;
        let k = h.key;
        h = rotate_right(h);
        let t = Some(h);
        tl.checkpoint(ctx, &t, Step::RotatedRight(k));
        h = t.unwrap();
        proof {
            assert(map_of(g.left).dom().contains(h.key));
        }
    }
    let ghost tl1 = *tl;
    let ghost n1 = *h;
    let ghost t1 = crate::trace::right_rot_trace(h0, old(ctx)@);
    proof {
        assert(n1 == right_rotated(h0));
        assert(key >= n1.key);
        if del_pre(h0, key) && path_balanced(old(ctx)@, black_height(Some(Box::new(h0)))) {
            lemma_right_prep_balanced(h0, key);
            if is_red(h0.left) {
                lemma_shot_balanced(old(ctx)@, h0, n1, Step::RotatedRight(h0.key));
            }
            assert(all_balanced(t1));
        }
    }
    if key == h.key && h.right.is_none() {
        proof {
            if del_pre(h0, key) {
                lemma_unlink(h0, key);
            }
        }
        let r = unlink(h, ctx, tl);
        proof {
            lemma_steps_trans(tl0, tl1, *tl);
            crate::trace::lemma_del_spec_step(h0, key, old(ctx)@);
            assert(tl.snaps() =~= old(tl).snaps() + del_spec(h0, key, old(ctx)@).1);
            if del_pre(h0, key) && path_balanced(old(ctx)@, black_height(Some(Box::new(h0)))) {
                lemma_plug_balanced(old(ctx)@, n1.left);
                lemma_all_balanced_concat(
                    t1,
                    seq![shot(old(ctx)@, n1.left, Step::Removed(n1.key))],
                );
            }
        }
        return r;
    }
    proof {
        assert(ordered(n1.left) && ordered(n1.right));
        assert(map_of(Some(Box::new(n1))) == map_of(n1.left).union_prefer_right(
            map_of(n1.right),
        ).insert(n1.key, n1.value));
        if key != n1.key {
            assert(!map_of(n1.left).dom().contains(key));
            assert(map_of(n1.right).dom().contains(key));
        }
        assert(n1.right is Some);
        if h0.left is Some {
            assert(ordered(h0.left));
            assert(map_of(h0.left).dom().contains(h0.left.unwrap().key));
        }
    }
    if !red(&h.right) && !left_red(&h.right) {
        h = move_red_right(h, ctx, tl);
    }
    let ghost tl2 = *tl;
    let ghost t2 = t1 + crate::trace::right_prep_trace(n1, old(ctx)@);
    proof {
        if del_pre(h0, key) && path_balanced(old(ctx)@, black_height(Some(Box::new(h0)))) {
            if !is_red(n1.right) && !crate::node::left_is_red(n1.right) {
                lemma_mrr_trace_balanced(n1, old(ctx)@);
            }
            lemma_all_balanced_concat(t1, crate::trace::right_prep_trace(n1, old(ctx)@));
        }
        lemma_steps_trans(tl0, tl1, tl2);
        assert(*h == right_prepared(h0));
        if del_pre(h0, key) {
            assert(right_step(h0, *h, key));
            lemma_right_child_pre(h0, key);
        }
    }
    if key == h.key {
        if h.right.is_none() {
            let r = unlink(h, ctx, tl);
            proof {
                lemma_steps_trans(tl0, tl2, *tl);
                crate::trace::lemma_del_spec_step(h0, key, old(ctx)@);
                assert(tl.snaps() =~= old(tl).snaps() + del_spec(h0, key, old(ctx)@).1);
            }
            return r;
        }
        let ghost n2 = *h;
        let r = replace_by_successor(h, key, Ghost(h0), ctx, tl);
        proof {
            lemma_steps_trans(tl0, tl2, *tl);
            crate::trace::lemma_del_spec_step(h0, key, old(ctx)@);
            assert(tl.snaps() =~= old(tl).snaps() + del_spec(h0, key, old(ctx)@).1);
            if del_pre(h0, key) && path_balanced(old(ctx)@, black_height(Some(Box::new(h0)))) {
                lemma_all_balanced_concat(t2, replace_spec(n2, old(ctx)@).1);
            }
        }
        return Some(r);
    }
    proof {
        let g = *h;
        assert(map_of(Some(h)) == map_of(g.left).union_prefer_right(map_of(g.right)).insert(
            g.key,
            g.value,
        ));
        assert(!map_of(g.left).dom().contains(key));
    }
    let ghost n2 = *h;
    let r = delete_below(h, key, false, Ghost(h0), ctx, tl);
    proof {
        lemma_steps_trans(tl0, tl2, *tl);
        crate::trace::lemma_del_spec_step(h0, key, old(ctx)@);
        assert(tl.snaps() =~= old(tl).snaps() + del_spec(h0, key, old(ctx)@).1);
        if del_pre(h0, key) && path_balanced(old(ctx)@, black_height(Some(Box::new(h0)))) {
            lemma_all_balanced_concat(
                t2,
                below_spec(n2, false, below_outcome(n2, key, false, old(ctx)@), old(ctx)@).1,
            );
        }
    }
    Some(r)
}

impl RBTree {
    /// Removes `key` and its value, recording every step on `tl` and ending
    /// with a snapshot of the finished tree. When `key` is absent nothing
    /// changes: neither the tree, nor the timeline, nor the status.
    pub fn delete(&mut self, key: u32, tl: &mut Timeline)
        requires
            old(self).wf(),
            old(tl).wf(),
        ensures
            final(self).wf(),
            old(self).is_llrb() ==> final(self).is_llrb(),
            final(self)@ == old(self)@.remove(key),
            !old(self)@.dom().contains(key) ==> *final(self) == *old(self) && *final(tl) == *old(
                tl,
            ),
            old(self)@.dom().contains(key) ==> {
                &&& grows_by_operation(*final(tl), *old(tl))
                &&& final(tl).snaps().last() == (Snapshot {
                    tree: *final(self),
                    step: Step::Deleted(key),
                })
                &&& final(tl).at_tail()
                &&& final(tl).status_now() == Step::Deleted(key)
                &&& final(self).root == deleted_root(old(self).root, key)
                &&& final(tl).snaps() == old(tl).snaps() + delete_trace(old(self).root, key)
                &&& old(self).is_llrb() ==> all_balanced(delete_trace(old(self).root, key))
            },
    {
        if !self.contains(key) {
            proof {
                assert(old(self)@.remove(key) =~= old(self)@);
            }
            return;
        }
        let ghost tl00 = *tl;
        tl.begin(Step::Deleting(key));
        let ghost tl0 = *tl;
        let mut root = self.root.take().unwrap();
        let ghost r0 = *root;
        proof {
            crate::tree::lemma_count_bound(Some(root));
            if old(self).is_llrb() {
                lemma_root_pre(r0, key);
            }
        }
        if !red(&root.left) && !red(&root.right) {
            root.color = crate::node::Color::Red;
        }
        let ghost r1 = *root;
        proof {
            assert(r1 == crate::trace::reddened(r0));
        }
        let mut ctx: Vec<Frame> = Vec::new();
        let r = delete_rec(root, key, &mut ctx, tl);
        let ghost tl1 = *tl;
        self.root = match r {
            Some(mut n) => {
                let ghost before = *n;
                n.color = crate::node::Color::Black;
                proof {
                    if old(self).is_llrb() {
                        lemma_root_post(r1, before);
                        assert(*n == Node { color: crate::node::Color::Black, ..before });
                    }
                }
                Some(n)
            },
            None => None,
        };
        proof {
            assert(ctx@ =~= Seq::<Frame>::empty());
        }
        tl.checkpoint(&ctx, &self.root, Step::Deleted(key));
        proof {
            lemma_steps_none(tl00, tl0);
            lemma_steps_trans(tl00, tl0, tl1);
            lemma_close_operation(
                tl00,
                tl1,
                *tl,
                Snapshot { tree: RBTree { root: self.root }, step: Step::Deleted(key) },
            );
            assert(self.root == crate::trace::blackened(r));
            assert(tl.snaps() =~= tl00.snaps() + delete_trace(old(self).root, key));
            if old(self).is_llrb() {
                let tr = del_spec(r1, key, Seq::empty()).1;
                let last = shot(Seq::empty(), self.root, Step::Deleted(key));
                assert(all_balanced(seq![last]));
                lemma_all_balanced_concat(tr, seq![last]);
                assert(delete_trace(old(self).root, key) =~= tr + seq![last]);
            }
        }
    }
}

} // verus!
