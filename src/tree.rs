//! The left-leaning red-black tree: lookup, ordered keys, and an insertion
//! that records each structural step on a timeline.

use vstd::prelude::*;
use crate::node::{
    balanced_node, black_balanced, black_height, copy_tree, count, fix_steps_balanced, flip_colors,
    is_red, keys_of, left_leaning, left_red, llrb, map_of, no_red_red, node_bound, ordered, red,
    rotate_left, rotate_right, same_black, sizes_ok, strictly_increasing, Color, Node,
};
use crate::trace::{
    all_balanced, fix_trace, frame_of, ins_node, ins_trace, insert_trace, inserted_root,
};
use crate::timeline::{
    attach, frames_count, frames_ok, grows_by_operation, grows_by_steps, keys_within,
    lemma_close_operation, lemma_keys_within_push, lemma_path_push, lemma_plug_balanced,
    lemma_steps_none, lemma_steps_trans, path_balanced, path_ordered, within, Frame, Snapshot, Step,
    Timeline,
};

verus! {

/// An ordered map from `u32` keys to string values.
#[derive(Debug, PartialEq, Eq)]
pub struct RBTree {
    pub root: Option<Box<Node>>,
}

impl View for RBTree {
    type V = Map<u32, String>;

    open spec fn view(&self) -> Map<u32, String> {
        map_of(self.root)
    }
}

/// A red node whose left child is red too, each child otherwise well shaped:
/// what inserting below a red node can leave for its parent to mend.
pub open spec fn red_pair(r: Node) -> bool {
    &&& r.color == Color::Red
    &&& is_red(r.left)
    &&& llrb(r.left)
    &&& !is_red(r.right)
    &&& llrb(r.right)
}

/// What insertion into the subtree `before` owes: the same black height,
/// and the shape constraints, save a red pair where `before` was red.
pub open spec fn grown_from(before: Option<Box<Node>>, r: Node) -> bool {
    let t = Some(Box::new(r));
    &&& black_balanced(t)
    &&& black_height(t) == black_height(before)
    &&& !is_red(before) ==> llrb(t)
    &&& is_red(before) ==> r.color == Color::Red && (llrb(t) || red_pair(r))
}

proof fn lemma_insert_went_left(h: Node, c: Node, size: u64)
    requires
        llrb(Some(Box::new(h))),
        black_balanced(Some(Box::new(h))),
        grown_from(h.left, c),
    ensures
        grown_from(
            Some(Box::new(h)),
            balanced_node(Node { left: Some(Box::new(c)), size, ..h }),
        ),
        fix_steps_balanced(Node { left: Some(Box::new(c)), size, ..h }),
        same_black(h, Node { left: Some(Box::new(c)), size, ..h }),
{
    reveal_with_fuel(llrb, 4);
    reveal_with_fuel(black_balanced, 4);
    reveal_with_fuel(black_height, 4);
    let h2 = Node { left: Some(Box::new(c)), size, ..h };
    let t = Some(Box::new(c));
    assert(llrb(h.left) && llrb(h.right) && black_balanced(h.left) && black_balanced(h.right));
    if red_pair(c) && !llrb(t) {
        let x = c.left.unwrap();
        assert(black_balanced(c.left) && black_balanced(c.right));
        assert(black_height(c.left) == black_height(t));
        assert(llrb(x.left) && llrb(x.right));
    } else {
        assert(llrb(t));
        assert(!is_red(c.left) || c.color == Color::Black);
    }
}

proof fn lemma_insert_went_right(h: Node, c: Node, size: u64)
    requires
        llrb(Some(Box::new(h))),
        black_balanced(Some(Box::new(h))),
        grown_from(h.right, c),
    ensures
        grown_from(
            Some(Box::new(h)),
            balanced_node(Node { right: Some(Box::new(c)), size, ..h }),
        ),
        fix_steps_balanced(Node { right: Some(Box::new(c)), size, ..h }),
        same_black(h, Node { right: Some(Box::new(c)), size, ..h }),
{
    reveal_with_fuel(llrb, 4);
    reveal_with_fuel(black_balanced, 4);
    reveal_with_fuel(black_height, 4);
    let t = Some(Box::new(c));
    assert(llrb(h.left) && llrb(h.right) && black_balanced(h.left) && black_balanced(h.right));
    assert(llrb(t));
    assert(llrb(c.left) && llrb(c.right));
    assert(black_balanced(c.left) && black_balanced(c.right));
    if is_red(h.left) {
        let l = h.left.unwrap();
        assert(llrb(l.left) && llrb(l.right));
    }
}

/// A keys sequence that strictly increases holds each key once, so a tree of
/// `u32` keys has at most 2^32 nodes.
proof fn lemma_increasing_len(s: Seq<u32>)
    requires
        strictly_increasing(s),
    ensures
        s.len() <= 0x1_0000_0000,
        s.len() > 0 ==> s.last() >= s.len() - 1,
    decreases s.len(),
{
    if s.len() > 0 {
        assert(s.last() <= 0xffff_ffff);
    }
    if s.len() > 1 {
        let p = s.drop_last();
        assert(strictly_increasing(p));
        lemma_increasing_len(p);
        assert(p.last() == s[s.len() - 2]);
    }
}

/// The in-order keys of an ordered tree increase strictly and are exactly its
/// keys; there is one per node.
pub proof fn lemma_keys_of(t: Option<Box<Node>>)
    requires
        ordered(t),
    ensures
        strictly_increasing(keys_of(t)),
        keys_of(t).len() == count(t),
        forall|k: u32| #[trigger] keys_of(t).contains(k) <==> map_of(t).dom().contains(k),
        map_of(t).dom().finite(),
        map_of(t).dom().len() == count(t),
    decreases t,
{
    match t {
        Some(n) => {
            lemma_keys_of(n.left);
            lemma_keys_of(n.right);
            let l = keys_of(n.left);
            let r = keys_of(n.right);
            let s = keys_of(t);
            assert(s == l + seq![n.key] + r);
            assert(map_of(t) == map_of(n.left).union_prefer_right(map_of(n.right)).insert(
                n.key,
                n.value,
            ));
            assert forall|i: int| 0 <= i < l.len() implies l[i] < n.key by {
                assert(l.contains(l[i]));
            }
            assert forall|i: int| 0 <= i < r.len() implies n.key < r[i] by {
                assert(r.contains(r[i]));
            }
            assert forall|i: int, j: int| 0 <= i < j < s.len() implies s[i] < s[j] by {
                if j < l.len() {
                } else if j == l.len() {
                } else if i < l.len() {
                    assert(s[j] == r[j - l.len() - 1]);
                    assert(l[i] < n.key);
                    assert(n.key < r[j - l.len() - 1]);
                } else if i == l.len() {
                    assert(s[j] == r[j - l.len() - 1]);
                } else {
                    assert(s[i] == r[i - l.len() - 1]);
                    assert(s[j] == r[j - l.len() - 1]);
                }
            }
            assert forall|k: u32| map_of(t).dom().contains(k) implies #[trigger] s.contains(k) by {
                if k == n.key {
                    assert(s[l.len() as int] == k);
                } else if map_of(n.right).dom().contains(k) {
                    assert(r.contains(k));
                    let j = choose|j: int| 0 <= j < r.len() && r[j] == k;
                    assert(s[l.len() + 1 + j] == k);
                } else {
                    assert(l.contains(k));
                    let j = choose|j: int| 0 <= j < l.len() && l[j] == k;
                    assert(s[j] == k);
                }
            }
            assert forall|k: u32| #[trigger] s.contains(k) implies map_of(t).dom().contains(k) by {
                let j = choose|j: int| 0 <= j < s.len() && s[j] == k;
                if j < l.len() {
                    assert(l.contains(k));
                } else if j > l.len() {
                    assert(r[j - l.len() - 1] == k);
                    assert(r.contains(k));
                }
            }
            let dl = map_of(n.left).dom();
            let dr = map_of(n.right).dom();
            assert(dl.disjoint(dr)) by {
                assert forall|k: u32| dl.contains(k) implies !dr.contains(k) by {}
            }
            vstd::set_lib::lemma_set_disjoint_lens(dl, dr);
            assert(map_of(t).dom() =~= (dl + dr).insert(n.key));
            assert(!(dl + dr).contains(n.key));
        },
        None => {
            assert(map_of(t).dom() =~= Set::<u32>::empty());
        },
    }
}

/// A tree of distinct `u32` keys has at most 2^32 nodes.
pub(crate) proof fn lemma_count_bound(t: Option<Box<Node>>)
    requires
        ordered(t),
    ensures
        count(t) <= 0x1_0000_0000,
{
    lemma_keys_of(t);
    lemma_increasing_len(keys_of(t));
}

pub(crate) proof fn lemma_frames_push(ctx: Seq<Frame>, f: Frame)
    ensures
        frames_count(ctx.push(f)) == frames_count(ctx) + 1 + count(f.other),
        frames_ok(ctx) && sizes_ok(f.other) ==> frames_ok(ctx.push(f)),
{
    assert(ctx.push(f).drop_last() =~= ctx);
    if frames_ok(ctx) && sizes_ok(f.other) {
        assert forall|i: int| 0 <= i < ctx.push(f).len() implies sizes_ok(
            #[trigger] ctx.push(f)[i].other,
        ) by {
            if i < ctx.len() {
                assert(ctx.push(f)[i] == ctx[i]);
            }
        }
    }
}

/// Applies the three rebalancing rules to `h`, recording each rewrite.
pub(crate) fn fix_up(h: Box<Node>, ctx: &Vec<Frame>, tl: &mut Timeline) -> (r: Box<Node>)
    requires
        ordered(Some(h)),
        path_ordered(ctx@),
        keys_within(ctx@, Some(h)),
        sizes_ok(Some(h)),
        frames_ok(ctx@),
        frames_count(ctx@) + count(Some(h)) <= node_bound(),
        old(tl).wf(),
    ensures
        *r == balanced_node(*h),
        keys_of(Some(r)) == keys_of(Some(h)),
        count(Some(r)) == count(Some(h)),
        ordered(Some(h)) ==> ordered(Some(r)) && map_of(Some(r)) == map_of(Some(h)),
        sizes_ok(Some(r)),
        grows_by_steps(*final(tl), *old(tl)),
        final(tl).snaps() == old(tl).snaps() + fix_trace(*h, ctx@),
        old(tl).at_tail() ==> final(tl).at_tail(),
{
    let ghost tl0 = *tl;
    let ghost h0 = *h;
    let mut h = h;
    let k = h.key;
    if red(&h.right) && !red(&h.left) {
        h = rotate_left(h);
        let t = Some(h);
        tl.checkpoint(ctx, &t, Step::RotatedLeft(k));
        h = t.unwrap();
    }
    if red(&h.left) && left_red(&h.left) {
        let k = h.key;
        h = rotate_right(h);
        let t = Some(h);
        tl.checkpoint(ctx, &t, Step::RotatedRight(k));
        h = t.unwrap();
    }
    if red(&h.left) && red(&h.right) {
        let k = h.key;
        h = flip_colors(h);
        let t = Some(h);
        tl.checkpoint(ctx, &t, Step::FlippedColors(k));
        h = t.unwrap();
    }
    proof {
        assert(tl.snaps() =~= tl0.snaps() + fix_trace(h0, ctx@));
    }
    h
}

/// Inserts below `h`, whose ancestors `ctx` holds, and returns the new
/// subtree root, rebalanced.
fn insert_rec(
    h: Option<Box<Node>>,
    key: u32,
    value: String,
    ctx: &mut Vec<Frame>,
    tl: &mut Timeline,
) -> (r: Box<Node>)
    requires
        path_ordered(old(ctx)@),
        keys_within(old(ctx)@, h),
        within(old(ctx)@, key),
        ordered(h),
        sizes_ok(h),
        frames_ok(old(ctx)@),
        frames_count(old(ctx)@) + count(h) + 1 <= node_bound(),
        old(tl).wf(),
    ensures
        ordered(Some(r)),
        sizes_ok(Some(r)),
        map_of(Some(r)) == map_of(h).insert(key, value),
        count(Some(r)) == if map_of(h).dom().contains(key) {
            count(h)
        } else {
            count(h) + 1
        },
        llrb(h) && black_balanced(h) ==> grown_from(h, *r),
        llrb(h) && black_balanced(h) && path_balanced(old(ctx)@, black_height(h)) ==> all_balanced(
            ins_trace(h, key, value, old(ctx)@),
        ),
        *r == ins_node(h, key, value),
        final(tl).snaps() == old(tl).snaps() + ins_trace(h, key, value, old(ctx)@),
        final(ctx)@ == old(ctx)@,
        grows_by_steps(*final(tl), *old(tl)),
        final(tl).snaps().len() > old(tl).snaps().len(),
        final(tl).at_tail(),
    decreases count(h), 1nat,
{
    match h {
        None => {
            let t = Some(
                Box::new(
                    Node { key, value, color: Color::Red, size: 1, left: None, right: None },
                ),
            );
            proof {
                let e = Map::<u32, String>::empty();
                assert(e.union_prefer_right(e) =~= e);
                assert(map_of(t) =~= map_of(h).insert(key, t.unwrap().value));
            }
            tl.checkpoint(ctx, &t, Step::Created(key));
            proof {
                crate::trace::lemma_ins_base(h, key, value, old(ctx)@);
                assert(tl.snaps() =~= old(tl).snaps() + ins_trace(h, key, value, old(ctx)@));
                if path_balanced(old(ctx)@, black_height(h)) {
                    let l = t.unwrap();
                    assert(black_height(l.left) == 0 && black_balanced(l.left));
                    assert(black_height(t) == black_height(h));
                    assert(black_balanced(t));
                    lemma_plug_balanced(old(ctx)@, t);
                    assert(all_balanced(ins_trace(h, key, value, old(ctx)@)));
                }
            }
            t.unwrap()
        },
        Some(n) => {
            if key == n.key {
                let ghost g = *n;
                let Node { key: nk, value: _, color: nc, size: ns, left, right } = *n;
                let t = Some(Box::new(Node { key: nk, value, color: nc, size: ns, left, right }));
                proof {
                    assert(ordered(g.left) && ordered(g.right));
                    assert(!map_of(g.left).dom().contains(key));
                    assert(!map_of(g.right).dom().contains(key));
                    assert(map_of(t) =~= map_of(h).insert(key, value));
                    if llrb(h) && black_balanced(h) {
                        assert(llrb(g.left) && llrb(g.right));
                    }
                }
                tl.checkpoint(ctx, &t, Step::Overwrote(key));
                proof {
                    crate::trace::lemma_ins_base(h, key, value, old(ctx)@);
                    assert(tl.snaps() =~= old(tl).snaps() + ins_trace(h, key, value, old(ctx)@));
                    if black_balanced(h) && path_balanced(old(ctx)@, black_height(h)) {
                        lemma_plug_balanced(old(ctx)@, t);
                        assert(all_balanced(ins_trace(h, key, value, old(ctx)@)));
                    }
                }
                t.unwrap()
            } else {
                insert_below(n, key, value, ctx, tl)
            }
        },
    }
}

/// Rebuilding `g` around `c`, the result of inserting `key` with `value`
/// into its child on the side `went_left`, keeps the order, inserts the pair,
/// and, once rebalanced, meets what insertion owes.
proof fn lemma_insert_rebuilt(g: Node, c: Node, size: u64, key: u32, value: String, went_left: bool)
    requires
        ordered(Some(Box::new(g))),
        key != g.key,
        went_left == (key < g.key),
        ordered(Some(Box::new(c))),
        went_left ==> map_of(Some(Box::new(c))) == map_of(g.left).insert(key, value),
        !went_left ==> map_of(Some(Box::new(c))) == map_of(g.right).insert(key, value),
        went_left && llrb(g.left) && black_balanced(g.left) ==> grown_from(g.left, c),
        !went_left && llrb(g.right) && black_balanced(g.right) ==> grown_from(g.right, c),
    ensures
        ({
            let rebuilt = if went_left {
                Node { left: Some(Box::new(c)), size, ..g }
            } else {
                Node { right: Some(Box::new(c)), size, ..g }
            };
            &&& ordered(Some(Box::new(rebuilt)))
            &&& map_of(Some(Box::new(rebuilt))) == map_of(Some(Box::new(g))).insert(key, value)
            &&& (map_of(Some(Box::new(g))).dom().contains(key) == if went_left {
                map_of(g.left).dom().contains(key)
            } else {
                map_of(g.right).dom().contains(key)
            })
            &&& (llrb(Some(Box::new(g))) && black_balanced(Some(Box::new(g))) ==> grown_from(
                Some(Box::new(g)),
                balanced_node(rebuilt),
            ))
            &&& (llrb(Some(Box::new(g))) && black_balanced(Some(Box::new(g))) ==> fix_steps_balanced(
                rebuilt,
            ) && same_black(g, rebuilt))
        }),
{
    let h = Some(Box::new(g));
    let hm = map_of(h);
    assert(hm == map_of(g.left).union_prefer_right(map_of(g.right)).insert(g.key, g.value));
    assert(ordered(g.left) && ordered(g.right));
    if llrb(h) && black_balanced(h) {
        assert(llrb(g.left) && llrb(g.right));
        assert(black_balanced(g.left) && black_balanced(g.right));
    }
    if went_left {
        let rebuilt = Node { left: Some(Box::new(c)), size, ..g };
        assert forall|k: u32| map_of(g.right).dom().contains(k) implies key < k by {}
        assert(map_of(Some(Box::new(rebuilt))) =~= hm.insert(key, value));
        assert(ordered(Some(Box::new(rebuilt))));
        if llrb(h) && black_balanced(h) {
            lemma_insert_went_left(g, c, size);
        }
    } else {
        let rebuilt = Node { right: Some(Box::new(c)), size, ..g };
        assert forall|k: u32| map_of(g.left).dom().contains(k) implies k < key by {}
        assert(map_of(Some(Box::new(rebuilt))) =~= hm.insert(key, value));
        assert(ordered(Some(Box::new(rebuilt))));
        if llrb(h) && black_balanced(h) {
            lemma_insert_went_right(g, c, size);
        }
    }
}

/// Inserts `key`, which differs from the key of `n`, below `n`, whose
/// ancestors `ctx` holds, and rebalances `n`.
fn insert_below(
    n: Box<Node>,
    key: u32,
    value: String,
    ctx: &mut Vec<Frame>,
    tl: &mut Timeline,
) -> (r: Box<Node>)
    requires
        path_ordered(old(ctx)@),
        keys_within(old(ctx)@, Some(n)),
        within(old(ctx)@, key),
        key != n.key,
        ordered(Some(n)),
        sizes_ok(Some(n)),
        frames_ok(old(ctx)@),
        frames_count(old(ctx)@) + count(Some(n)) + 1 <= node_bound(),
        old(tl).wf(),
    ensures
        ordered(Some(r)),
        sizes_ok(Some(r)),
        map_of(Some(r)) == map_of(Some(n)).insert(key, value),
        count(Some(r)) == if map_of(Some(n)).dom().contains(key) {
            count(Some(n))
        } else {
            count(Some(n)) + 1
        },
        llrb(Some(n)) && black_balanced(Some(n)) ==> grown_from(Some(n), *r),
        llrb(Some(n)) && black_balanced(Some(n)) && path_balanced(old(ctx)@, black_height(Some(n)))
            ==> all_balanced(ins_trace(Some(n), key, value, old(ctx)@)),
        *r == ins_node(Some(n), key, value),
        final(tl).snaps() == old(tl).snaps() + ins_trace(Some(n), key, value, old(ctx)@),
        final(ctx)@ == old(ctx)@,
        grows_by_steps(*final(tl), *old(tl)),
        final(tl).snaps().len() > old(tl).snaps().len(),
        final(tl).at_tail(),
    decreases count(Some(n)), 0nat,
{
    let ghost h = Some(n);
    let ghost g = *n;
    proof {
        assert(ordered(g.left) && ordered(g.right));
        assert(sizes_ok(g.left) && sizes_ok(g.right));
        if llrb(h) && black_balanced(h) {
            assert(llrb(g.left) && llrb(g.right));
            assert(black_balanced(g.left) && black_balanced(g.right));
        }
    }
    let Node { key: nk, value: nv, color: nc, size: _, left, right } = *n;
    let went_left = key < nk;
    let (down, other) = if went_left {
        (left, right)
    } else {
        (right, left)
    };
    let ghost f = Frame { key: nk, value: nv, color: nc, went_left, other };
    proof {
        lemma_frames_push(ctx@, f);
        assert(map_of(Some(Box::new(g))) == map_of(g.left).union_prefer_right(map_of(g.right)).insert(
            g.key,
            g.value,
        ));
        crate::timeline::lemma_keys_within_node(ctx@, g);
        lemma_path_push(ctx@, f);
        lemma_keys_within_push(ctx@, f, down);
        crate::timeline::lemma_within_push(ctx@, f, key);
        if llrb(h) && black_balanced(h) && path_balanced(ctx@, black_height(h)) {
            assert(black_balanced(g.left) && black_balanced(g.right));
            assert(llrb(g.left) && llrb(g.right));
            crate::timeline::lemma_path_balanced_push(ctx@, f, black_height(down));
        }
    }
    ctx.push(Frame { key: nk, value: nv, color: nc, went_left, other });
    let ghost tl0 = *tl;
    let c = insert_rec(down, key, value, ctx, tl);
    let ghost tl1 = *tl;
    let fr = ctx.pop().unwrap();
    proof {
        assert(ctx@ =~= old(ctx)@);
        assert(fr == f);
    }
    let Frame { key: fk, value: fv, color: fc, went_left: _, other } = fr;
    let os: u64 = match &other {
        Some(o) => o.size,
        None => 0,
    };
    let size = 1 + os + c.size;
    let rebuilt = if went_left {
        Box::new(Node { key: fk, value: fv, color: fc, size, left: Some(c), right: other })
    } else {
        Box::new(Node { key: fk, value: fv, color: fc, size, left: other, right: Some(c) })
    };
    proof {
        if went_left {
            assert(*rebuilt == Node { left: Some(c), size, ..g });
        } else {
            assert(*rebuilt == Node { right: Some(c), size, ..g });
        }
        lemma_insert_rebuilt(g, *c, size, key, value, went_left);
    }
    let ghost m = *rebuilt;
    let r = fix_up(rebuilt, ctx, tl);
    proof {
        lemma_steps_trans(tl0, tl1, *tl);
        assert(f == frame_of(g, went_left));
        assert(m == *attach(f, Some(c)).unwrap());
        crate::trace::lemma_ins_step(g, key, value, old(ctx)@);
        assert(tl.snaps() =~= old(tl).snaps() + ins_trace(h, key, value, old(ctx)@));
        if llrb(h) && black_balanced(h) && path_balanced(old(ctx)@, black_height(h)) {
            crate::trace::lemma_fix_trace_balanced(m, old(ctx)@);
            crate::trace::lemma_all_balanced_concat(
                ins_trace(down, key, value, old(ctx)@.push(f)),
                fix_trace(m, old(ctx)@),
            );
        }
    }
    r
}

fn get_in(t: &Option<Box<Node>>, key: u32) -> (r: Option<&String>)
    requires
        ordered(*t),
    ensures
        r is Some <==> map_of(*t).dom().contains(key),
        r is Some ==> *r.unwrap() == map_of(*t)[key],
    decreases *t,
{
    match t {
        Some(n) => {
            proof {
                assert(map_of(*t) == map_of(n.left).union_prefer_right(map_of(n.right)).insert(
                    n.key,
                    n.value,
                ));
            }
            if key == n.key {
                Some(&n.value)
            } else if key < n.key {
                proof {
                    assert(!map_of(n.right).dom().contains(key));
                }
                get_in(&n.left, key)
            } else {
                proof {
                    assert(!map_of(n.left).dom().contains(key));
                }
                get_in(&n.right, key)
            }
        },
        None => None,
    }
}

fn collect_keys(t: &Option<Box<Node>>, out: &mut Vec<u32>)
    ensures
        final(out)@ == old(out)@ + keys_of(*t),
    decreases *t,
{
    match t {
        Some(n) => {
            collect_keys(&n.left, out);
            out.push(n.key);
            collect_keys(&n.right, out);
            proof {
                assert(final(out)@ =~= old(out)@ + keys_of(*t));
            }
        },
        None => {
            proof {
                assert(final(out)@ =~= old(out)@ + keys_of(*t));
            }
        },
    }
}

proof fn lemma_black_height_bound(t: Option<Box<Node>>)
    ensures
        black_height(t) <= count(t),
    decreases t,
{
    if let Some(n) = t {
        lemma_black_height_bound(n.left);
    }
}

/// The black height of `t` when every path below it crosses the same number
/// of black links, and the shape constraints of the check hold throughout.
fn check_shape(t: &Option<Box<Node>>) -> (r: Option<u64>)
    requires
        sizes_ok(*t),
    ensures
        r is Some <==> (no_red_red(*t) && left_leaning(*t) && black_balanced(*t)),
        r is Some ==> r.unwrap() == black_height(*t),
    decreases *t,
{
    match t {
        Some(n) => {
            proof {
                assert(sizes_ok(n.left) && sizes_ok(n.right));
                lemma_black_height_bound(n.left);
            }
            let l = check_shape(&n.left);
            let r = check_shape(&n.right);
            match (l, r) {
                (Some(lh), Some(rh)) => {
                    let is_red_node = match n.color {
                        Color::Red => true,
                        Color::Black => false,
                    };
                    let left_red_child = red(&n.left);
                    let right_red_child = red(&n.right);
                    if lh != rh {
                        None
                    } else if is_red_node && (left_red_child || right_red_child) {
                        None
                    } else if right_red_child && !left_red_child {
                        None
                    } else if is_red_node {
                        Some(lh)
                    } else {
                        Some(lh + 1)
                    }
                },
                _ => None,
            }
        },
        None => Some(0),
    }
}

impl RBTree {
    /// The tree is a binary search tree whose nodes record accurate sizes.
    pub open spec fn wf(&self) -> bool {
        &&& ordered(self.root)
        &&& sizes_ok(self.root)
    }

    /// The tree satisfies every left-leaning red-black constraint: equal
    /// black height on all paths, red links leaning left and never two in a
    /// row, and a black root.
    pub open spec fn is_llrb(&self) -> bool {
        &&& llrb(self.root)
        &&& black_balanced(self.root)
        &&& !is_red(self.root)
    }

    pub fn new() -> (r: RBTree)
        ensures
            r.wf(),
            r.is_llrb(),
            r@ == Map::<u32, String>::empty(),
    {
        RBTree { root: None }
    }

    /// Removes every node.
    pub fn clear_tree(&mut self)
        ensures
            final(self).wf(),
            final(self).is_llrb(),
            final(self)@ == Map::<u32, String>::empty(),
    {
        self.root = None;
    }

    /// The value stored under `key`, if any.
    pub fn get(&self, key: u32) -> (r: Option<&String>)
        requires
            self.wf(),
        ensures
            r is Some <==> self@.dom().contains(key),
            r is Some ==> *r.unwrap() == self@[key],
    {
        get_in(&self.root, key)
    }

    pub fn contains(&self, key: u32) -> (r: bool)
        requires
            self.wf(),
        ensures
            r == self@.dom().contains(key),
    {
        get_in(&self.root, key).is_some()
    }

    /// The number of keys stored.
    pub fn len(&self) -> (r: u64)
        requires
            self.wf(),
        ensures
            r == self@.dom().len(),
            r == count(self.root),
    {
        proof {
            lemma_keys_of(self.root);
        }
        match &self.root {
            Some(n) => n.size,
            None => 0,
        }
    }

    pub fn is_empty(&self) -> (r: bool)
        requires
            self.wf(),
        ensures
            r == (self@.dom().len() == 0),
    {
        self.len() == 0
    }

    /// The keys in increasing order.
    pub fn keys(&self) -> (r: Vec<u32>)
        requires
            self.wf(),
        ensures
            r@ == keys_of(self.root),
            strictly_increasing(r@),
            forall|k: u32|
                #![trigger r@.contains(k)]
                #![trigger self@.dom().contains(k)]
                r@.contains(k) <==> self@.dom().contains(k),
    {
        proof {
            lemma_keys_of(self.root);
        }
        let mut out: Vec<u32> = Vec::new();
        collect_keys(&self.root, &mut out);
        proof {
            assert(out@ =~= keys_of(self.root));
        }
        out
    }

    /// Whether no red node has a red child, no red link leans right, and
    /// every path down to nil crosses the same number of black links.
    pub fn is_balanced(&self) -> (r: bool)
        requires
            sizes_ok(self.root),
        ensures
            r == (no_red_red(self.root) && left_leaning(self.root) && black_balanced(self.root)),
    {
        check_shape(&self.root).is_some()
    }

    /// An independent copy of the tree.
    pub fn duplicate(&self) -> (r: RBTree)
        ensures
            r == *self,
    {
        RBTree { root: copy_tree(&self.root) }
    }

    /// Inserts `key` with `value`, or replaces the value of `key`, recording
    /// every step on `tl` and ending with a snapshot of the finished tree.
    pub fn insert(&mut self, key: u32, value: String, tl: &mut Timeline)
        requires
            old(self).wf(),
            old(tl).wf(),
        ensures
            final(self).wf(),
            old(self).is_llrb() ==> final(self).is_llrb(),
            final(self)@ == old(self)@.insert(key, value),
            grows_by_operation(*final(tl), *old(tl)),
            final(tl).snaps().len() >= old(tl).snaps().len() + 2,
            final(tl).snaps().last() == (Snapshot { tree: *final(self), step: Step::Inserted(key) }),
            final(self).root == inserted_root(old(self).root, key, value),
            final(tl).snaps() == old(tl).snaps() + insert_trace(old(self).root, key, value),
            old(self).is_llrb() ==> all_balanced(insert_trace(old(self).root, key, value)),
            final(tl).at_tail(),
            final(tl).status_now() == Step::Inserted(key),
    {
        let ghost tl0 = *tl;
        tl.begin(Step::Inserting(key));
        let ghost tl1 = *tl;
        let root = self.root.take();
        proof {
            lemma_count_bound(root);
            lemma_steps_none(tl0, tl1);
        }
        let mut ctx: Vec<Frame> = Vec::new();
        let mut r = insert_rec(root, key, value, &mut ctx, tl);
        let ghost tl2 = *tl;
        r.color = Color::Black;
        self.root = Some(r);
        proof {
            assert(ctx@ =~= Seq::<Frame>::empty());
            assert(count(self.root) <= count(root) + 1);
        }
        tl.checkpoint(&ctx, &self.root, Step::Inserted(key));
        proof {
            lemma_steps_trans(tl0, tl1, tl2);
            lemma_close_operation(
                tl0,
                tl2,
                *tl,
                Snapshot { tree: RBTree { root: self.root }, step: Step::Inserted(key) },
            );
            assert(tl.snaps() =~= tl0.snaps() + insert_trace(root, key, value));
            if old(self).is_llrb() {
                let tr = ins_trace(root, key, value, Seq::empty());
                let last = crate::trace::shot(
                    Seq::empty(),
                    inserted_root(root, key, value),
                    Step::Inserted(key),
                );
                assert(all_balanced(seq![last]));
                crate::trace::lemma_all_balanced_concat(tr, seq![last]);
                assert(insert_trace(root, key, value) =~= tr + seq![last]);
            }
        }
    }
}

} // verus!
