//! The snapshot recorder: the path from the root down to the node being
//! rewritten, the capture of the whole tree at a step, and the timeline of
//! snapshots with its playback cursor and status slot.

use vstd::prelude::*;
use crate::node::{
    black_balanced, black_height, copy_tree, count, map_of, node_bound, ordered, size_of, sizes_ok,
    Color, Node,
};
use crate::tree::RBTree;

verus! {

/// What a step of the algorithm did, and the key it did it at.
#[derive(Clone, Copy, Debug, PartialEq, Eq, Structural)]
pub enum Step {
    Idle,
    Inserting(u32),
    Deleting(u32),
    Created(u32),
    Overwrote(u32),
    RotatedLeft(u32),
    RotatedRight(u32),
    FlippedColors(u32),
    Replaced(u32),
    Removed(u32),
    Inserted(u32),
    Deleted(u32),
}

/// One ancestor of the node being rewritten: its own fields, the side the
/// descent took, and the subtree on the other side.
pub struct Frame {
    pub key: u32,
    pub value: String,
    pub color: Color,
    pub went_left: bool,
    pub other: Option<Box<Node>>,
}

/// The ancestor `f` rebuilt around the subtree `t`, with its size recomputed.
pub open spec fn attach(f: Frame, t: Option<Box<Node>>) -> Option<Box<Node>> {
    Some(
        Box::new(
            Node {
                key: f.key,
                value: f.value,
                color: f.color,
                size: (1 + size_of(f.other) + size_of(t)) as u64,
                left: if f.went_left {
                    t
                } else {
                    f.other
                },
                right: if f.went_left {
                    f.other
                } else {
                    t
                },
            },
        ),
    )
}

/// The whole tree: the path `ctx` (root first) closed over the subtree `t`.
pub open spec fn plug(ctx: Seq<Frame>, t: Option<Box<Node>>) -> Option<Box<Node>>
    decreases ctx.len(),
{
    if ctx.len() == 0 {
        t
    } else {
        plug(ctx.drop_last(), attach(ctx.last(), t))
    }
}

/// The number of nodes that the path `ctx` holds besides the subtree below it.
pub open spec fn frames_count(ctx: Seq<Frame>) -> nat
    decreases ctx.len(),
{
    if ctx.len() == 0 {
        0
    } else {
        frames_count(ctx.drop_last()) + 1 + count(ctx.last().other)
    }
}

pub open spec fn frames_ok(ctx: Seq<Frame>) -> bool {
    forall|i: int| 0 <= i < ctx.len() ==> sizes_ok(#[trigger] ctx[i].other)
}

/// `k` lies on the side of the ancestor `f` that the descent took.
pub open spec fn side_ok(f: Frame, k: u32) -> bool {
    if f.went_left {
        k < f.key
    } else {
        f.key < k
    }
}

/// `k` lies where the path `ctx` leads.
pub open spec fn within(ctx: Seq<Frame>, k: u32) -> bool {
    forall|i: int| 0 <= i < ctx.len() ==> #[trigger] side_ok(ctx[i], k)
}

/// Every key of `t` lies where the path `ctx` leads.
pub open spec fn keys_within(ctx: Seq<Frame>, t: Option<Box<Node>>) -> bool {
    forall|k: u32| #[trigger] map_of(t).dom().contains(k) ==> within(ctx, k)
}

/// Each ancestor on the path lies where the path above it leads, and the
/// subtree on its other side is ordered, lies there too, and on that side.
pub open spec fn path_ordered(ctx: Seq<Frame>) -> bool
    decreases ctx.len(),
{
    if ctx.len() == 0 {
        true
    } else {
        let f = ctx.last();
        let up = ctx.drop_last();
        &&& path_ordered(up)
        &&& within(up, f.key)
        &&& ordered(f.other)
        &&& keys_within(up, f.other)
        &&& forall|k: u32|
            #[trigger] map_of(f.other).dom().contains(k) ==> if f.went_left {
                f.key < k
            } else {
                k < f.key
            }
    }
}

pub proof fn lemma_within_push(ctx: Seq<Frame>, f: Frame, k: u32)
    ensures
        within(ctx.push(f), k) <==> within(ctx, k) && side_ok(f, k),
{
    if within(ctx, k) && side_ok(f, k) {
        assert forall|i: int| 0 <= i < ctx.push(f).len() implies #[trigger] side_ok(
            ctx.push(f)[i],
            k,
        ) by {
            if i < ctx.len() {
                assert(ctx.push(f)[i] == ctx[i]);
            }
        }
    }
    if within(ctx.push(f), k) {
        assert(side_ok(ctx.push(f)[ctx.len() as int], k));
        assert forall|i: int| 0 <= i < ctx.len() implies #[trigger] side_ok(ctx[i], k) by {
            assert(ctx.push(f)[i] == ctx[i]);
            assert(side_ok(ctx.push(f)[i], k));
        }
    }
}

/// When every key of the subtree rooted at `n` lies where the path leads,
/// so does its own key and every key of each of its children.
pub proof fn lemma_keys_within_node(ctx: Seq<Frame>, n: Node)
    requires
        keys_within(ctx, Some(Box::new(n))),
    ensures
        within(ctx, n.key),
        keys_within(ctx, n.left),
        keys_within(ctx, n.right),
{
    let t = Some(Box::new(n));
    assert(map_of(t) == map_of(n.left).union_prefer_right(map_of(n.right)).insert(n.key, n.value));
    assert(map_of(t).dom().contains(n.key));
    assert forall|k: u32| #[trigger] map_of(n.left).dom().contains(k) implies within(ctx, k) by {
        assert(map_of(t).dom().contains(k));
    }
    assert forall|k: u32| #[trigger] map_of(n.right).dom().contains(k) implies within(ctx, k) by {
        assert(map_of(t).dom().contains(k));
    }
}

/// The keys of `t`, which lie where the path leads and on the side of `f`
/// that the descent takes, lie where the path with `f` pushed leads.
pub proof fn lemma_keys_within_push(ctx: Seq<Frame>, f: Frame, t: Option<Box<Node>>)
    requires
        keys_within(ctx, t),
        forall|k: u32| #[trigger] map_of(t).dom().contains(k) ==> side_ok(f, k),
    ensures
        keys_within(ctx.push(f), t),
{
    assert forall|k: u32| #[trigger] map_of(t).dom().contains(k) implies within(ctx.push(f), k) by {
        lemma_within_push(ctx, f, k);
    }
}

/// Pushing the ancestor `f` keeps the path ordered when `f` lies where the
/// path leads and its other subtree is ordered, lies there, and on its side.
pub proof fn lemma_path_push(ctx: Seq<Frame>, f: Frame)
    requires
        path_ordered(ctx),
        within(ctx, f.key),
        ordered(f.other),
        keys_within(ctx, f.other),
        forall|k: u32|
            #[trigger] map_of(f.other).dom().contains(k) ==> if f.went_left {
                f.key < k
            } else {
                k < f.key
            },
    ensures
        path_ordered(ctx.push(f)),
{
    assert(ctx.push(f).drop_last() =~= ctx);
}

/// A subtree that is ordered and whose keys lie where an ordered path leads
/// closes the path into an ordered tree.
pub proof fn lemma_plug_ordered(ctx: Seq<Frame>, t: Option<Box<Node>>)
    requires
        path_ordered(ctx),
        ordered(t),
        keys_within(ctx, t),
    ensures
        ordered(plug(ctx, t)),
    decreases ctx.len(),
{
    if ctx.len() > 0 {
        let f = ctx.last();
        let up = ctx.drop_last();
        let a = attach(f, t);
        assert(ctx =~= up.push(f));
        assert forall|k: u32| map_of(t).dom().contains(k) implies within(up, k) && side_ok(f, k) by {
            lemma_within_push(up, f, k);
        }
        let n = a.unwrap();
        assert(map_of(a) == map_of(n.left).union_prefer_right(map_of(n.right)).insert(
            n.key,
            n.value,
        ));
        assert(path_ordered(up) && within(up, f.key) && ordered(f.other) && keys_within(
            up,
            f.other,
        ));
        if f.went_left {
            assert forall|k: u32| map_of(t).dom().contains(k) implies k < f.key by {
                lemma_within_push(up, f, k);
                assert(within(ctx, k));
            }
        } else {
            assert forall|k: u32| map_of(t).dom().contains(k) implies f.key < k by {
                lemma_within_push(up, f, k);
                assert(within(ctx, k));
            }
        }
        assert(ordered(a));
        assert forall|k: u32| #[trigger] map_of(a).dom().contains(k) implies within(up, k) by {
            if map_of(t).dom().contains(k) {
            } else if map_of(f.other).dom().contains(k) {
            }
        }
        lemma_plug_ordered(up, a);
    }
}

/// Each ancestor on the path has, on its other side, a black-balanced
/// subtree whose black height matches that of the subtree below it, when the
/// subtree at the bottom of the path has black height `b`.
pub open spec fn path_balanced(ctx: Seq<Frame>, b: nat) -> bool
    decreases ctx.len(),
{
    if ctx.len() == 0 {
        true
    } else {
        let f = ctx.last();
        &&& black_balanced(f.other)
        &&& black_height(f.other) == b
        &&& path_balanced(
            ctx.drop_last(),
            b + if f.color == Color::Black {
                1nat
            } else {
                0nat
            },
        )
    }
}

pub proof fn lemma_path_balanced_push(ctx: Seq<Frame>, f: Frame, b: nat)
    requires
        path_balanced(
            ctx,
            b + if f.color == Color::Black {
                1nat
            } else {
                0nat
            },
        ),
        black_balanced(f.other),
        black_height(f.other) == b,
    ensures
        path_balanced(ctx.push(f), b),
{
    assert(ctx.push(f).drop_last() =~= ctx);
}

/// A black-balanced subtree whose black height fits the path closes it into
/// a black-balanced tree.
pub proof fn lemma_plug_balanced(ctx: Seq<Frame>, t: Option<Box<Node>>)
    requires
        black_balanced(t),
        path_balanced(ctx, black_height(t)),
    ensures
        black_balanced(plug(ctx, t)),
    decreases ctx.len(),
{
    if ctx.len() > 0 {
        let f = ctx.last();
        let a = attach(f, t);
        let n = a.unwrap();
        assert(black_balanced(a));
        assert(black_height(a) == black_height(t) + if f.color == Color::Black {
            1nat
        } else {
            0nat
        });
        lemma_plug_balanced(ctx.drop_last(), a);
    }
}

/// Every snapshot that `later` holds beyond `earlier` is black-balanced.
pub open spec fn balanced_since(later: Timeline, earlier: Timeline) -> bool {
    forall|i: int|
        earlier.snaps().len() <= i < later.snaps().len() ==> black_balanced(
            #[trigger] later.snaps()[i].tree.root,
        )
}

pub proof fn lemma_balanced_trans(a: Timeline, b: Timeline, c: Timeline)
    requires
        grows_from(b, a),
        grows_from(c, b),
        balanced_since(b, a),
        balanced_since(c, b),
    ensures
        balanced_since(c, a),
{
    assert forall|i: int| a.snaps().len() <= i < c.snaps().len() implies black_balanced(
        #[trigger] c.snaps()[i].tree.root,
    ) by {
        if i < b.snaps().len() {
            assert(c.snaps()[i] == b.snaps()[i]);
        }
    }
}

/// The tree at one step, and what that step did.
#[derive(Debug, PartialEq, Eq)]
pub struct Snapshot {
    pub tree: RBTree,
    pub step: Step,
}

/// An independent copy of the whole tree that `ctx` and `t` describe.
pub fn capture(ctx: &Vec<Frame>, t: &Option<Box<Node>>) -> (r: Option<Box<Node>>)
    requires
        sizes_ok(*t),
        frames_ok(ctx@),
        frames_count(ctx@) + count(*t) <= node_bound(),
    ensures
        r == plug(ctx@, *t),
        sizes_ok(r),
{
    let mut cur = copy_tree(t);
    let mut i: usize = ctx.len();
    assert(ctx@.take(i as int) =~= ctx@);
    while i > 0
        invariant
            i <= ctx.len(),
            plug(ctx@.take(i as int), cur) == plug(ctx@, *t),
            sizes_ok(cur),
            frames_ok(ctx@),
            frames_count(ctx@.take(i as int)) + count(cur) <= node_bound(),
        decreases i,
    {
        let ghost before = cur;
        i = i - 1;
        let f = &ctx[i];
        proof {
            let s = ctx@.take(i + 1);
            assert(s.drop_last() =~= ctx@.take(i as int));
            assert(s.last() == ctx@[i as int]);
            assert(sizes_ok(ctx@[i as int].other));
        }
        let os: u64 = match &f.other {
            Some(n) => n.size,
            None => 0,
        };
        let cs: u64 = match &cur {
            Some(n) => n.size,
            None => 0,
        };
        let other = copy_tree(&f.other);
        let (left, right) = if f.went_left {
            (cur, other)
        } else {
            (other, cur)
        };
        cur = Some(
            Box::new(
                Node {
                    key: f.key,
                    value: f.value.clone(),
                    color: f.color,
                    size: 1 + os + cs,
                    left,
                    right,
                },
            ),
        );
        proof {
            assert(cur == attach(ctx@[i as int], before));
        }
    }
    assert(ctx@.take(0) =~= Seq::<Frame>::empty());
    cur
}

/// The ordered snapshots of a tree's history, a cursor into them, and the
/// last status message.
pub struct Timeline {
    snapshots: Vec<Snapshot>,
    cursor: usize,
    status: Step,
}

impl Timeline {
    /// The snapshots, oldest first.
    pub closed spec fn snaps(&self) -> Seq<Snapshot> {
        self.snapshots@
    }

    /// The cursor: -1 when there is no snapshot.
    pub closed spec fn cursor_at(&self) -> int {
        if self.snapshots.len() == 0 {
            -1
        } else {
            self.cursor as int
        }
    }

    pub closed spec fn status_now(&self) -> Step {
        self.status
    }

    pub closed spec fn wf(&self) -> bool {
        &&& self.snapshots.len() == 0 ==> self.cursor == 0
        &&& self.snapshots.len() > 0 ==> self.cursor < self.snapshots.len()
        &&& forall|i: int|
            0 <= i < self.snapshots.len() ==> sizes_ok(#[trigger] self.snapshots@[i].tree.root)
                && ordered(self.snapshots@[i].tree.root)
    }

    /// The cursor stands at the newest snapshot, or there is none.
    pub open spec fn at_tail(&self) -> bool {
        self.cursor_at() == self.snaps().len() - 1
    }

    pub fn new() -> (r: Timeline)
        ensures
            r.wf(),
            r.snaps().len() == 0,
            r.cursor_at() == -1,
            r.status_now() == Step::Idle,
    {
        Timeline { snapshots: Vec::new(), cursor: 0, status: Step::Idle }
    }

    /// Sets the status without taking a snapshot.
    pub fn begin(&mut self, step: Step)
        ensures
            final(self).snaps() == old(self).snaps(),
            final(self).cursor_at() == old(self).cursor_at(),
            final(self).wf() == old(self).wf(),
            final(self).status_now() == step,
    {
        self.status = step;
    }

    /// Appends a copy of the whole tree that `ctx` and `focus` describe, and
    /// moves the cursor to it.
    pub fn checkpoint(&mut self, ctx: &Vec<Frame>, focus: &Option<Box<Node>>, step: Step)
        requires
            old(self).wf(),
            sizes_ok(*focus),
            ordered(*focus),
            path_ordered(ctx@),
            keys_within(ctx@, *focus),
            frames_ok(ctx@),
            frames_count(ctx@) + count(*focus) <= node_bound(),
        ensures
            final(self).wf(),
            grows_from(*final(self), *old(self)),
            !closes_operation(step) ==> grows_by_steps(*final(self), *old(self)),
            black_balanced(*focus) && path_balanced(ctx@, black_height(*focus)) ==> balanced_since(
                *final(self),
                *old(self),
            ),
            final(self).snaps() == old(self).snaps().push(
                Snapshot { tree: RBTree { root: plug(ctx@, *focus) }, step },
            ),
            final(self).cursor_at() == old(self).snaps().len(),
            final(self).status_now() == step,
    {
        let root = capture(ctx, focus);
        proof {
            lemma_plug_ordered(ctx@, *focus);
            if black_balanced(*focus) && path_balanced(ctx@, black_height(*focus)) {
                lemma_plug_balanced(ctx@, *focus);
            }
        }
        self.snapshots.push(Snapshot { tree: RBTree { root }, step });
        self.cursor = self.snapshots.len() - 1;
        self.status = step;
        proof {
            assert forall|i: int| 0 <= i < old(self).snaps().len() implies #[trigger] self.snaps()[i]
                == old(self).snaps()[i] by {}
            assert forall|i: int| 0 <= i < self.snapshots.len() implies sizes_ok(
                #[trigger] self.snapshots@[i].tree.root,
            ) && ordered(self.snapshots@[i].tree.root) by {
                if i < old(self).snapshots.len() {
                    assert(self.snapshots@[i] == old(self).snapshots@[i]);
                }
            }
        }
    }

    /// The number of snapshots.
    pub fn snapshot_count(&self) -> (r: usize)
        ensures
            r == self.snaps().len(),
    {
        self.snapshots.len()
    }

    /// The cursor, `None` standing for -1 when there is no snapshot.
    pub fn cursor(&self) -> (r: Option<usize>)
        requires
            self.wf(),
        ensures
            r is None <==> self.cursor_at() == -1,
            r is Some ==> r.unwrap() == self.cursor_at(),
    {
        if self.snapshots.len() == 0 {
            None
        } else {
            Some(self.cursor)
        }
    }

    pub fn status(&self) -> (r: Step)
        ensures
            r == self.status_now(),
    {
        self.status
    }

    pub fn is_at_tail(&self) -> (r: bool)
        requires
            self.wf(),
        ensures
            r == self.at_tail(),
    {
        self.snapshots.len() == 0 || self.cursor == self.snapshots.len() - 1
    }

    pub fn snapshot_at(&self, i: usize) -> (r: Option<&Snapshot>)
        ensures
            i < self.snaps().len() ==> r == Some(&self.snaps()[i as int]),
            i >= self.snaps().len() ==> r is None,
    {
        if i < self.snapshots.len() {
            Some(&self.snapshots[i])
        } else {
            None
        }
    }

    /// The snapshot under the cursor.
    pub fn current_snapshot(&self) -> (r: Option<&Snapshot>)
        requires
            self.wf(),
        ensures
            self.cursor_at() == -1 ==> r is None,
            self.cursor_at() >= 0 ==> r == Some(&self.snaps()[self.cursor_at()]),
    {
        if self.snapshots.len() == 0 {
            None
        } else {
            Some(&self.snapshots[self.cursor])
        }
    }

    /// Moves the cursor one snapshot later; at the newest one, does nothing.
    pub fn step_forward(&mut self)
        requires
            old(self).wf(),
        ensures
            final(self).wf(),
            final(self).snaps() == old(self).snaps(),
            final(self).status_now() == old(self).status_now(),
            final(self).cursor_at() == if old(self).cursor_at() + 1 < old(self).snaps().len() {
                old(self).cursor_at() + 1
            } else {
                old(self).cursor_at()
            },
    {
        if self.cursor + 1 < self.snapshots.len() {
            self.cursor = self.cursor + 1;
        }
    }

    /// Moves the cursor one snapshot earlier; at the oldest one, does nothing.
    pub fn step_backward(&mut self)
        requires
            old(self).wf(),
        ensures
            final(self).wf(),
            final(self).snaps() == old(self).snaps(),
            final(self).status_now() == old(self).status_now(),
            final(self).cursor_at() == if old(self).cursor_at() > 0 {
                old(self).cursor_at() - 1
            } else {
                old(self).cursor_at()
            },
    {
        if self.cursor > 0 {
            self.cursor = self.cursor - 1;
        }
    }

    /// Moves the cursor to snapshot `i`; past the newest one, does nothing.
    pub fn jump_to(&mut self, i: usize)
        requires
            old(self).wf(),
        ensures
            final(self).wf(),
            final(self).snaps() == old(self).snaps(),
            final(self).status_now() == old(self).status_now(),
            final(self).cursor_at() == if i < old(self).snaps().len() {
                i as int
            } else {
                old(self).cursor_at()
            },
    {
        if i < self.snapshots.len() {
            self.cursor = i;
        }
    }

    /// Drops every snapshot; the cursor goes back to -1 and the status to idle.
    pub fn clear(&mut self)
        ensures
            final(self).wf(),
            final(self).snaps().len() == 0,
            final(self).cursor_at() == -1,
            final(self).status_now() == Step::Idle,
    {
        self.snapshots = Vec::new();
        self.cursor = 0;
        self.status = Step::Idle;
    }
}

/// Every snapshot is a search tree whose nodes record the true sizes of
/// their subtrees.
pub proof fn lemma_snapshot_sizes(tl: Timeline, i: int)
    requires
        tl.wf(),
        0 <= i < tl.snaps().len(),
    ensures
        sizes_ok(tl.snaps()[i].tree.root),
        ordered(tl.snaps()[i].tree.root),
{
}

/// An operation that ends on a snapshot of a red-black search tree keeps
/// every closing snapshot valid.
pub proof fn lemma_closing_kept(a: Timeline, b: Timeline)
    requires
        closing_snapshots_valid(a),
        grows_by_operation(b, a),
        b.snaps().last().tree.wf(),
        b.snaps().last().tree.is_llrb(),
    ensures
        closing_snapshots_valid(b),
{
    assert forall|i: int|
        0 <= i < b.snaps().len() && closes_operation(#[trigger] b.snaps()[i].step) implies b.snaps()[i].tree.wf()
            && b.snaps()[i].tree.is_llrb() by {
        if i < a.snaps().len() {
            assert(b.snaps()[i] == a.snaps()[i]);
        }
    }
}

/// `later` holds every snapshot of `earlier` at its place, and may hold more.
pub open spec fn grows_from(later: Timeline, earlier: Timeline) -> bool {
    &&& later.wf()
    &&& earlier.snaps().len() <= later.snaps().len()
    &&& forall|i: int|
        0 <= i < earlier.snaps().len() ==> #[trigger] later.snaps()[i] == earlier.snaps()[i]
}

/// A step that ends an insertion or a deletion.
pub open spec fn closes_operation(s: Step) -> bool {
    s is Inserted || s is Deleted
}

/// `later` extends `earlier` by snapshots of intermediate steps only.
pub open spec fn grows_by_steps(later: Timeline, earlier: Timeline) -> bool {
    &&& grows_from(later, earlier)
    &&& forall|i: int|
        earlier.snaps().len() <= i < later.snaps().len() ==> !closes_operation(
            #[trigger] later.snaps()[i].step,
        )
}

pub proof fn lemma_steps_trans(a: Timeline, b: Timeline, c: Timeline)
    requires
        grows_by_steps(b, a),
        grows_by_steps(c, b),
    ensures
        grows_by_steps(c, a),
{
    lemma_grows_trans(a, b, c);
    assert forall|i: int| a.snaps().len() <= i < c.snaps().len() implies !closes_operation(
        #[trigger] c.snaps()[i].step,
    ) by {
        if i < b.snaps().len() {
            assert(c.snaps()[i] == b.snaps()[i]);
        }
    }
}

/// Every snapshot that ends an operation shows a red-black search tree with
/// accurate sizes.
pub open spec fn closing_snapshots_valid(tl: Timeline) -> bool {
    forall|i: int|
        0 <= i < tl.snaps().len() && closes_operation(#[trigger] tl.snaps()[i].step)
            ==> tl.snaps()[i].tree.wf() && tl.snaps()[i].tree.is_llrb()
}

/// Every snapshot shows a black-balanced tree.
pub open spec fn snapshots_balanced(tl: Timeline) -> bool {
    forall|i: int| 0 <= i < tl.snaps().len() ==> black_balanced(#[trigger] tl.snaps()[i].tree.root)
}

/// `later` extends `earlier` by intermediate snapshots and then one more.
pub open spec fn grows_by_operation(later: Timeline, earlier: Timeline) -> bool {
    &&& grows_from(later, earlier)
    &&& later.snaps().len() > earlier.snaps().len()
    &&& forall|i: int|
        earlier.snaps().len() <= i < later.snaps().len() - 1 ==> !closes_operation(
            #[trigger] later.snaps()[i].step,
        )
}

/// A timeline unchanged but for its status has grown by no snapshot.
pub proof fn lemma_steps_none(a: Timeline, b: Timeline)
    requires
        a.wf(),
        b.wf(),
        b.snaps() == a.snaps(),
    ensures
        grows_by_steps(b, a),
{
}

pub proof fn lemma_close_operation(a: Timeline, b: Timeline, c: Timeline, s: Snapshot)
    requires
        grows_by_steps(b, a),
        grows_from(c, b),
        c.snaps() == b.snaps().push(s),
    ensures
        grows_by_operation(c, a),
{
    lemma_grows_trans(a, b, c);
    assert forall|i: int| a.snaps().len() <= i < c.snaps().len() - 1 implies !closes_operation(
        #[trigger] c.snaps()[i].step,
    ) by {
        assert(c.snaps()[i] == b.snaps()[i]);
    }
}

pub proof fn lemma_grows_trans(a: Timeline, b: Timeline, c: Timeline)
    requires
        grows_from(b, a),
        grows_from(c, b),
    ensures
        grows_from(c, a),
{
    assert forall|i: int| 0 <= i < a.snaps().len() implies #[trigger] c.snaps()[i] == a.snaps()[i] by {
        assert(c.snaps()[i] == b.snaps()[i]);
    }
}

/// The cursor never leaves [-1, length - 1], and is -1 exactly when the
/// timeline is empty.
pub proof fn lemma_cursor_bounds(tl: Timeline)
    requires
        tl.wf(),
    ensures
        -1 <= tl.cursor_at() < tl.snaps().len(),
        tl.cursor_at() == -1 <==> tl.snaps().len() == 0,
{
}

} // verus!
