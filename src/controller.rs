//! The facade that a user interface drives: it owns the live tree, the
//! timeline and the status slot, and refuses to mutate the tree while the
//! cursor stands on an older snapshot.

use vstd::prelude::*;
use crate::node::{count, keys_of, strictly_increasing};
use crate::timeline::{
    closing_snapshots_valid, grows_by_operation, lemma_closing_kept, snapshots_balanced, Snapshot,
    Step, Timeline,
};
use crate::trace::{delete_trace, deleted_root, insert_trace, inserted_root};
use crate::tree::RBTree;

verus! {

/// Why the controller refused a request.
#[derive(Clone, Copy, Debug, PartialEq, Eq, Structural)]
pub enum ControlError {
    /// The algorithm selector named an algorithm that is not implemented.
    Unsupported,
    /// A mutation was asked for while the cursor was not on the newest snapshot.
    StaleCursor,
}

/// A mutation that the controller can be asked for.
#[derive(Debug, PartialEq, Eq)]
pub enum Operation {
    Insert(u32, String),
    Delete(u32),
}

/// The tree and the snapshots after `op` is applied to the tree `t` whose
/// history so far is `snaps`.
pub open spec fn outcome(t: RBTree, snaps: Seq<Snapshot>, op: Operation) -> (RBTree, Seq<Snapshot>) {
    match op {
        Operation::Insert(k, v) => (
            RBTree { root: inserted_root(t.root, k, v) },
            snaps + insert_trace(t.root, k, v),
        ),
        Operation::Delete(k) => if t@.dom().contains(k) {
            (RBTree { root: deleted_root(t.root, k) }, snaps + delete_trace(t.root, k))
        } else {
            (t, snaps)
        },
    }
}

/// The tree and the snapshots after each of `ops` is applied in turn.
pub open spec fn replay(t: RBTree, snaps: Seq<Snapshot>, ops: Seq<Operation>) -> (RBTree, Seq<
    Snapshot,
>)
    decreases ops.len(),
{
    if ops.len() == 0 {
        (t, snaps)
    } else {
        let p = replay(t, snaps, ops.drop_last());
        outcome(p.0, p.1, ops.last())
    }
}

/// The name under which the selector knows the one implemented algorithm.
pub open spec fn red_black_tree_name() -> Seq<char> {
    "red-black-tree"@
}

pub struct Controller {
    tree: RBTree,
    timeline: Timeline,
    pacing_ms: u32,
}

/// A timeline of black-balanced snapshots extended by black-balanced ones
/// holds only black-balanced snapshots.
proof fn lemma_balanced_extend(a: Timeline, b: Timeline, tr: Seq<Snapshot>)
    requires
        snapshots_balanced(a),
        b.snaps() == a.snaps() + tr,
        crate::trace::all_balanced(tr),
    ensures
        snapshots_balanced(b),
{
    assert forall|i: int| 0 <= i < b.snaps().len() implies crate::node::black_balanced(
        #[trigger] b.snaps()[i].tree.root,
    ) by {
        if i < a.snaps().len() {
            assert(b.snaps()[i] == a.snaps()[i]);
        } else {
            assert(b.snaps()[i] == tr[i - a.snaps().len()]);
        }
    }
}

impl Controller {
    pub closed spec fn tree(&self) -> RBTree {
        self.tree
    }

    pub closed spec fn timeline(&self) -> Timeline {
        self.timeline
    }

    /// The live tree, and the tree of every snapshot that ends an operation,
    /// is a red-black search tree with accurate sizes; every snapshot is
    /// black-balanced; and the timeline's cursor stands within it.
    pub open spec fn inv(&self) -> bool {
        &&& self.tree().wf()
        &&& self.tree().is_llrb()
        &&& self.timeline().wf()
        &&& closing_snapshots_valid(self.timeline())
        &&& snapshots_balanced(self.timeline())
    }

    pub fn new() -> (r: Controller)
        ensures
            r.inv(),
            r.pacing_view() == 0,
            r.tree()@ == Map::<u32, String>::empty(),
            r.timeline().snaps().len() == 0,
            r.timeline().cursor_at() == -1,
            r.timeline().status_now() == Step::Idle,
    {
        Controller { tree: RBTree::new(), timeline: Timeline::new(), pacing_ms: 0 }
    }

    pub closed spec fn pacing_view(&self) -> u32 {
        self.pacing_ms
    }

    /// The delay, in milliseconds, that the caller wishes between two
    /// snapshots shown in turn; the controller itself never waits.
    pub fn pacing(&self) -> (r: u32)
        ensures
            r == self.pacing_view(),
    {
        self.pacing_ms
    }

    pub fn set_pacing(&mut self, delay_ms: u32)
        ensures
            final(self).pacing_view() == delay_ms,
            final(self).tree() == old(self).tree(),
            final(self).timeline() == old(self).timeline(),
    {
        self.pacing_ms = delay_ms;
    }

    /// Inserts `key` with `value`, or replaces its value, when the cursor is
    /// on the newest snapshot; otherwise refuses and changes nothing.
    pub fn insert(&mut self, key: u32, value: String) -> (r: Result<(), ControlError>)
        requires
            old(self).inv(),
        ensures
            final(self).inv(),
            r is Ok <==> old(self).timeline().at_tail(),
            r is Err ==> r == Err::<(), ControlError>(ControlError::StaleCursor) && final(self).tree()
                == old(self).tree() && final(self).timeline() == old(self).timeline(),
            r is Ok ==> {
                &&& (final(self).tree(), final(self).timeline().snaps()) == outcome(
                    old(self).tree(),
                    old(self).timeline().snaps(),
                    Operation::Insert(key, value),
                )
                &&& final(self).tree()@ == old(self).tree()@.insert(key, value)
                &&& grows_by_operation(final(self).timeline(), old(self).timeline())
                &&& final(self).timeline().snaps().len() >= old(self).timeline().snaps().len() + 2
                &&& final(self).timeline().snaps().last() == (Snapshot {
                    tree: final(self).tree(),
                    step: Step::Inserted(key),
                })
                &&& final(self).timeline().at_tail()
                &&& final(self).timeline().status_now() == Step::Inserted(key)
            },
    {
        if !self.timeline.is_at_tail() {
            return Err(ControlError::StaleCursor);
        }
        let ghost before = self.timeline;
        let ghost t0 = self.tree;
        self.tree.insert(key, value, &mut self.timeline);
        proof {
            lemma_closing_kept(before, self.timeline);
            lemma_balanced_extend(before, self.timeline, insert_trace(t0.root, key, value));
        }
        Ok(())
    }

    /// Deletes `key` when the cursor is on the newest snapshot; otherwise
    /// refuses and changes nothing. Deleting an absent key changes nothing.
    pub fn delete(&mut self, key: u32) -> (r: Result<(), ControlError>)
        requires
            old(self).inv(),
        ensures
            final(self).inv(),
            r is Ok <==> old(self).timeline().at_tail(),
            r is Err ==> r == Err::<(), ControlError>(ControlError::StaleCursor) && final(self).tree()
                == old(self).tree() && final(self).timeline() == old(self).timeline(),
            r is Ok ==> final(self).tree()@ == old(self).tree()@.remove(key),
            r is Ok ==> (final(self).tree(), final(self).timeline().snaps()) == outcome(
                old(self).tree(),
                old(self).timeline().snaps(),
                Operation::Delete(key),
            ),
            r is Ok && !old(self).tree()@.dom().contains(key) ==> final(self).tree() == old(
                self,
            ).tree() && final(self).timeline() == old(self).timeline(),
            r is Ok && old(self).tree()@.dom().contains(key) ==> {
                &&& grows_by_operation(final(self).timeline(), old(self).timeline())
                &&& final(self).timeline().snaps().last() == (Snapshot {
                    tree: final(self).tree(),
                    step: Step::Deleted(key),
                })
                &&& final(self).timeline().at_tail()
                &&& final(self).timeline().status_now() == Step::Deleted(key)
            },
    {
        if !self.timeline.is_at_tail() {
            return Err(ControlError::StaleCursor);
        }
        let ghost before = self.timeline;
        let ghost present = self.tree@.dom().contains(key);
        let ghost t0 = self.tree;
        self.tree.delete(key, &mut self.timeline);
        proof {
            if present {
                lemma_closing_kept(before, self.timeline);
                lemma_balanced_extend(before, self.timeline, delete_trace(t0.root, key));
            }
        }
        Ok(())
    }

    /// Applies `op` when the cursor is on the newest snapshot; otherwise
    /// refuses and changes nothing.
    pub fn apply(&mut self, op: &Operation) -> (r: Result<(), ControlError>)
        requires
            old(self).inv(),
        ensures
            final(self).inv(),
            r is Ok <==> old(self).timeline().at_tail(),
            r is Err ==> r == Err::<(), ControlError>(ControlError::StaleCursor) && final(self).tree()
                == old(self).tree() && final(self).timeline() == old(self).timeline(),
            r is Ok ==> (final(self).tree(), final(self).timeline().snaps()) == outcome(
                old(self).tree(),
                old(self).timeline().snaps(),
                *op,
            ),
            r is Ok ==> final(self).timeline().at_tail(),
    {
        match op {
            Operation::Insert(k, v) => self.insert(*k, v.clone()),
            Operation::Delete(k) => self.delete(*k),
        }
    }

    /// Applies each of `ops` in turn when the cursor is on the newest
    /// snapshot; otherwise refuses and changes nothing.
    pub fn run(&mut self, ops: &Vec<Operation>) -> (r: Result<(), ControlError>)
        requires
            old(self).inv(),
        ensures
            final(self).inv(),
            r is Ok <==> old(self).timeline().at_tail(),
            r is Err ==> r == Err::<(), ControlError>(ControlError::StaleCursor) && final(self).tree()
                == old(self).tree() && final(self).timeline() == old(self).timeline(),
            r is Ok ==> (final(self).tree(), final(self).timeline().snaps()) == replay(
                old(self).tree(),
                old(self).timeline().snaps(),
                ops@,
            ),
    {
        if !self.timeline.is_at_tail() {
            return Err(ControlError::StaleCursor);
        }
        let mut i: usize = 0;
        proof {
            assert(ops@.take(0) =~= Seq::<Operation>::empty());
        }
        while i < ops.len()
            invariant
                i <= ops.len(),
                self.inv(),
                self.timeline().at_tail(),
                (self.tree(), self.timeline().snaps()) == replay(
                    old(self).tree(),
                    old(self).timeline().snaps(),
                    ops@.take(i as int),
                ),
            decreases ops.len() - i,
        {
            let _ = self.apply(&ops[i]);
            proof {
                assert(ops@.take(i + 1).drop_last() =~= ops@.take(i as int));
                assert(ops@.take(i + 1).last() == ops@[i as int]);
            }
            i = i + 1;
        }
        proof {
            assert(ops@.take(ops.len() as int) =~= ops@);
        }
        Ok(())
    }

    pub fn get(&self, key: u32) -> (r: Option<&String>)
        requires
            self.inv(),
        ensures
            r is Some <==> self.tree()@.dom().contains(key),
            r is Some ==> *r.unwrap() == self.tree()@[key],
    {
        self.tree.get(key)
    }

    pub fn contains(&self, key: u32) -> (r: bool)
        requires
            self.inv(),
        ensures
            r == self.tree()@.dom().contains(key),
    {
        self.tree.contains(key)
    }

    pub fn len(&self) -> (r: u64)
        requires
            self.inv(),
        ensures
            r == self.tree()@.dom().len(),
            r == count(self.tree().root),
    {
        self.tree.len()
    }

    pub fn keys(&self) -> (r: Vec<u32>)
        requires
            self.inv(),
        ensures
            r@ == keys_of(self.tree().root),
            strictly_increasing(r@),
            forall|k: u32|
                #![trigger r@.contains(k)]
                #![trigger self.tree()@.dom().contains(k)]
                r@.contains(k) <==> self.tree()@.dom().contains(k),
    {
        self.tree.keys()
    }

    /// The live tree.
    pub fn live_tree(&self) -> (r: &RBTree)
        ensures
            *r == self.tree(),
    {
        &self.tree
    }

    /// Empties the tree and the timeline; the cursor goes back to -1.
    pub fn clear(&mut self)
        ensures
            final(self).inv(),
            final(self).tree()@ == Map::<u32, String>::empty(),
            final(self).timeline().snaps().len() == 0,
            final(self).timeline().cursor_at() == -1,
            final(self).timeline().status_now() == Step::Idle,
    {
        self.tree.clear_tree();
        self.timeline.clear();
    }

    /// Selects the algorithm named `name`. Only the red-black tree is
    /// implemented: selecting it clears all state; any other name is refused
    /// and changes nothing.
    pub fn set_algorithm(&mut self, name: &str) -> (r: Result<(), ControlError>)
        requires
            old(self).inv(),
        ensures
            final(self).inv(),
            r is Ok <==> name@ == red_black_tree_name(),
            r is Err ==> r == Err::<(), ControlError>(ControlError::Unsupported) && final(self).tree()
                == old(self).tree() && final(self).timeline() == old(self).timeline(),
            r is Ok ==> {
                &&& final(self).tree()@ == Map::<u32, String>::empty()
                &&& final(self).timeline().snaps().len() == 0
                &&& final(self).timeline().cursor_at() == -1
                &&& final(self).timeline().status_now() == Step::Idle
            },
    {
        let given = name.to_owned();
        let known = "red-black-tree".to_owned();
        proof {
            reveal_strlit("red-black-tree");
        }
        if given == known {
            self.clear();
            Ok(())
        } else {
            Err(ControlError::Unsupported)
        }
    }

    pub fn step_forward(&mut self)
        requires
            old(self).inv(),
        ensures
            final(self).inv(),
            final(self).tree() == old(self).tree(),
            final(self).timeline().snaps() == old(self).timeline().snaps(),
            final(self).timeline().cursor_at() == if old(self).timeline().cursor_at() + 1 < old(
                self,
            ).timeline().snaps().len() {
                old(self).timeline().cursor_at() + 1
            } else {
                old(self).timeline().cursor_at()
            },
    {
        self.timeline.step_forward();
    }

    pub fn step_backward(&mut self)
        requires
            old(self).inv(),
        ensures
            final(self).inv(),
            final(self).tree() == old(self).tree(),
            final(self).timeline().snaps() == old(self).timeline().snaps(),
            final(self).timeline().cursor_at() == if old(self).timeline().cursor_at() > 0 {
                old(self).timeline().cursor_at() - 1
            } else {
                old(self).timeline().cursor_at()
            },
    {
        self.timeline.step_backward();
    }

    pub fn jump_to(&mut self, i: usize)
        requires
            old(self).inv(),
        ensures
            final(self).inv(),
            final(self).tree() == old(self).tree(),
            final(self).timeline().snaps() == old(self).timeline().snaps(),
            final(self).timeline().cursor_at() == if i < old(self).timeline().snaps().len() {
                i as int
            } else {
                old(self).timeline().cursor_at()
            },
    {
        self.timeline.jump_to(i);
    }

    pub fn snapshot_count(&self) -> (r: usize)
        ensures
            r == self.timeline().snaps().len(),
    {
        self.timeline.snapshot_count()
    }

    /// The cursor, `None` standing for -1 when there is no snapshot.
    pub fn cursor(&self) -> (r: Option<usize>)
        requires
            self.inv(),
        ensures
            r is None <==> self.timeline().cursor_at() == -1,
            r is Some ==> r.unwrap() == self.timeline().cursor_at(),
    {
        self.timeline.cursor()
    }

    pub fn current_snapshot(&self) -> (r: Option<&Snapshot>)
        requires
            self.inv(),
        ensures
            self.timeline().cursor_at() == -1 ==> r is None,
            self.timeline().cursor_at() >= 0 ==> r == Some(
                &self.timeline().snaps()[self.timeline().cursor_at()],
            ),
    {
        self.timeline.current_snapshot()
    }

    pub fn snapshot_at(&self, i: usize) -> (r: Option<&Snapshot>)
        ensures
            i < self.timeline().snaps().len() ==> r == Some(&self.timeline().snaps()[i as int]),
            i >= self.timeline().snaps().len() ==> r is None,
    {
        self.timeline.snapshot_at(i)
    }

    /// The most recent status.
    pub fn status(&self) -> (r: Step)
        ensures
            r == self.timeline().status_now(),
    {
        self.timeline.status()
    }
}

} // verus!
