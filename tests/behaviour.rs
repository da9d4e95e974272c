use llrb_viz::controller::{ControlError, Controller, Operation};
use llrb_viz::node::{Color, Node};
use llrb_viz::timeline::{Step, Timeline};
use llrb_viz::tree::RBTree;

fn height(t: &Option<Box<Node>>) -> usize {
    match t {
        Some(n) => 1 + std::cmp::max(height(&n.left), height(&n.right)),
        None => 0,
    }
}

fn sizes_accurate(t: &Option<Box<Node>>) -> Option<u64> {
    match t {
        Some(n) => {
            let l = sizes_accurate(&n.left)?;
            let r = sizes_accurate(&n.right)?;
            if n.size == 1 + l + r {
                Some(n.size)
            } else {
                None
            }
        }
        None => Some(0),
    }
}

fn root_is_black(t: &RBTree) -> bool {
    match &t.root {
        Some(n) => n.color == Color::Black,
        None => true,
    }
}

fn strictly_sorted(keys: &[u32]) -> bool {
    keys.windows(2).all(|w| w[0] < w[1])
}

fn assert_red_black(t: &RBTree) {
    assert!(t.is_balanced());
    assert!(root_is_black(t));
    assert!(sizes_accurate(&t.root).is_some());
    assert!(strictly_sorted(&t.keys()));
}

fn nine_keys_inserted() -> Controller {
    let mut c = Controller::new();
    for k in [50u32, 30, 70, 20, 40, 60, 80, 10, 35] {
        c.insert(k, format!("v{}", k)).unwrap();
        assert_red_black(c.live_tree());
    }
    c
}

#[test]
fn insert_into_empty() {
    let mut c = Controller::new();
    c.insert(10, "a".to_string()).unwrap();
    assert_eq!(c.len(), 1);
    assert_eq!(c.keys(), vec![10]);
    assert_eq!(c.get(10).map(|s| s.as_str()), Some("a"));
    assert!(root_is_black(c.live_tree()));
    assert!(c.snapshot_count() >= 2);
    assert_eq!(c.cursor(), Some(c.snapshot_count() - 1));
}

#[test]
fn overwrite_keeps_one_node() {
    let mut c = Controller::new();
    c.insert(10, "a".to_string()).unwrap();
    c.insert(10, "b".to_string()).unwrap();
    assert_eq!(c.len(), 1);
    assert_eq!(c.get(10).map(|s| s.as_str()), Some("b"));
    assert_eq!(c.keys(), vec![10]);
    assert_eq!(sizes_accurate(&c.live_tree().root), Some(1));
}

#[test]
fn ascending_insertions_stay_balanced() {
    let mut c = Controller::new();
    for k in 1..=7u32 {
        c.insert(k, "x".to_string()).unwrap();
        assert_red_black(c.live_tree());
    }
    assert_eq!(c.keys(), vec![1, 2, 3, 4, 5, 6, 7]);
    assert!(height(&c.live_tree().root) <= 6);
}

#[test]
fn random_looking_sequence() {
    let c = nine_keys_inserted();
    assert_eq!(c.keys(), vec![10, 20, 30, 35, 40, 50, 60, 70, 80]);
    assert!(c.snapshot_count() > 9);
    for i in 0..c.snapshot_count() {
        let s = c.snapshot_at(i).unwrap();
        assert!(sizes_accurate(&s.tree.root).is_some());
        assert!(strictly_sorted(&s.tree.keys()));
    }
}

#[test]
fn delete_to_empty() {
    let mut c = nine_keys_inserted();
    for k in [50u32, 30, 70, 20, 40, 60, 80, 10, 35] {
        c.delete(k).unwrap();
        assert!(!c.contains(k));
        assert_red_black(c.live_tree());
    }
    assert_eq!(c.len(), 0);
    assert_eq!(c.keys(), Vec::<u32>::new());
    assert!(c.live_tree().root.is_none());
    assert!(c.snapshot_count() > 0);
    c.clear();
    assert_eq!(c.snapshot_count(), 0);
    assert_eq!(c.cursor(), None);
}

#[test]
fn stale_cursor_rejection() {
    let mut c = Controller::new();
    for k in 1..=7u32 {
        c.insert(k, "x".to_string()).unwrap();
    }
    let count = c.snapshot_count();
    let keys = c.keys();
    c.step_backward();
    c.step_backward();
    assert_eq!(c.cursor(), Some(count - 3));
    assert_eq!(c.insert(8, "y".to_string()), Err(ControlError::StaleCursor));
    assert_eq!(c.delete(1), Err(ControlError::StaleCursor));
    assert_eq!(c.snapshot_count(), count);
    assert_eq!(c.keys(), keys);
    c.jump_to(count - 1);
    assert_eq!(c.insert(8, "y".to_string()), Ok(()));
    assert!(c.contains(8));
}

#[test]
fn cursor_stays_in_bounds() {
    let mut c = Controller::new();
    assert_eq!(c.cursor(), None);
    c.step_forward();
    c.step_backward();
    assert_eq!(c.cursor(), None);
    c.insert(5, "a".to_string()).unwrap();
    let tail = c.snapshot_count() - 1;
    c.step_forward();
    assert_eq!(c.cursor(), Some(tail));
    c.jump_to(0);
    c.step_backward();
    assert_eq!(c.cursor(), Some(0));
    c.jump_to(tail + 10);
    assert_eq!(c.cursor(), Some(0));
    c.step_forward();
    assert_eq!(c.cursor(), Some(1.min(tail)));
}

#[test]
fn deleting_twice_adds_no_step() {
    let mut c = nine_keys_inserted();
    c.delete(40).unwrap();
    let count = c.snapshot_count();
    let keys = c.keys();
    let status = c.status();
    c.delete(40).unwrap();
    assert_eq!(c.snapshot_count(), count);
    assert_eq!(c.keys(), keys);
    assert_eq!(c.status(), status);
    assert_eq!(status, Step::Deleted(40));
}

#[test]
fn deleting_absent_key_from_empty_tree() {
    let mut c = Controller::new();
    assert_eq!(c.delete(3), Ok(()));
    assert_eq!(c.snapshot_count(), 0);
    assert_eq!(c.status(), Step::Idle);
    assert_eq!(c.get(3), None);
    assert!(!c.contains(3));
}

#[test]
fn insert_then_delete_permutation_empties() {
    let mut c = Controller::new();
    for k in [4u32, 9, 1, 7, 3, 8, 2, 6, 5] {
        c.insert(k, "v".to_string()).unwrap();
    }
    for k in [9u32, 1, 5, 3, 7, 2, 8, 4, 6] {
        c.delete(k).unwrap();
        assert_red_black(c.live_tree());
    }
    assert_eq!(c.len(), 0);
    assert!(c.live_tree().root.is_none());
}

#[test]
fn lookup_after_insert() {
    let mut c = Controller::new();
    c.insert(42, "answer".to_string()).unwrap();
    c.insert(7, "seven".to_string()).unwrap();
    c.insert(99, "last".to_string()).unwrap();
    assert_eq!(c.get(42).map(|s| s.as_str()), Some("answer"));
    assert_eq!(c.get(7).map(|s| s.as_str()), Some("seven"));
    assert!(c.contains(99));
    assert!(!c.contains(8));
}

#[test]
fn timelines_are_deterministic() {
    let a = nine_keys_inserted();
    let b = nine_keys_inserted();
    assert_eq!(a.snapshot_count(), b.snapshot_count());
    for i in 0..a.snapshot_count() {
        assert_eq!(a.snapshot_at(i), b.snapshot_at(i));
    }
}

#[test]
fn snapshots_survive_later_mutation() {
    let mut c = Controller::new();
    c.insert(1, "a".to_string()).unwrap();
    c.insert(2, "b".to_string()).unwrap();
    let first = c.snapshot_at(0).unwrap().tree.duplicate();
    let count = c.snapshot_count();
    let last = c.snapshot_at(count - 1).unwrap().tree.duplicate();
    c.insert(3, "c".to_string()).unwrap();
    c.delete(1).unwrap();
    assert_eq!(c.snapshot_at(0).unwrap().tree, first);
    assert_eq!(c.snapshot_at(count - 1).unwrap().tree, last);
    assert_eq!(last.keys(), vec![1, 2]);
}

#[test]
fn insertion_records_rotations_and_flips() {
    let mut c = Controller::new();
    c.insert(1, "a".to_string()).unwrap();
    c.insert(2, "b".to_string()).unwrap();
    let steps: Vec<Step> = (0..c.snapshot_count())
        .map(|i| c.snapshot_at(i).unwrap().step)
        .collect();
    assert_eq!(
        steps,
        vec![
            Step::Created(1),
            Step::Inserted(1),
            Step::Created(2),
            Step::RotatedLeft(1),
            Step::Inserted(2),
        ]
    );
    c.insert(3, "c".to_string()).unwrap();
    let last = c.current_snapshot().unwrap();
    assert_eq!(last.step, Step::Inserted(3));
    let root = last.tree.root.as_ref().unwrap();
    assert_eq!(root.key, 2);
    assert_eq!(root.color, Color::Black);
    assert_eq!(root.size, 3);
    assert_eq!(root.left.as_ref().unwrap().color, Color::Black);
    assert_eq!(root.right.as_ref().unwrap().color, Color::Black);
}

#[test]
fn deleting_root_replaces_it_by_successor() {
    let mut c = Controller::new();
    for k in [2u32, 1, 3] {
        c.insert(k, format!("{}", k)).unwrap();
    }
    c.delete(2).unwrap();
    assert_eq!(c.keys(), vec![1, 3]);
    assert_eq!(c.get(3).map(|s| s.as_str()), Some("3"));
    assert_eq!(c.status(), Step::Deleted(2));
    let steps: Vec<Step> = (0..c.snapshot_count())
        .map(|i| c.snapshot_at(i).unwrap().step)
        .collect();
    assert!(steps.contains(&Step::Replaced(2)));
    assert!(steps.contains(&Step::Removed(3)));
    assert_red_black(c.live_tree());
}

#[test]
fn algorithm_selection() {
    let mut c = Controller::new();
    c.insert(1, "a".to_string()).unwrap();
    assert_eq!(c.set_algorithm("binomial-heap"), Err(ControlError::Unsupported));
    assert_eq!(c.len(), 1);
    assert!(c.snapshot_count() > 0);
    assert_eq!(c.set_algorithm("red-black-tree"), Ok(()));
    assert_eq!(c.len(), 0);
    assert_eq!(c.snapshot_count(), 0);
    assert_eq!(c.cursor(), None);
    assert_eq!(c.status(), Step::Idle);
}

#[test]
fn status_follows_operations() {
    let mut c = Controller::new();
    assert_eq!(c.status(), Step::Idle);
    c.insert(4, "a".to_string()).unwrap();
    assert_eq!(c.status(), Step::Inserted(4));
    c.delete(4).unwrap();
    assert_eq!(c.status(), Step::Deleted(4));
}

#[test]
fn tree_used_directly_with_a_timeline() {
    let mut t = RBTree::new();
    let mut tl = Timeline::new();
    t.insert(3, "c".to_string(), &mut tl);
    t.insert(1, "a".to_string(), &mut tl);
    t.insert(2, "b".to_string(), &mut tl);
    assert_eq!(t.keys(), vec![1, 2, 3]);
    assert_eq!(t.len(), 3);
    assert!(!t.is_empty());
    assert_eq!(tl.current_snapshot().unwrap().tree, t.duplicate());
    t.delete(2, &mut tl);
    assert_eq!(t.keys(), vec![1, 3]);
    t.clear_tree();
    assert!(t.is_empty());
    assert_eq!(t.get(1), None);
}

#[test]
fn large_mixed_workload_keeps_invariants() {
    let mut c = Controller::new();
    let mut k: u32 = 7;
    for _ in 0..200 {
        k = k.wrapping_mul(1103515245).wrapping_add(12345) % 101;
        if k % 3 == 0 {
            c.delete(k).unwrap();
            assert!(!c.contains(k));
        } else {
            c.insert(k, format!("{}", k)).unwrap();
            assert_eq!(c.get(k).map(|s| s.clone()), Some(format!("{}", k)));
        }
        assert_red_black(c.live_tree());
        assert_eq!(c.len() as usize, c.keys().len());
    }
}

#[test]
fn running_operations_matches_calling_them_one_by_one() {
    let ops = vec![
        Operation::Insert(5, "five".to_string()),
        Operation::Insert(3, "three".to_string()),
        Operation::Insert(8, "eight".to_string()),
        Operation::Delete(5),
        Operation::Delete(42),
        Operation::Insert(3, "again".to_string()),
    ];
    let mut a = Controller::new();
    assert_eq!(a.run(&ops), Ok(()));
    let mut b = Controller::new();
    b.insert(5, "five".to_string()).unwrap();
    b.insert(3, "three".to_string()).unwrap();
    b.insert(8, "eight".to_string()).unwrap();
    b.delete(5).unwrap();
    b.delete(42).unwrap();
    b.insert(3, "again".to_string()).unwrap();
    assert_eq!(a.snapshot_count(), b.snapshot_count());
    for i in 0..a.snapshot_count() {
        assert_eq!(a.snapshot_at(i), b.snapshot_at(i));
    }
    assert_eq!(a.keys(), vec![3, 8]);
    assert_eq!(a.get(3).map(|s| s.as_str()), Some("again"));
}

#[test]
fn running_operations_on_a_stale_cursor_is_refused() {
    let mut c = Controller::new();
    c.insert(1, "a".to_string()).unwrap();
    c.step_backward();
    let count = c.snapshot_count();
    let ops = vec![Operation::Insert(2, "b".to_string())];
    assert_eq!(c.run(&ops), Err(ControlError::StaleCursor));
    assert_eq!(c.apply(&ops[0]), Err(ControlError::StaleCursor));
    assert_eq!(c.snapshot_count(), count);
    assert!(!c.contains(2));
}

#[test]
fn pacing_is_kept_for_the_caller() {
    let mut c = Controller::new();
    assert_eq!(c.pacing(), 0);
    c.set_pacing(250);
    assert_eq!(c.pacing(), 250);
    c.insert(1, "a".to_string()).unwrap();
    assert_eq!(c.pacing(), 250);
}

#[test]
fn deletion_records_pushed_red_links() {
    let mut c = Controller::new();
    for k in 1..=7u32 {
        c.insert(k, "x".to_string()).unwrap();
    }
    let before = c.snapshot_count();
    c.delete(1).unwrap();
    let steps: Vec<Step> = (before..c.snapshot_count())
        .map(|i| c.snapshot_at(i).unwrap().step)
        .collect();
    assert!(steps.contains(&Step::FlippedColors(4)));
    assert!(steps.contains(&Step::Removed(1)));
    assert_eq!(*steps.last().unwrap(), Step::Deleted(1));
    assert_eq!(c.keys(), vec![2, 3, 4, 5, 6, 7]);
    assert_red_black(c.live_tree());
}

fn black_height(t: &Option<Box<Node>>) -> Option<usize> {
    match t {
        Some(n) => {
            let l = black_height(&n.left)?;
            let r = black_height(&n.right)?;
            if l != r {
                return None;
            }
            Some(l + if n.color == Color::Black { 1 } else { 0 })
        }
        None => Some(0),
    }
}

#[test]
fn every_snapshot_keeps_order_sizes_and_black_height() {
    let mut c = nine_keys_inserted();
    for k in [50u32, 30, 70, 20, 40, 60, 80, 10, 35] {
        c.delete(k).unwrap();
    }
    for i in 0..c.snapshot_count() {
        let s = c.snapshot_at(i).unwrap();
        assert!(black_height(&s.tree.root).is_some(), "snapshot {} {:?}", i, s.step);
        assert!(sizes_accurate(&s.tree.root).is_some());
        assert!(strictly_sorted(&s.tree.keys()));
        if matches!(s.step, Step::Inserted(_) | Step::Deleted(_)) {
            assert_red_black(&s.tree);
        }
    }
}

#[test]
fn intermediate_snapshots_may_lean_right_until_rebalanced() {
    let mut c = Controller::new();
    c.insert(1, "a".to_string()).unwrap();
    c.insert(2, "b".to_string()).unwrap();
    let created = c.snapshot_at(2).unwrap();
    assert_eq!(created.step, Step::Created(2));
    let root = created.tree.root.as_ref().unwrap();
    assert!(root.left.is_none());
    assert_eq!(root.right.as_ref().unwrap().color, Color::Red);
    assert!(black_height(&created.tree.root).is_some());
    let done = c.current_snapshot().unwrap();
    assert_eq!(done.step, Step::Inserted(2));
    assert_red_black(&done.tree);
}
