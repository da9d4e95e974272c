//! Why deletion keeps the red-black shape: on the way down the node being
//! visited is never a lone black node, and on the way up each rebalanced
//! subtree keeps its black height and the left-leaning constraints.

use vstd::prelude::*;
use crate::node::{
    balanced_node, black_balanced, black_height, fix_steps_balanced, is_red, left_is_red, llrb,
    moved_red_left, moved_red_right, mrl_steps_balanced, mrr_steps_balanced, rotr, same_black,
    Color, Node,
};

verus! {

/// The node met by the descent of a deletion: red with black children, or
/// black with a red left child, or, when the key lies at or right of it,
/// black with a red right child.
pub open spec fn del_pre(h: Node, key: u32) -> bool {
    let t = Some(Box::new(h));
    &&& black_balanced(t)
    &&& llrb(h.left)
    &&& llrb(h.right)
    &&& {
        ||| (h.color == Color::Red && !is_red(h.left) && !is_red(h.right))
        ||| (h.color == Color::Black && is_red(h.left) && !is_red(h.right))
        ||| (h.color == Color::Black && !is_red(h.left) && is_red(h.right) && key >= h.key)
    }
}

/// The node met by the descent that removes a minimum: red with black
/// children, or black with a red left child.
pub open spec fn min_pre(h: Node) -> bool {
    del_pre(h, 0) && !is_red(h.right)
}

/// What a deletion below `h` returns: a subtree that meets the constraints,
/// with the black height of `h`, and black where `h` was black.
pub open spec fn del_post(h: Node, r: Option<Box<Node>>) -> bool {
    &&& black_balanced(r)
    &&& black_height(r) == black_height(Some(Box::new(h)))
    &&& llrb(r)
    &&& (h.color == Color::Black ==> !is_red(r))
}

/// `h` ready for the descent to its left.
pub open spec fn left_prepared(h: Node) -> Node {
    if !is_red(h.left) && !left_is_red(h.left) {
        moved_red_left(h)
    } else {
        h
    }
}

/// `h` after the right rotation that starts a descent to its right.
pub open spec fn right_rotated(h: Node) -> Node {
    if is_red(h.left) {
        rotr(h)
    } else {
        h
    }
}

/// `h` ready for the descent to its right.
pub open spec fn right_prepared(h: Node) -> Node {
    let n = right_rotated(h);
    if !is_red(n.right) && !left_is_red(n.right) {
        moved_red_right(n)
    } else {
        n
    }
}

/// `h` is the prepared form of `h0` for a descent to the left.
pub open spec fn left_step(h0: Node, h: Node) -> bool {
    &&& min_pre(h0)
    &&& h0.left is Some
    &&& h == left_prepared(h0)
}

/// `h` is the prepared form of `h0` for a descent to the right towards `key`.
pub open spec fn right_step(h0: Node, h: Node, key: u32) -> bool {
    &&& del_pre(h0, key)
    &&& key >= h0.key
    &&& (h0.left is Some ==> h0.left.unwrap().key < h0.key)
    &&& right_rotated(h0).right is Some
    &&& h == right_prepared(h0)
}

pub proof fn lemma_left_child_pre(h: Node, key: u32)
    requires
        min_pre(h),
        h.left is Some,
    ensures
        left_prepared(h).left is Some,
        min_pre(*left_prepared(h).left.unwrap()),
        del_pre(*left_prepared(h).left.unwrap(), key),
        !is_red(h.left) && !left_is_red(h.left) ==> mrl_steps_balanced(h),
        same_black(h, left_prepared(h)),
{
    reveal_with_fuel(llrb, 4);
    reveal_with_fuel(black_balanced, 4);
    reveal_with_fuel(black_height, 4);
}

pub proof fn lemma_left_result(h: Node, c: Option<Box<Node>>, m: Node)
    requires
        min_pre(h),
        h.left is Some,
        del_post(*left_prepared(h).left.unwrap(), c),
        m.color == left_prepared(h).color,
        m.right == left_prepared(h).right,
        m.left == c,
    ensures
        del_post(h, Some(Box::new(balanced_node(m)))),
        fix_steps_balanced(m),
        same_black(h, m),
{
    reveal_with_fuel(llrb, 4);
    reveal_with_fuel(black_balanced, 4);
    reveal_with_fuel(black_height, 4);
}

/// Where the key lies left of `h`, `h` is not black with a red right child.
pub proof fn lemma_left_of_key(h: Node, key: u32)
    requires
        del_pre(h, key),
        key < h.key,
    ensures
        min_pre(h),
{
}

/// A node unlinked for want of a right subtree has no left subtree either.
pub proof fn lemma_unlink(h: Node, key: u32)
    requires
        del_pre(h, key),
        right_rotated(h).right is None,
    ensures
        del_post(h, right_rotated(h).left),
{
    reveal_with_fuel(llrb, 3);
    reveal_with_fuel(black_balanced, 3);
    reveal_with_fuel(black_height, 3);
}

/// A node left without a left subtree by the descent to a minimum has no
/// right subtree either.
pub proof fn lemma_min_unlink(h: Node)
    requires
        min_pre(h),
        h.left is None,
    ensures
        del_post(h, h.right),
{
    reveal_with_fuel(llrb, 3);
    reveal_with_fuel(black_balanced, 3);
    reveal_with_fuel(black_height, 3);
}

pub proof fn lemma_right_child_pre(h: Node, key: u32)
    requires
        del_pre(h, key),
        key >= h.key,
        h.left is Some ==> h.left.unwrap().key < h.key,
        right_rotated(h).right is Some,
    ensures
        right_prepared(h).right is Some,
        del_pre(*right_prepared(h).right.unwrap(), key),
        key == right_prepared(h).key ==> min_pre(*right_prepared(h).right.unwrap()),
{
    reveal_with_fuel(llrb, 4);
    reveal_with_fuel(black_balanced, 4);
    reveal_with_fuel(black_height, 4);
}

pub proof fn lemma_right_result(h: Node, key: u32, c: Option<Box<Node>>, m: Node)
    requires
        del_pre(h, key),
        key >= h.key,
        right_rotated(h).right is Some,
        right_prepared(h).right is Some,
        del_post(*right_prepared(h).right.unwrap(), c),
        m.color == right_prepared(h).color,
        m.left == right_prepared(h).left,
        m.right == c,
    ensures
        del_post(h, Some(Box::new(balanced_node(m)))),
        fix_steps_balanced(m),
        same_black(h, m),
{
    reveal_with_fuel(llrb, 4);
    reveal_with_fuel(black_balanced, 4);
    reveal_with_fuel(black_height, 4);
}

/// The right rotation that starts a descent to the right keeps the black
/// height, and so does each step of the preparation that follows.
pub proof fn lemma_right_prep_balanced(h: Node, key: u32)
    requires
        del_pre(h, key),
    ensures
        same_black(h, right_rotated(h)),
        right_rotated(h).right is Some ==> {
            let n = right_rotated(h);
            &&& (!is_red(n.right) && !left_is_red(n.right) ==> mrr_steps_balanced(n))
            &&& same_black(h, right_prepared(h))
        },
{
    reveal_with_fuel(llrb, 4);
    reveal_with_fuel(black_balanced, 4);
    reveal_with_fuel(black_height, 4);
}

/// The root, reddened when both its children are black, is a node that the
/// descent of a deletion may visit.
pub proof fn lemma_root_pre(r: Node, key: u32)
    requires
        llrb(Some(Box::new(r))),
        black_balanced(Some(Box::new(r))),
        r.color == Color::Black,
    ensures
        !is_red(r.left) && !is_red(r.right) ==> min_pre(Node { color: Color::Red, ..r }) && del_pre(
            Node { color: Color::Red, ..r },
            key,
        ),
        is_red(r.left) || is_red(r.right) ==> min_pre(r) && del_pre(r, key),
{
}

/// The subtree a deletion returns, with its root blackened, meets every
/// constraint of the tree.
pub proof fn lemma_root_post(h: Node, r: Node)
    requires
        del_post(h, Some(Box::new(r))),
    ensures
        llrb(Some(Box::new(Node { color: Color::Black, ..r }))),
        black_balanced(Some(Box::new(Node { color: Color::Black, ..r }))),
{
}

} // verus!
