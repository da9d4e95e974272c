//! Tree nodes, the mathematical model of a subtree, and the elementary
//! rewrites of a left-leaning red-black tree: rotations and color flips.

use vstd::prelude::*;

verus! {

/// The color of a node, that is, the color of the link from its parent.
#[derive(Clone, Copy, Debug, PartialEq, Eq, Structural)]
pub enum Color {
    Red,
    Black,
}

/// One node of the tree; `size` is the number of nodes of the subtree it roots.
#[derive(Debug, PartialEq, Eq)]
pub struct Node {
    pub key: u32,
    pub value: String,
    pub color: Color,
    pub size: u64,
    pub left: Option<Box<Node>>,
    pub right: Option<Box<Node>>,
}

/// The largest number of nodes a tree of distinct `u32` keys can hold, plus one.
pub open spec fn node_bound() -> int {
    0x1_0000_0001
}

pub open spec fn is_red(t: Option<Box<Node>>) -> bool {
    match t {
        Some(n) => n.color == Color::Red,
        None => false,
    }
}

/// The left child of `t` exists and is red.
pub open spec fn left_is_red(t: Option<Box<Node>>) -> bool {
    match t {
        Some(n) => is_red(n.left),
        None => false,
    }
}

pub open spec fn count(t: Option<Box<Node>>) -> nat
    decreases t,
{
    match t {
        Some(n) => 1 + count(n.left) + count(n.right),
        None => 0,
    }
}

/// The recorded size of a subtree, 0 for an empty one.
pub open spec fn size_of(t: Option<Box<Node>>) -> int {
    match t {
        Some(n) => n.size as int,
        None => 0,
    }
}

/// The keys of `t`, in order.
pub open spec fn keys_of(t: Option<Box<Node>>) -> Seq<u32>
    decreases t,
{
    match t {
        Some(n) => keys_of(n.left) + seq![n.key] + keys_of(n.right),
        None => Seq::empty(),
    }
}

/// The key-value pairs stored in `t`.
pub open spec fn map_of(t: Option<Box<Node>>) -> Map<u32, String>
    decreases t,
{
    match t {
        Some(n) => map_of(n.left).union_prefer_right(map_of(n.right)).insert(n.key, n.value),
        None => Map::empty(),
    }
}

/// Binary-search-tree order: smaller keys on the left, larger on the right.
pub open spec fn ordered(t: Option<Box<Node>>) -> bool
    decreases t,
{
    match t {
        Some(n) => {
            &&& ordered(n.left)
            &&& ordered(n.right)
            &&& forall|k: u32| map_of(n.left).dom().contains(k) ==> k < n.key
            &&& forall|k: u32| map_of(n.right).dom().contains(k) ==> n.key < k
        },
        None => true,
    }
}

/// Every recorded size equals the number of nodes of its subtree.
pub open spec fn sizes_ok(t: Option<Box<Node>>) -> bool
    decreases t,
{
    match t {
        Some(n) => n.size == count(t) && sizes_ok(n.left) && sizes_ok(n.right),
        None => true,
    }
}

/// The number of black links on the leftmost path from `t` down to nil.
pub open spec fn black_height(t: Option<Box<Node>>) -> nat
    decreases t,
{
    match t {
        Some(n) => black_height(n.left) + if n.color == Color::Black {
            1nat
        } else {
            0nat
        },
        None => 0,
    }
}

/// Every path from a node down to nil crosses the same number of black links.
pub open spec fn black_balanced(t: Option<Box<Node>>) -> bool
    decreases t,
{
    match t {
        Some(n) => {
            &&& black_balanced(n.left)
            &&& black_balanced(n.right)
            &&& black_height(n.left) == black_height(n.right)
        },
        None => true,
    }
}

/// No red right child anywhere, and no red node with a red left child.
pub open spec fn llrb(t: Option<Box<Node>>) -> bool
    decreases t,
{
    match t {
        Some(n) => {
            &&& !is_red(n.right)
            &&& !(n.color == Color::Red && is_red(n.left))
            &&& llrb(n.left)
            &&& llrb(n.right)
        },
        None => true,
    }
}

/// No red node has a red child.
pub open spec fn no_red_red(t: Option<Box<Node>>) -> bool
    decreases t,
{
    match t {
        Some(n) => {
            &&& (n.color == Color::Red ==> !is_red(n.left) && !is_red(n.right))
            &&& no_red_red(n.left)
            &&& no_red_red(n.right)
        },
        None => true,
    }
}

/// No node has a red right child beside a non-red left child.
pub open spec fn left_leaning(t: Option<Box<Node>>) -> bool
    decreases t,
{
    match t {
        Some(n) => {
            &&& !(is_red(n.right) && !is_red(n.left))
            &&& left_leaning(n.left)
            &&& left_leaning(n.right)
        },
        None => true,
    }
}

pub open spec fn strictly_increasing(s: Seq<u32>) -> bool {
    forall|i: int, j: int| 0 <= i < j < s.len() ==> s[i] < s[j]
}

/// The node `h` after a left rotation, as the rotation builds it.
pub open spec fn rotl(h: Node) -> Node {
    let x = h.right.unwrap();
    Node {
        key: x.key,
        value: x.value,
        color: h.color,
        size: h.size,
        left: Some(
            Box::new(
                Node {
                    key: h.key,
                    value: h.value,
                    color: Color::Red,
                    size: (1 + size_of(h.left) + size_of(x.left)) as u64,
                    left: h.left,
                    right: x.left,
                },
            ),
        ),
        right: x.right,
    }
}

/// The node `h` after a right rotation, as the rotation builds it.
pub open spec fn rotr(h: Node) -> Node {
    let x = h.left.unwrap();
    Node {
        key: x.key,
        value: x.value,
        color: h.color,
        size: h.size,
        left: x.left,
        right: Some(
            Box::new(
                Node {
                    key: h.key,
                    value: h.value,
                    color: Color::Red,
                    size: (1 + size_of(x.right) + size_of(h.right)) as u64,
                    left: x.right,
                    right: h.right,
                },
            ),
        ),
    }
}

pub open spec fn flip_color(c: Color) -> Color {
    match c {
        Color::Red => Color::Black,
        Color::Black => Color::Red,
    }
}

pub open spec fn flip_link(t: Option<Box<Node>>) -> Option<Box<Node>> {
    match t {
        Some(n) => Some(Box::new(Node { color: flip_color(n.color), ..*n })),
        None => None,
    }
}

/// The node `h` after its color and the colors of its children are complemented.
pub open spec fn flipped(h: Node) -> Node {
    Node { color: flip_color(h.color), left: flip_link(h.left), right: flip_link(h.right), ..h }
}

/// The three rebalancing rules, in their fixed order, applied to `h`.
pub open spec fn balanced_node(h: Node) -> Node {
    let h1 = if is_red(h.right) && !is_red(h.left) {
        rotl(h)
    } else {
        h
    };
    let h2 = if is_red(h1.left) && left_is_red(h1.left) {
        rotr(h1)
    } else {
        h1
    };
    if is_red(h2.left) && is_red(h2.right) {
        flipped(h2)
    } else {
        h2
    }
}

/// `h` after pushing a red link down to its left: a flip, and where the
/// right child's left child then is red, two rotations and a second flip.
pub open spec fn moved_red_left(h: Node) -> Node {
    let f = flipped(h);
    if left_is_red(f.right) {
        flipped(rotl(Node { right: Some(Box::new(rotr(*f.right.unwrap()))), ..f }))
    } else {
        f
    }
}

/// `h` after pushing a red link down to its right: a flip, and where the
/// left child's left child then is red, a right rotation and a second flip.
pub open spec fn moved_red_right(h: Node) -> Node {
    let f = flipped(h);
    if left_is_red(f.left) {
        flipped(rotr(f))
    } else {
        f
    }
}

/// `b` is black-balanced and has the black height of `a`.
pub open spec fn same_black(a: Node, b: Node) -> bool {
    &&& black_balanced(Some(Box::new(b)))
    &&& black_height(Some(Box::new(b))) == black_height(Some(Box::new(a)))
}

/// Each state that the three rebalancing rules pass through at `h` is
/// black-balanced with the black height of `h`.
pub open spec fn fix_steps_balanced(h: Node) -> bool {
    let h1 = if is_red(h.right) && !is_red(h.left) {
        rotl(h)
    } else {
        h
    };
    let h2 = if is_red(h1.left) && left_is_red(h1.left) {
        rotr(h1)
    } else {
        h1
    };
    &&& same_black(h, h1)
    &&& same_black(h, h2)
    &&& (is_red(h2.left) && is_red(h2.right) ==> same_black(h, flipped(h2)))
}

/// Each state that pushing a red link down to the left of `h` passes
/// through is black-balanced with the black height of `h`.
pub open spec fn mrl_steps_balanced(h: Node) -> bool {
    let f = flipped(h);
    &&& same_black(h, f)
    &&& (left_is_red(f.right) ==> {
        let h2 = Node { right: Some(Box::new(rotr(*f.right.unwrap()))), ..f };
        &&& same_black(h, h2)
        &&& same_black(h, rotl(h2))
        &&& same_black(h, flipped(rotl(h2)))
    })
}

/// Each state that pushing a red link down to the right of `h` passes
/// through is black-balanced with the black height of `h`.
pub open spec fn mrr_steps_balanced(h: Node) -> bool {
    let f = flipped(h);
    &&& same_black(h, f)
    &&& (left_is_red(f.left) ==> same_black(h, rotr(f)) && same_black(h, flipped(rotr(f))))
}

/// The content and the order of a subtree are unchanged by a left rotation.
pub proof fn lemma_rotl(h: Node)
    requires
        h.right is Some,
    ensures
        keys_of(Some(Box::new(rotl(h)))) =~= keys_of(Some(Box::new(h))),
        count(Some(Box::new(rotl(h)))) == count(Some(Box::new(h))),
        ordered(Some(Box::new(h))) ==> ordered(Some(Box::new(rotl(h)))),
        ordered(Some(Box::new(h))) ==> map_of(Some(Box::new(rotl(h)))) =~= map_of(
            Some(Box::new(h)),
        ),
        sizes_ok(Some(Box::new(h))) ==> sizes_ok(Some(Box::new(rotl(h)))),
{
    let x = h.right.unwrap();
    let inner = rotl(h).left;
    assert(map_of(inner) == map_of(h.left).union_prefer_right(map_of(x.left)).insert(
        h.key,
        h.value,
    ));
    assert(map_of(h.right) == map_of(x.left).union_prefer_right(map_of(x.right)).insert(
        x.key,
        x.value,
    ));
    assert(keys_of(inner) == keys_of(h.left) + seq![h.key] + keys_of(x.left));
    assert(keys_of(h.right) == keys_of(x.left) + seq![x.key] + keys_of(x.right));
    assert(count(inner) == 1 + count(h.left) + count(x.left));
    assert(count(h.right) == 1 + count(x.left) + count(x.right));
    if sizes_ok(Some(Box::new(h))) {
        assert(sizes_ok(h.left) && sizes_ok(h.right));
        assert(sizes_ok(x.left) && sizes_ok(x.right));
        assert(size_of(h.left) == count(h.left) && size_of(x.left) == count(x.left));
        assert(sizes_ok(inner));
    }
    if ordered(Some(Box::new(h))) {
        assert(ordered(h.left) && ordered(h.right));
        assert(ordered(x.left) && ordered(x.right));
        assert(map_of(h.right).dom().contains(x.key));
        assert forall|k: u32| map_of(x.left).dom().contains(k) implies h.key < k && k < x.key by {
            assert(map_of(h.right).dom().contains(k));
        }
        assert forall|k: u32| map_of(x.right).dom().contains(k) implies h.key < k by {
            assert(map_of(h.right).dom().contains(k));
        }
        assert forall|k: u32| #[trigger] map_of(inner).dom().contains(k) implies k < x.key by {
            if map_of(h.left).dom().contains(k) {
            } else if map_of(x.left).dom().contains(k) {
            }
        }
        assert(ordered(inner));
        assert(map_of(Some(Box::new(rotl(h)))) =~= map_of(Some(Box::new(h))));
    }
}

/// The content and the order of a subtree are unchanged by a right rotation.
pub proof fn lemma_rotr(h: Node)
    requires
        h.left is Some,
    ensures
        keys_of(Some(Box::new(rotr(h)))) =~= keys_of(Some(Box::new(h))),
        count(Some(Box::new(rotr(h)))) == count(Some(Box::new(h))),
        ordered(Some(Box::new(h))) ==> ordered(Some(Box::new(rotr(h)))),
        ordered(Some(Box::new(h))) ==> map_of(Some(Box::new(rotr(h)))) =~= map_of(
            Some(Box::new(h)),
        ),
        sizes_ok(Some(Box::new(h))) ==> sizes_ok(Some(Box::new(rotr(h)))),
{
    let x = h.left.unwrap();
    let inner = rotr(h).right;
    assert(map_of(inner) == map_of(x.right).union_prefer_right(map_of(h.right)).insert(
        h.key,
        h.value,
    ));
    assert(map_of(h.left) == map_of(x.left).union_prefer_right(map_of(x.right)).insert(
        x.key,
        x.value,
    ));
    assert(keys_of(inner) == keys_of(x.right) + seq![h.key] + keys_of(h.right));
    assert(keys_of(h.left) == keys_of(x.left) + seq![x.key] + keys_of(x.right));
    assert(count(inner) == 1 + count(x.right) + count(h.right));
    assert(count(h.left) == 1 + count(x.left) + count(x.right));
    if sizes_ok(Some(Box::new(h))) {
        assert(sizes_ok(h.left) && sizes_ok(h.right));
        assert(sizes_ok(x.left) && sizes_ok(x.right));
        assert(size_of(h.right) == count(h.right) && size_of(x.right) == count(x.right));
        assert(sizes_ok(inner));
    }
    if ordered(Some(Box::new(h))) {
        assert(ordered(h.left) && ordered(h.right));
        assert(ordered(x.left) && ordered(x.right));
        assert(map_of(h.left).dom().contains(x.key));
        assert forall|k: u32| map_of(x.right).dom().contains(k) implies x.key < k && k < h.key by {
            assert(map_of(h.left).dom().contains(k));
        }
        assert forall|k: u32| map_of(x.left).dom().contains(k) implies k < h.key by {
            assert(map_of(h.left).dom().contains(k));
        }
        assert forall|k: u32| #[trigger] map_of(inner).dom().contains(k) implies x.key < k by {
            if map_of(h.right).dom().contains(k) {
            } else if map_of(x.right).dom().contains(k) {
            }
        }
        assert(ordered(inner));
        assert(map_of(Some(Box::new(rotr(h)))) =~= map_of(Some(Box::new(h))));
    }
}

/// Color flips change no key, value, size or position.
pub proof fn lemma_flipped(h: Node)
    ensures
        map_of(Some(Box::new(flipped(h)))) =~= map_of(Some(Box::new(h))),
        keys_of(Some(Box::new(flipped(h)))) =~= keys_of(Some(Box::new(h))),
        count(Some(Box::new(flipped(h)))) == count(Some(Box::new(h))),
        ordered(Some(Box::new(h))) ==> ordered(Some(Box::new(flipped(h)))),
        sizes_ok(Some(Box::new(h))) ==> sizes_ok(Some(Box::new(flipped(h)))),
{
    lemma_flip_link(h.left);
    lemma_flip_link(h.right);
}

proof fn lemma_flip_link(t: Option<Box<Node>>)
    ensures
        map_of(flip_link(t)) == map_of(t),
        keys_of(flip_link(t)) == keys_of(t),
        count(flip_link(t)) == count(t),
        ordered(flip_link(t)) == ordered(t),
        sizes_ok(flip_link(t)) == sizes_ok(t),
{
}

/// Rotates `h` to the left; its right child must exist.
pub fn rotate_left(h: Box<Node>) -> (r: Box<Node>)
    requires
        h.right is Some,
        sizes_ok(Some(h)),
    ensures
        *r == rotl(*h),
        ordered(Some(h)) ==> map_of(Some(r)) == map_of(Some(h)),
        keys_of(Some(r)) == keys_of(Some(h)),
        count(Some(r)) == count(Some(h)),
        ordered(Some(h)) ==> ordered(Some(r)),
        sizes_ok(Some(r)),
{
    let ghost g = *h;
    proof {
        lemma_rotl(g);
        let x = g.right.unwrap();
        assert(count(g.right) == 1 + count(x.left) + count(x.right));
        assert(sizes_ok(g.left) && sizes_ok(g.right));
        assert(sizes_ok(x.left));
        assert(size_of(g.left) == count(g.left));
        assert(size_of(x.left) == count(x.left));
    }
    let mut h = h;
    let mut x = h.right.take().unwrap();
    let ls: u64 = match &h.left {
        Some(l) => l.size,
        None => 0,
    };
    let xls: u64 = match &x.left {
        Some(l) => l.size,
        None => 0,
    };
    let total = h.size;
    let hc = h.color;
    h.right = x.left.take();
    h.color = Color::Red;
    h.size = 1 + ls + xls;
    x.color = hc;
    x.size = total;
    x.left = Some(h);
    proof {
        assert(*x == rotl(g));
    }
    x
}

/// Rotates `h` to the right; its left child must exist.
pub fn rotate_right(h: Box<Node>) -> (r: Box<Node>)
    requires
        h.left is Some,
        sizes_ok(Some(h)),
    ensures
        *r == rotr(*h),
        ordered(Some(h)) ==> map_of(Some(r)) == map_of(Some(h)),
        keys_of(Some(r)) == keys_of(Some(h)),
        count(Some(r)) == count(Some(h)),
        ordered(Some(h)) ==> ordered(Some(r)),
        sizes_ok(Some(r)),
{
    let ghost g = *h;
    proof {
        lemma_rotr(g);
        let x = g.left.unwrap();
        assert(count(g.left) == 1 + count(x.left) + count(x.right));
        assert(sizes_ok(g.left) && sizes_ok(g.right));
        assert(sizes_ok(x.right));
        assert(size_of(g.right) == count(g.right));
        assert(size_of(x.right) == count(x.right));
    }
    let mut h = h;
    let mut x = h.left.take().unwrap();
    let rs: u64 = match &h.right {
        Some(r) => r.size,
        None => 0,
    };
    let xrs: u64 = match &x.right {
        Some(r) => r.size,
        None => 0,
    };
    let total = h.size;
    let hc = h.color;
    h.left = x.right.take();
    h.color = Color::Red;
    h.size = 1 + xrs + rs;
    x.color = hc;
    x.size = total;
    x.right = Some(h);
    proof {
        assert(*x == rotr(g));
    }
    x
}

fn flip_color_exec(c: Color) -> (r: Color)
    ensures
        r == flip_color(c),
{
    match c {
        Color::Red => Color::Black,
        Color::Black => Color::Red,
    }
}

/// Complements the color of `h` and of each of its children.
pub fn flip_colors(h: Box<Node>) -> (r: Box<Node>)
    ensures
        *r == flipped(*h),
        map_of(Some(r)) == map_of(Some(h)),
        keys_of(Some(r)) == keys_of(Some(h)),
        count(Some(r)) == count(Some(h)),
        ordered(Some(h)) ==> ordered(Some(r)),
        sizes_ok(Some(h)) ==> sizes_ok(Some(r)),
{
    let ghost g = *h;
    proof {
        lemma_flipped(g);
    }
    let mut h = h;
    h.color = flip_color_exec(h.color);
    if let Some(mut l) = h.left.take() {
        l.color = flip_color_exec(l.color);
        h.left = Some(l);
    }
    if let Some(mut r) = h.right.take() {
        r.color = flip_color_exec(r.color);
        h.right = Some(r);
    }
    proof {
        assert(h.left == flip_link(g.left));
        assert(h.right == flip_link(g.right));
        assert(*h == flipped(g));
    }
    h
}

pub fn red(t: &Option<Box<Node>>) -> (r: bool)
    ensures
        r == is_red(*t),
{
    match t {
        Some(n) => match n.color {
            Color::Red => true,
            Color::Black => false,
        },
        None => false,
    }
}

pub fn left_red(t: &Option<Box<Node>>) -> (r: bool)
    ensures
        r == left_is_red(*t),
{
    match t {
        Some(n) => red(&n.left),
        None => false,
    }
}

/// An independent copy of a subtree.
pub fn copy_tree(t: &Option<Box<Node>>) -> (r: Option<Box<Node>>)
    ensures
        r == *t,
    decreases *t,
{
    match t {
        Some(n) => {
            let left = copy_tree(&n.left);
            let right = copy_tree(&n.right);
            Some(
                Box::new(
                    Node {
                        key: n.key,
                        value: n.value.clone(),
                        color: n.color,
                        size: n.size,
                        left,
                        right,
                    },
                ),
            )
        },
        None => None,
    }
}

} // verus!
