//! A red-black tree whose insertions, deletions, searches and traversals are
//! recorded step by step.
//!
//! Each node owns its two subtrees. The parent of a node is the frame of the
//! recursion that reached it, so no back-reference needs to be kept in step
//! with the child links: the fixup cases run at the grandparent (insertion) or
//! the parent (deletion) as the recursion unwinds, in the order in which the
//! classic parent-linked loop visits them.

use vstd::prelude::*;
use crate::error::DsavError;
use crate::state::{ElementState, RenderElement, RenderState};
use crate::text::{decimal, int_text, join, lit};
use crate::traits::{
    text_entry, MetaEntry, flagged, meta_flag, meta_index, meta_int, meta_ints, meta_text, meta_texts, step, MetaValue, Operation, Step, Visualizable,
};

verus! {

/// The colour of a node. A vacant subtree counts as black.
#[derive(Debug, Clone, Copy, PartialEq, Eq, Structural)]
pub enum Color {
    Red,
    Black,
}

/// A node of the tree; it owns its two subtrees.
#[derive(Debug)]
pub struct Node {
    pub value: i32,
    pub color: Color,
    pub left: Option<Box<Node>>,
    pub right: Option<Box<Node>>,
}

impl Node {
    /// A new node is red and has no children.
    fn new(value: i32) -> (r: Self)
        ensures
            r.value == value,
            r.color == Color::Red,
            r.left is None,
            r.right is None,
    {
        Node { value, color: Color::Red, left: None, right: None }
    }
}

/// The values held by a subtree.
spec fn values(t: Option<Box<Node>>) -> Set<i32>
    decreases t,
{
    match t {
        None => Set::empty(),
        Some(n) => values(n.left).union(values(n.right)).insert(n.value),
    }
}

/// The values of a subtree, left to right.
spec fn inorder(t: Option<Box<Node>>) -> Seq<i32>
    decreases t,
{
    match t {
        None => Seq::empty(),
        Some(n) => inorder(n.left) + seq![n.value] + inorder(n.right),
    }
}

/// The number of nodes of a subtree.
spec fn count(t: Option<Box<Node>>) -> nat
    decreases t,
{
    match t {
        None => 0,
        Some(n) => count(n.left) + count(n.right) + 1,
    }
}

/// Search-tree order: every value left of a node is smaller, every value right
/// of it larger.
spec fn ordered(t: Option<Box<Node>>) -> bool
    decreases t,
{
    match t {
        None => true,
        Some(n) => {
            &&& ordered(n.left)
            &&& ordered(n.right)
            &&& forall|x: i32| #[trigger] values(n.left).contains(x) ==> x < n.value
            &&& forall|x: i32| #[trigger] values(n.right).contains(x) ==> n.value < x
        },
    }
}

pub open spec fn is_red(t: Option<Box<Node>>) -> bool {
    match t {
        None => false,
        Some(n) => n.color == Color::Red,
    }
}

/// No red node has a red child.
spec fn no_red_red(t: Option<Box<Node>>) -> bool
    decreases t,
{
    match t {
        None => true,
        Some(n) => {
            &&& no_red_red(n.left)
            &&& no_red_red(n.right)
            &&& n.color == Color::Red ==> !is_red(n.left) && !is_red(n.right)
        },
    }
}

/// The black nodes on the leftmost path of a subtree, its root included.
spec fn black_height(t: Option<Box<Node>>) -> nat
    decreases t,
{
    match t {
        None => 0,
        Some(n) => black_height(n.left) + if n.color == Color::Black { 1nat } else { 0nat },
    }
}

/// Every path from the root of a subtree to a vacant position meets as many
/// black nodes.
spec fn balanced(t: Option<Box<Node>>) -> bool
    decreases t,
{
    match t {
        None => true,
        Some(n) => balanced(n.left) && balanced(n.right) && black_height(n.left) == black_height(n.right),
    }
}

/// The structure after a left rotation at `x`, colours travelling with their nodes.
pub open spec fn rotated_left(x: Node) -> Node {
    let y = x.right.unwrap();
    Node {
        value: y.value,
        color: y.color,
        left: Some(Box::new(Node { value: x.value, color: x.color, left: x.left, right: y.left })),
        right: y.right,
    }
}

/// The structure after a right rotation at `x`, colours travelling with their nodes.
pub open spec fn rotated_right(x: Node) -> Node {
    let y = x.left.unwrap();
    Node {
        value: y.value,
        color: y.color,
        left: y.left,
        right: Some(Box::new(Node { value: x.value, color: x.color, left: y.right, right: x.right })),
    }
}

proof fn lemma_rotate_left(x: Node)
    requires
        x.right is Some,
    ensures
        values(Some(Box::new(rotated_left(x)))) == values(Some(Box::new(x))),
        inorder(Some(Box::new(rotated_left(x)))) == inorder(Some(Box::new(x))),
        count(Some(Box::new(rotated_left(x)))) == count(Some(Box::new(x))),
        ordered(Some(Box::new(x))) ==> ordered(Some(Box::new(rotated_left(x)))),
{
    let y = x.right.unwrap();
    let r = rotated_left(x);
    let inner = Node { value: x.value, color: x.color, left: x.left, right: y.left };
    assert(values(r.left) == values(x.left).union(values(y.left)).insert(x.value));
    assert(values(x.right) == values(y.left).union(values(y.right)).insert(y.value));
    assert(values(Some(Box::new(r))) =~= values(Some(Box::new(x))));
    assert(inorder(r.left) == inorder(x.left) + seq![x.value] + inorder(y.left));
    assert(inorder(x.right) == inorder(y.left) + seq![y.value] + inorder(y.right));
    assert(inorder(Some(Box::new(r))) =~= inorder(Some(Box::new(x))));
    assert(count(r.left) == count(x.left) + count(y.left) + 1);
    assert(count(x.right) == count(y.left) + count(y.right) + 1);
    if ordered(Some(Box::new(x))) {
        assert(ordered(x.right));
        assert(x.right == Some(y));
        assert(ordered(y.left) && ordered(y.right));
        assert(values(x.right).contains(y.value));
        assert forall|v: i32| #[trigger] values(y.left).contains(v) implies x.value < v by {
            assert(values(x.right).contains(v));
        }
        assert(ordered(Some(Box::new(inner))));
        assert forall|v: i32| #[trigger] values(r.left).contains(v) implies v < r.value by {
            if values(x.left).contains(v) {
                assert(v < x.value);
            } else if v != x.value {
                assert(values(y.left).contains(v));
            }
        }
    }
}

proof fn lemma_rotate_right(x: Node)
    requires
        x.left is Some,
    ensures
        values(Some(Box::new(rotated_right(x)))) == values(Some(Box::new(x))),
        inorder(Some(Box::new(rotated_right(x)))) == inorder(Some(Box::new(x))),
        count(Some(Box::new(rotated_right(x)))) == count(Some(Box::new(x))),
        ordered(Some(Box::new(x))) ==> ordered(Some(Box::new(rotated_right(x)))),
{
    let y = x.left.unwrap();
    let r = rotated_right(x);
    let inner = Node { value: x.value, color: x.color, left: y.right, right: x.right };
    assert(values(r.right) == values(y.right).union(values(x.right)).insert(x.value));
    assert(values(x.left) == values(y.left).union(values(y.right)).insert(y.value));
    assert(values(Some(Box::new(r))) =~= values(Some(Box::new(x))));
    assert(inorder(r.right) == inorder(y.right) + seq![x.value] + inorder(x.right));
    assert(inorder(x.left) == inorder(y.left) + seq![y.value] + inorder(y.right));
    assert(inorder(Some(Box::new(r))) =~= inorder(Some(Box::new(x))));
    assert(count(r.right) == count(y.right) + count(x.right) + 1);
    assert(count(x.left) == count(y.left) + count(y.right) + 1);
    if ordered(Some(Box::new(x))) {
        assert(ordered(x.left));
        assert(x.left == Some(y));
        assert(ordered(y.left) && ordered(y.right));
        assert(values(x.left).contains(y.value));
        assert forall|v: i32| #[trigger] values(y.right).contains(v) implies v < x.value by {
            assert(values(x.left).contains(v));
        }
        assert(ordered(Some(Box::new(inner))));
        assert forall|v: i32| #[trigger] values(r.right).contains(v) implies r.value < v by {
            if values(x.right).contains(v) {
                assert(x.value < v);
            } else if v != x.value {
                assert(values(y.right).contains(v));
            }
        }
    }
}

/// Left rotation at `x`: its right child takes its place.
fn rotate_left(x: Box<Node>) -> (r: Box<Node>)
    requires
        x.right is Some,
    ensures
        *r == rotated_left(*x),
{
    let mut x = x;
    let mut y = x.right.take().unwrap();
    x.right = y.left.take();
    y.left = Some(x);
    y
}

/// Right rotation at `x`: its left child takes its place.
fn rotate_right(x: Box<Node>) -> (r: Box<Node>)
    requires
        x.left is Some,
    ensures
        *r == rotated_right(*x),
{
    let mut x = x;
    let mut y = x.left.take().unwrap();
    x.left = y.right.take();
    y.right = Some(x);
    y
}


/// What an insertion into a subtree leaves for the levels above it to repair.
#[derive(PartialEq, Eq, Structural, Clone, Copy)]
pub enum InsertState {
    /// The value was already there; nothing changed.
    Duplicate,
    /// No red node has a red parent any more.
    Done,
    /// The subtree's root is red and its parent has not been looked at yet.
    Pending,
    /// The subtree's root is red and so is its child on the left (`true`) or
    /// on the right (`false`); the grandparent must repair this.
    RedRed(bool),
}

/// The position of a child in the complete-binary-tree numbering used to
/// address nodes in steps: `2i + 1` on the left, `2i + 2` on the right,
/// saturating at `usize::MAX`.
pub open spec fn child_position(i: int, left: bool) -> int {
    let c = if left { 2 * i + 1 } else { 2 * i + 2 };
    if c > usize::MAX { usize::MAX as int } else { c }
}

pub(crate) fn child_pos(i: usize, left: bool) -> (r: usize)
    ensures
        r == child_position(i as int, left),
{
    let off: usize = if left { 1 } else { 2 };
    if i > (usize::MAX - off) / 2 {
        usize::MAX
    } else {
        2 * i + off
    }
}

fn color_word(c: Color) -> (r: &'static str) {
    match c {
        Color::Red => "RED",
        Color::Black => "BLACK",
    }
}

fn color_name(c: Color) -> (r: &'static str)
    ensures
        r@ == color_text(c),
{
    match c {
        Color::Red => "red",
        Color::Black => "black",
    }
}

fn link_is_red(t: &Option<Box<Node>>) -> (r: bool)
    ensures
        r == is_red(*t),
{
    match t {
        None => false,
        Some(n) => n.color == Color::Red,
    }
}

fn with_color(n: Box<Node>, c: Color) -> (r: Box<Node>)
    ensures
        r.value == n.value,
        r.color == c,
        r.left == n.left,
        r.right == n.right,
{
    let mut n = n;
    n.color = c;
    n
}

proof fn lemma_recolor(n: Node, c: Color)
    ensures
        values(Some(Box::new(Node { color: c, ..n }))) == values(Some(Box::new(n))),
        inorder(Some(Box::new(Node { color: c, ..n }))) == inorder(Some(Box::new(n))),
        count(Some(Box::new(Node { color: c, ..n }))) == count(Some(Box::new(n))),
        ordered(Some(Box::new(Node { color: c, ..n }))) == ordered(Some(Box::new(n))),
{
}


pub open spec fn child_of(n: Node, left: bool) -> Option<Box<Node>> {
    if left { n.left } else { n.right }
}

pub open spec fn replace_child(n: Node, left: bool, c: Option<Box<Node>>) -> Node {
    if left { Node { left: c, ..n } } else { Node { right: c, ..n } }
}

/// The child of `t`'s root on the given side, vacant where `t` is.
pub open spec fn child(t: Option<Box<Node>>, left: bool) -> Option<Box<Node>> {
    match t {
        None => None,
        Some(n) => child_of(*n, left),
    }
}

fn child_ref(n: &Node, left: bool) -> (r: &Option<Box<Node>>)
    ensures
        *r == child_of(*n, left),
{
    if left { &n.left } else { &n.right }
}

fn detach(n: Box<Node>, left: bool) -> (r: (Box<Node>, Option<Box<Node>>))
    ensures
        *r.0 == replace_child(*n, left, None),
        r.1 == child_of(*n, left),
{
    let mut n = n;
    let c = if left { n.left.take() } else { n.right.take() };
    (n, c)
}

fn attach(n: Box<Node>, left: bool, c: Option<Box<Node>>) -> (r: Box<Node>)
    ensures
        *r == replace_child(*n, left, c),
{
    let mut n = n;
    if left {
        n.left = c;
    } else {
        n.right = c;
    }
    n
}

/// A left rotation where `left` holds, a right one otherwise.
fn rotate(x: Box<Node>, left: bool) -> (r: Box<Node>)
    requires
        child_of(*x, !left) is Some,
    ensures
        *r == if left { rotated_left(*x) } else { rotated_right(*x) },
{
    if left { rotate_left(x) } else { rotate_right(x) }
}

proof fn lemma_rotate(x: Node, left: bool)
    requires
        child_of(x, !left) is Some,
    ensures
        values(Some(Box::new(if left { rotated_left(x) } else { rotated_right(x) }))) == values(Some(Box::new(x))),
        inorder(Some(Box::new(if left { rotated_left(x) } else { rotated_right(x) }))) == inorder(Some(Box::new(x))),
        count(Some(Box::new(if left { rotated_left(x) } else { rotated_right(x) }))) == count(Some(Box::new(x))),
        ordered(Some(Box::new(x))) ==> ordered(Some(Box::new(if left { rotated_left(x) } else { rotated_right(x) }))),
{
    if left { lemma_rotate_left(x) } else { lemma_rotate_right(x) }
}

/// Putting in place of a child a subtree with the same values keeps the
/// values, the count and the order.
proof fn lemma_same_child(n: Node, left: bool, c: Option<Box<Node>>)
    requires
        values(c) == values(child_of(n, left)),
        count(c) == count(child_of(n, left)),
        ordered(Some(Box::new(n))) ==> ordered(c),
    ensures
        values(Some(Box::new(replace_child(n, left, c)))) == values(Some(Box::new(n))),
        count(Some(Box::new(replace_child(n, left, c)))) == count(Some(Box::new(n))),
        inorder(c) == inorder(child_of(n, left))
            ==> inorder(Some(Box::new(replace_child(n, left, c)))) == inorder(Some(Box::new(n))),
        ordered(Some(Box::new(n))) ==> ordered(Some(Box::new(replace_child(n, left, c)))),
{
}


/// A red root whose child on side `zl` is red as well; apart from that pair
/// no red node has a red child, and the other child is black.
spec fn red_pair(t: Option<Box<Node>>, zl: bool) -> bool {
    match t {
        None => false,
        Some(p) => {
            &&& p.color == Color::Red
            &&& is_red(child_of(*p, zl))
            &&& no_red_red(child_of(*p, zl))
            &&& !is_red(child_of(*p, !zl))
            &&& no_red_red(child_of(*p, !zl))
        },
    }
}

proof fn lemma_recolor_rb(n: Node, c: Color)
    ensures
        balanced(Some(Box::new(Node { color: c, ..n }))) == balanced(Some(Box::new(n))),
        black_height(Some(Box::new(Node { color: c, ..n }))) == black_height(n.left) + if c == Color::Black { 1nat } else { 0nat },
        black_height(Some(Box::new(n))) == black_height(n.left) + if n.color == Color::Black { 1nat } else { 0nat },
        c == Color::Black ==> no_red_red(Some(Box::new(Node { color: c, ..n }))) == (no_red_red(n.left) && no_red_red(n.right)),
{
}

/// Rotating a red parent at the inner red child turns the triangle into a
/// line, keeping the balance and the black height.
proof fn lemma_triangle(p: Node, pl: bool)
    requires
        red_pair(Some(Box::new(p)), !pl),
        balanced(Some(Box::new(p))),
    ensures
        red_pair(Some(Box::new(if pl { rotated_left(p) } else { rotated_right(p) })), pl),
        balanced(Some(Box::new(if pl { rotated_left(p) } else { rotated_right(p) }))),
        black_height(Some(Box::new(if pl { rotated_left(p) } else { rotated_right(p) }))) == black_height(Some(Box::new(p))),
{
    let z = child_of(p, !pl).unwrap();
    assert(no_red_red(z.left) && no_red_red(z.right) && !is_red(z.left) && !is_red(z.right));
    assert(balanced(p.left) && balanced(p.right) && black_height(p.left) == black_height(p.right));
    assert(balanced(z.left) && balanced(z.right) && black_height(z.left) == black_height(z.right));
    if pl {
        let inner = Node { value: p.value, color: p.color, left: p.left, right: z.left };
        assert(no_red_red(Some(Box::new(inner))));
        assert(balanced(Some(Box::new(inner))));
        assert(black_height(Some(Box::new(inner))) == black_height(p.left));
    } else {
        let inner = Node { value: p.value, color: p.color, left: z.right, right: p.right };
        assert(no_red_red(Some(Box::new(inner))));
        assert(balanced(Some(Box::new(inner))));
        assert(black_height(Some(Box::new(inner))) == black_height(z.right));
        assert(black_height(Some(z)) == black_height(z.left));
    }
}

/// The line case at a black grandparent with a black uncle: recolouring the
/// parent black and the grandparent red, then rotating at the grandparent,
/// leaves a balanced subtree with a black root and no red-red pair.
proof fn lemma_line(g: Node, pl: bool)
    requires
        g.color == Color::Black,
        red_pair(child_of(g, pl), pl),
        !is_red(child_of(g, !pl)),
        no_red_red(child_of(g, !pl)),
        balanced(Some(Box::new(g))),
    ensures
        ({
            let p2 = Node { color: Color::Black, ..*child_of(g, pl).unwrap() };
            let g4 = Node { color: Color::Red, ..replace_child(g, pl, Some(Box::new(p2))) };
            let r = if !pl { rotated_left(g4) } else { rotated_right(g4) };
            &&& no_red_red(Some(Box::new(r)))
            &&& balanced(Some(Box::new(r)))
            &&& black_height(Some(Box::new(r))) == black_height(Some(Box::new(g)))
            &&& r.color == Color::Black
        }),
{
    let p = child_of(g, pl).unwrap();
    let z = child_of(*p, pl).unwrap();
    let b = child_of(*p, !pl);
    let u = child_of(g, !pl);
    assert(balanced(g.left) && balanced(g.right) && black_height(g.left) == black_height(g.right));
    assert(balanced(p.left) && balanced(p.right) && black_height(p.left) == black_height(p.right));
    assert(black_height(Some(p)) == black_height(p.left));
    if pl {
        let inner = Node { value: g.value, color: Color::Red, left: b, right: u };
        assert(no_red_red(Some(Box::new(inner))));
        assert(balanced(Some(Box::new(inner))));
        assert(black_height(Some(Box::new(inner))) == black_height(b));
    } else {
        let inner = Node { value: g.value, color: Color::Red, left: u, right: b };
        assert(no_red_red(Some(Box::new(inner))));
        assert(balanced(Some(Box::new(inner))));
        assert(black_height(Some(Box::new(inner))) == black_height(u));
    }
}

/// The uncle-red case at a black grandparent: recolouring parent and uncle
/// black and the grandparent red keeps the balance and the black height, and
/// leaves no red-red pair below the (now red) grandparent.
proof fn lemma_uncle_red(g: Node, pl: bool, zl: bool)
    requires
        g.color == Color::Black,
        red_pair(child_of(g, pl), zl),
        is_red(child_of(g, !pl)),
        no_red_red(child_of(g, !pl)),
        balanced(Some(Box::new(g))),
    ensures
        ({
            let p2 = Node { color: Color::Black, ..*child_of(g, pl).unwrap() };
            let u2 = Node { color: Color::Black, ..*child_of(g, !pl).unwrap() };
            let g2 = Node { color: Color::Red, ..replace_child(replace_child(g, pl, Some(Box::new(p2))), !pl, Some(Box::new(u2))) };
            &&& no_red_red(Some(Box::new(g2)))
            &&& balanced(Some(Box::new(g2)))
            &&& black_height(Some(Box::new(g2))) == black_height(Some(Box::new(g)))
        }),
{
    let p = child_of(g, pl).unwrap();
    let u = child_of(g, !pl).unwrap();
    assert(balanced(g.left) && balanced(g.right) && black_height(g.left) == black_height(g.right));
    assert(no_red_red(u.left) && no_red_red(u.right));
    assert(no_red_red(p.left) && no_red_red(p.right));
    lemma_recolor_rb(*p, Color::Black);
    lemma_recolor_rb(*u, Color::Black);
}

fn value_text(t: &Option<Box<Node>>) -> (r: String) {
    match t {
        None => lit("NIL"),
        Some(n) => int_text(n.value as i64),
    }
}

/// What an insertion records, one event per step, in order.
pub enum InsertEvent {
    /// The request, naming the value.
    Announce,
    /// The empty tree takes the value as its black root.
    EmptyRoot,
    /// The value is compared with the node holding the given value, at the
    /// given position, which ends the highlighted path.
    Compare(i32, usize),
    /// The value is already there.
    Duplicate,
    /// The new red leaf is attached at the given position.
    Placed(usize),
    /// The current node, its parent, grandparent and uncle are looked at.
    Examine,
    /// The uncle is red; on the mirrored side where the flag holds.
    UncleRed(bool),
    /// The triangle is rotated at the parent, whose value is given: to the
    /// left, or to the right on the mirrored side.
    Triangle(bool, i32),
    /// The line is rotated at the grandparent, whose value is given: to the
    /// right, or to the left on the mirrored side.
    Line(bool, i32),
    /// The parent is black, or the root is reached: the repair ends.
    FixupEnd,
    /// The root is painted black.
    RootRecolor,
    /// The insertion is complete.
    Restored,
}

/// Whether the step `s` records the event `e`, by its first metadata entry
/// (and, for rotations, the pivot it names).
pub open spec fn shows(s: Step, e: InsertEvent) -> bool {
    let m = s.metadata@;
    &&& m.len() > 0
    &&& match e {
        InsertEvent::Announce => text_entry(m[0], "operation"@, "insert"@),
        InsertEvent::EmptyRoot => m[0].key@ == "new_root"@,
        InsertEvent::Compare(n, pos) => s.highlight_indices@.len() > 0 && s.highlight_indices@.last() == pos
            && m[0].key@ == "comparing"@ && m[0].value is Ints && m[0].value->Ints_0@.len() == 2
            && m[0].value->Ints_0@[1] == n as i64,
        InsertEvent::Duplicate => m[0].key@ == "duplicate"@,
        InsertEvent::Placed(pos) => m[0].key@ == "inserted"@ && s.active_indices@ == seq![pos],
        InsertEvent::Examine => m[0].key@ == "z"@,
        InsertEvent::UncleRed(mirror) => text_entry(m[0], "case"@, if mirror { "uncle_red_mirror"@ } else { "uncle_red"@ }),
        InsertEvent::Triangle(mirror, pivot) => text_entry(m[0], "case"@, if mirror { "triangle_mirror"@ } else { "triangle"@ })
            && m.len() > 2 && text_entry(m[1], "rotation"@, if mirror { "right"@ } else { "left"@ })
            && m[2].value == MetaValue::Int(pivot as i64),
        InsertEvent::Line(mirror, pivot) => text_entry(m[0], "case"@, if mirror { "line_mirror"@ } else { "line"@ })
            && m.len() > 2 && text_entry(m[1], "rotation"@, if mirror { "left"@ } else { "right"@ })
            && m[2].value == MetaValue::Int(pivot as i64),
        InsertEvent::FixupEnd => m[0].key@ == "fixup_end"@,
        InsertEvent::RootRecolor => m[0].key@ == "root_recolor"@,
        InsertEvent::Restored => m[0].key@ == "fixup_complete"@,
    }
}

/// Whether `s` is `before` followed by one step for each event of `ev`, in order.
pub open spec fn records(s: Seq<Step>, before: Seq<Step>, ev: Seq<InsertEvent>) -> bool {
    &&& s.len() == before.len() + ev.len()
    &&& s.subrange(0, before.len() as int) == before
    &&& forall|i: int| #![trigger ev[i]] 0 <= i < ev.len() ==> shows(s[before.len() + i], ev[i])
}

proof fn lemma_records_push(before: Seq<Step>, x: Step, e: InsertEvent)
    requires
        shows(x, e),
    ensures
        records(before.push(x), before, seq![e]),
{
    assert(before.push(x).subrange(0, before.len() as int) =~= before);
    assert(before.push(x)[before.len() as int] == x);
}

proof fn lemma_records_concat(s0: Seq<Step>, s1: Seq<Step>, s2: Seq<Step>, e1: Seq<InsertEvent>, e2: Seq<InsertEvent>)
    requires
        records(s1, s0, e1),
        records(s2, s1, e2),
    ensures
        records(s2, s0, e1 + e2),
{
    assert(s2.subrange(0, s0.len() as int) =~= s1.subrange(0, s0.len() as int)) by {
        assert forall|k: int| 0 <= k < s0.len() implies s2[k] == s1[k] by {
            assert(s2.subrange(0, s1.len() as int)[k] == s2[k]);
        }
    }
    assert forall|i: int| 0 <= i < (e1 + e2).len() implies #[trigger] shows(s2[s0.len() + i], (e1 + e2)[i]) by {
        if i < e1.len() {
            assert(s2.subrange(0, s1.len() as int)[s0.len() + i] == s2[s0.len() + i]);
            assert(shows(s1[s0.len() + i], e1[i]));
        } else {
            assert(shows(s2[s1.len() + (i - e1.len())], e2[i - e1.len()]));
        }
    }
}

/// A left rotation where `left` holds, a right one otherwise.
pub open spec fn rotated(x: Node, left: bool) -> Node {
    if left { rotated_left(x) } else { rotated_right(x) }
}

/// `n` painted `c`.
pub open spec fn painted(n: Node, c: Color) -> Node {
    Node { color: c, ..n }
}

/// The insertion fixup at grandparent `g` whose child on side `pl` is a red
/// parent with a red child on side `zl`: the subtree it leaves, whether the
/// repair goes on above, and the events it records.
pub open spec fn repair_model(g: Node, pl: bool, zl: bool) -> (Node, InsertState, Seq<InsertEvent>) {
    let p = *child_of(g, pl).unwrap();
    let u = child_of(g, !pl);
    if is_red(u) {
        let g2 = replace_child(replace_child(g, pl, Some(Box::new(painted(p, Color::Black)))), !pl,
            Some(Box::new(painted(*u.unwrap(), Color::Black))));
        (painted(g2, Color::Red), InsertState::Pending, seq![InsertEvent::Examine, InsertEvent::UncleRed(!pl)])
    } else {
        let g1 = if zl != pl { replace_child(g, pl, Some(Box::new(rotated(p, pl)))) } else { g };
        let tri = if zl != pl { seq![InsertEvent::Triangle(!pl, p.value)] } else { Seq::empty() };
        let p1 = *child_of(g1, pl).unwrap();
        let g4 = painted(replace_child(g1, pl, Some(Box::new(painted(p1, Color::Black)))), Color::Red);
        (rotated(g4, !pl), InsertState::Done, seq![InsertEvent::Examine] + tri + seq![InsertEvent::Line(!pl, g.value)])
    }
}

/// Insertion of `v` below `t`: the subtree it leaves, what is left to repair
/// above, and the events it records.
pub open spec fn insert_model(t: Option<Box<Node>>, v: i32, pos: int) -> (Option<Box<Node>>, InsertState, Seq<InsertEvent>)
    decreases t,
{
    match t {
        None => (Some(Box::new(Node { value: v, color: Color::Red, left: None, right: None })), InsertState::Pending,
            seq![InsertEvent::Placed(pos as usize)]),
        Some(n) => {
            if v == n.value {
                (t, InsertState::Duplicate, seq![InsertEvent::Compare(n.value, pos as usize), InsertEvent::Duplicate])
            } else {
                let gl = v < n.value;
                let below = insert_model(child_of(*n, gl), v, child_position(pos, gl));
                let n1 = replace_child(*n, gl, below.0);
                let ev = seq![InsertEvent::Compare(n.value, pos as usize)] + below.2;
                match below.1 {
                    InsertState::Duplicate => (t, InsertState::Duplicate, ev),
                    InsertState::Done => (Some(Box::new(n1)), InsertState::Done, ev),
                    InsertState::Pending => if n.color == Color::Black {
                        (Some(Box::new(n1)), InsertState::Done, ev + seq![InsertEvent::FixupEnd])
                    } else {
                        (Some(Box::new(n1)), InsertState::RedRed(gl), ev)
                    },
                    InsertState::RedRed(zl) => {
                        let r = repair_model(n1, gl, zl);
                        (Some(Box::new(r.0)), r.1, ev + r.2)
                    },
                }
            }
        },
    }
}

/// Insertion of `v` into the tree rooted at `t`: the new root and every event
/// recorded, from the announcement to the end.
pub open spec fn insert_result(t: Option<Box<Node>>, v: i32) -> (Option<Box<Node>>, Seq<InsertEvent>) {
    match t {
        None => (Some(Box::new(Node { value: v, color: Color::Black, left: None, right: None })),
            seq![InsertEvent::Announce, InsertEvent::EmptyRoot]),
        Some(_) => {
            let r = insert_model(t, v, 0);
            if r.1 == InsertState::Duplicate {
                (t, seq![InsertEvent::Announce] + r.2)
            } else {
                let e1 = if r.1 == InsertState::Pending { seq![InsertEvent::FixupEnd] } else { Seq::empty() };
                let top = if is_red(r.0) { Some(Box::new(painted(*r.0.unwrap(), Color::Black))) } else { r.0 };
                let e2 = if is_red(r.0) { seq![InsertEvent::RootRecolor] } else { Seq::empty() };
                (top, seq![InsertEvent::Announce] + r.2 + e1 + e2 + seq![InsertEvent::Restored])
            }
        },
    }
}

/// The insertion fixup at grandparent `g`: its child on side `p_left` is a red
/// parent whose child on side `z_left` is the red current node. Recolours when
/// the uncle is red (the grandparent becomes the new current node), otherwise
/// rotates the triangle into a line if needed and then rotates the line at the
/// grandparent, which ends the repair.
fn insert_repair(g: Box<Node>, p_left: bool, z_left: bool, pos: usize, steps: &mut Vec<Step>) -> (r: (Box<Node>, InsertState))
    requires
        is_red(child_of(*g, p_left)),
        is_red(child(child_of(*g, p_left), z_left)),
    ensures
        values(Some(r.0)) == values(Some(g)),
        count(Some(r.0)) == count(Some(g)),
        inorder(Some(r.0)) == inorder(Some(g)),
        ordered(Some(g)) ==> ordered(Some(r.0)),
        r.1 == InsertState::Pending || r.1 == InsertState::Done,
        r.1 == InsertState::Pending ==> r.0.color == Color::Red,
        g.color == Color::Black && red_pair(child_of(*g, p_left), z_left) && no_red_red(child_of(*g, !p_left))
            && balanced(Some(g)) ==> {
            &&& no_red_red(Some(r.0))
            &&& balanced(Some(r.0))
            &&& black_height(Some(r.0)) == black_height(Some(g))
            &&& r.1 == InsertState::Done ==> r.0.color == Color::Black
        },
        final(steps)@.len() > old(steps)@.len(),
        ({
            let m = repair_model(*g, p_left, z_left);
            &&& *r.0 == m.0
            &&& r.1 == m.1
            &&& records(final(steps)@, old(steps)@, m.2)
        }),
{
    let ghost s0 = steps@;
    let p_pos = child_pos(pos, p_left);
    let z_pos = child_pos(p_pos, z_left);
    let u_pos = child_pos(pos, !p_left);
    let g_val = g.value;
    let g_color = g.color;
    let p_val = child_ref(&g, p_left).as_ref().unwrap().value;
    let z_val = child_ref(child_ref(&g, p_left).as_ref().unwrap(), z_left).as_ref().unwrap().value;
    let uncle_red = link_is_red(child_ref(&g, !p_left));
    let uncle_exists = child_ref(&g, !p_left).is_some();
    let mut seen = vec![z_pos, p_pos, pos];
    if uncle_exists {
        seen.push(u_pos);
    }
    steps.push(step(
        join(&vec![
            lit("Current node: "), int_text(z_val as i64), lit(" (RED), Parent: "), int_text(p_val as i64),
            lit(" (RED), Grandparent: "), int_text(g_val as i64), lit(" ("), lit(color_word(g_color)),
            lit("), Uncle: "), value_text(child_ref(&g, !p_left)), lit(" ("),
            lit(if uncle_red { "RED" } else { "BLACK" }), lit(")"),
        ]),
        seen,
        vec![],
        vec![meta_int("z", z_val as i64), meta_int("parent", p_val as i64), meta_int("grandparent", g_val as i64), meta_flag("uncle_is_red", uncle_red)],
    ));
    let ghost s1 = steps@;
    proof {
        assert(steps@.last().metadata@[0].key@ == "z"@);
        lemma_records_push(s0, steps@.last(), InsertEvent::Examine);
        assert(s0.push(steps@.last()) == s1);
    }
    if uncle_red {
        let mut recolored = vec![p_pos, pos];
        if uncle_exists {
            recolored.push(u_pos);
        }
        steps.push(step(
            lit(if p_left {
                "Case 1: Uncle is RED - Recolor parent and uncle to BLACK, grandparent to RED"
            } else {
                "Case 1 (Mirror): Uncle is RED - Recolor parent and uncle to BLACK, grandparent to RED"
            }),
            recolored,
            vec![],
            vec![
                meta_text("case", if p_left { "uncle_red" } else { "uncle_red_mirror" }),
                meta_texts("recolor", vec![lit("parent"), lit("uncle"), lit("grandparent")]),
            ],
        ));
        proof {
            assert(shows(steps@.last(), InsertEvent::UncleRed(!p_left)));
            lemma_records_push(s1, steps@.last(), InsertEvent::UncleRed(!p_left));
            assert(s1.push(steps@.last()) == steps@);
            lemma_records_concat(s0, s1, steps@, seq![InsertEvent::Examine], seq![InsertEvent::UncleRed(!p_left)]);
            assert(seq![InsertEvent::Examine] + seq![InsertEvent::UncleRed(!p_left)] =~= seq![InsertEvent::Examine, InsertEvent::UncleRed(!p_left)]);
        }
        let ghost g0 = *g;
        let (g1, p) = detach(g, p_left);
        let (g2, u) = detach(g1, !p_left);
        let p = with_color(p.unwrap(), Color::Black);
        let u = with_color(u.unwrap(), Color::Black);
        let g3 = attach(g2, p_left, Some(p));
        let g4 = attach(g3, !p_left, Some(u));
        let g5 = with_color(g4, Color::Red);
        proof {
            lemma_recolor(*child_of(g0, p_left).unwrap(), Color::Black);
            lemma_recolor(*child_of(g0, !p_left).unwrap(), Color::Black);
            lemma_same_child(g0, p_left, Some(p));
            lemma_same_child(replace_child(g0, p_left, Some(p)), !p_left, Some(u));
            lemma_recolor(*g4, Color::Red);
            let p2 = Node { color: Color::Black, ..*child_of(g0, p_left).unwrap() };
            let u2 = Node { color: Color::Black, ..*child_of(g0, !p_left).unwrap() };
            assert(*g5 == Node { color: Color::Red, ..replace_child(replace_child(g0, p_left, Some(Box::new(p2))), !p_left, Some(Box::new(u2))) });
            if g0.color == Color::Black && red_pair(child_of(g0, p_left), z_left) && no_red_red(child_of(g0, !p_left))
                && balanced(Some(Box::new(g0))) {
                lemma_uncle_red(g0, p_left, z_left);
            }
        }
        (g5, InsertState::Pending)
    } else {
        let ghost g0 = *g;
        let mut g = g;
        let ghost s2 = steps@;
        if z_left != p_left {
            steps.push(step(
                join(&vec![
                    lit(if p_left {
                        "Case 2: Triangle configuration - Left rotate at parent ("
                    } else {
                        "Case 2 (Mirror): Triangle configuration - Right rotate at parent ("
                    }),
                    int_text(p_val as i64), lit(")"),
                ]),
                vec![z_pos, p_pos],
                vec![],
                vec![
                    meta_text("case", if p_left { "triangle" } else { "triangle_mirror" }),
                    meta_text("rotation", if p_left { "left" } else { "right" }),
                    meta_int("pivot", p_val as i64),
                ],
            ));
            proof {
                assert(shows(steps@.last(), InsertEvent::Triangle(!p_left, p_val)));
                lemma_records_push(s1, steps@.last(), InsertEvent::Triangle(!p_left, p_val));
                assert(s1.push(steps@.last()) == steps@);
            }
            let (g1, p) = detach(g, p_left);
            let p = p.unwrap();
            proof {
                lemma_rotate(*p, p_left);
                if red_pair(Some(p), z_left) && balanced(Some(p)) {
                    lemma_triangle(*p, p_left);
                }
            }
            let p = rotate(p, p_left);
            proof { lemma_same_child(g0, p_left, Some(p)); }
            g = attach(g1, p_left, Some(p));
            proof {
                assert(*g == replace_child(g0, p_left, Some(Box::new(rotated(*child_of(g0, p_left).unwrap(), p_left)))));
                assert(child_of(*g, !p_left) == child_of(g0, !p_left));
                assert(g.color == g0.color);
                if g0.color == Color::Black && red_pair(child_of(g0, p_left), z_left) && no_red_red(child_of(g0, !p_left))
                    && balanced(Some(Box::new(g0))) {
                    assert(balanced(Some(g)));
                    assert(black_height(Some(g)) == black_height(Some(Box::new(g0))));
                }
            }
        }
        proof {
            if g0.color == Color::Black && red_pair(child_of(g0, p_left), z_left) && no_red_red(child_of(g0, !p_left))
                && balanced(Some(Box::new(g0))) {
                assert(red_pair(child_of(*g, p_left), p_left));
            }
        }
        let ghost g1 = *g;
        let ghost tri = if z_left != p_left { seq![InsertEvent::Triangle(!p_left, p_val)] } else { Seq::<InsertEvent>::empty() };
        proof {
            if z_left == p_left {
                assert(steps@.subrange(0, s1.len() as int) =~= s1);
            }
            assert(records(steps@, s1, tri));
            assert(g1 == (if z_left != p_left { replace_child(g0, p_left, Some(Box::new(rotated(*child_of(g0, p_left).unwrap(), p_left)))) } else { g0 }));
        }
        let ghost s3 = steps@;
        steps.push(step(
            join(&vec![
                lit(if p_left {
                    "Case 3: Line configuration - Recolor parent to BLACK, grandparent to RED, then right rotate at grandparent ("
                } else {
                    "Case 3 (Mirror): Line configuration - Recolor parent to BLACK, grandparent to RED, then left rotate at grandparent ("
                }),
                int_text(g_val as i64), lit(")"),
            ]),
            vec![p_pos, pos],
            vec![],
            vec![
                meta_text("case", if p_left { "line" } else { "line_mirror" }),
                meta_text("rotation", if p_left { "right" } else { "left" }),
                meta_int("pivot", g_val as i64),
            ],
        ));
        proof {
            assert(shows(steps@.last(), InsertEvent::Line(!p_left, g_val)));
            lemma_records_push(s3, steps@.last(), InsertEvent::Line(!p_left, g_val));
            assert(s3.push(steps@.last()) == steps@);
            lemma_records_concat(s1, s3, steps@, tri, seq![InsertEvent::Line(!p_left, g_val)]);
            lemma_records_concat(s0, s1, steps@, seq![InsertEvent::Examine], tri + seq![InsertEvent::Line(!p_left, g_val)]);
            assert(seq![InsertEvent::Examine] + (tri + seq![InsertEvent::Line(!p_left, g_val)])
                =~= seq![InsertEvent::Examine] + tri + seq![InsertEvent::Line(!p_left, g_val)]);
        }
        let (g2, p) = detach(g, p_left);
        let p = with_color(p.unwrap(), Color::Black);
        let g3 = attach(g2, p_left, Some(p));
        let g4 = with_color(g3, Color::Red);
        proof {
            lemma_recolor(*child_of(g1, p_left).unwrap(), Color::Black);
            lemma_same_child(g1, p_left, Some(p));
            lemma_recolor(*g3, Color::Red);
            lemma_rotate(*g4, !p_left);
            let p2 = Node { color: Color::Black, ..*child_of(g1, p_left).unwrap() };
            assert(*g4 == Node { color: Color::Red, ..replace_child(g1, p_left, Some(Box::new(p2))) });
            if g1.color == Color::Black && red_pair(child_of(g1, p_left), p_left) && !is_red(child_of(g1, !p_left))
                && no_red_red(child_of(g1, !p_left)) && balanced(Some(Box::new(g1))) {
                lemma_line(g1, p_left);
            }
        }
        (rotate(g4, !p_left), InsertState::Done)
    }
}


/// Inserts `value` into the subtree at `link`, whose root sits at position
/// `pos`: one comparison step per node on the way down, the new red leaf, then
/// the fixup cases met on the way back up.
fn insert_into(link: &mut Option<Box<Node>>, value: i32, pos: usize, path: &mut Vec<usize>, steps: &mut Vec<Step>) -> (r: InsertState)
    requires
        ordered(*old(link)),
    ensures
        ordered(*final(link)),
        values(*final(link)) == values(*old(link)).insert(value),
        (r == InsertState::Duplicate) == values(*old(link)).contains(value),
        r == InsertState::Duplicate ==> *final(link) == *old(link) && flagged(final(steps)@.last(), "duplicate"@, true),
        count(*final(link)) == count(*old(link)) + if r == InsertState::Duplicate { 0nat } else { 1nat },
        r == InsertState::Pending ==> is_red(*final(link)),
        r matches InsertState::RedRed(z_left) ==> is_red(*final(link)) && is_red(child(*final(link), z_left)),
        no_red_red(*old(link)) && balanced(*old(link)) ==> {
            &&& balanced(*final(link))
            &&& black_height(*final(link)) == black_height(*old(link))
            &&& r == InsertState::Done ==> no_red_red(*final(link)) && is_red(*final(link)) == is_red(*old(link))
            &&& r == InsertState::Pending ==> no_red_red(*final(link))
            &&& r matches InsertState::RedRed(z_left) ==> red_pair(*final(link), z_left) && is_red(*old(link))
        },
        final(steps)@.len() > old(steps)@.len(),
        ({
            let m = insert_model(*old(link), value, pos as int);
            &&& *final(link) == m.0
            &&& r == m.1
            &&& records(final(steps)@, old(steps)@, m.2)
        }),
    decreases *old(link),
{
    let ghost s0 = steps@;
    match link.take() {
        None => {
            steps.push(step(
                join(&vec![lit("Inserted "), int_text(value as i64), lit(" as RED node")]),
                vec![],
                vec![pos],
                vec![meta_int("inserted", value as i64), meta_text("color", "red"), meta_index("index", pos)],
            ));
            *link = Some(Box::new(Node::new(value)));
            proof {
                assert(values(*link) =~= values(*old(link)).insert(value));
                assert(steps@.last().active_indices@ =~= seq![pos]);
                assert(shows(steps@.last(), InsertEvent::Placed(pos)));
                lemma_records_push(s0, steps@.last(), InsertEvent::Placed(pos));
                assert(s0.push(steps@.last()) == steps@);
            }
            InsertState::Pending
        },
        Some(mut n) => {
            let ghost n0 = *n;
            path.push(pos);
            steps.push(step(
                join(&vec![
                    lit("Comparing "), int_text(value as i64), lit(" with "), int_text(n.value as i64),
                    lit(" ("), lit(color_word(n.color)), lit(" node)"),
                ]),
                path.clone(),
                vec![],
                vec![
                    meta_ints("comparing", vec![value as i64, n.value as i64]),
                    meta_text("node_color", color_name(n.color)),
                ],
            ));
            let ghost s1 = steps@;
            proof {
                assert(shows(steps@.last(), InsertEvent::Compare(n0.value, pos)));
                lemma_records_push(s0, steps@.last(), InsertEvent::Compare(n0.value, pos));
                assert(s0.push(steps@.last()) == s1);
            }
            if value == n.value {
                let marker = step(
                    join(&vec![int_text(value as i64), lit(" already exists in tree (no duplicates allowed)")]),
                    path.clone(),
                    vec![],
                    vec![meta_flag("duplicate", true)],
                );
                assert(marker.metadata@[0].key@ == "duplicate"@);
                steps.push(marker);
                proof {
                    lemma_records_push(s1, steps@.last(), InsertEvent::Duplicate);
                    assert(s1.push(steps@.last()) == steps@);
                    lemma_records_concat(s0, s1, steps@, seq![InsertEvent::Compare(n0.value, pos)], seq![InsertEvent::Duplicate]);
                    assert(seq![InsertEvent::Compare(n0.value, pos)] + seq![InsertEvent::Duplicate]
                        =~= seq![InsertEvent::Compare(n0.value, pos), InsertEvent::Duplicate]);
                }
                *link = Some(n);
                return InsertState::Duplicate;
            }
            let go_left = value < n.value;
            let below = if go_left {
                insert_into(&mut n.left, value, child_pos(pos, true), path, steps)
            } else {
                insert_into(&mut n.right, value, child_pos(pos, false), path, steps)
            };
            proof {
                if go_left {
                    assert(!values(n0.right).contains(value));
                } else {
                    assert(!values(n0.left).contains(value));
                }
                assert(values(Some(n)) =~= values(Some(Box::new(n0))).insert(value));
                let bm = insert_model(child_of(n0, go_left), value, child_position(pos as int, go_left));
                assert(*n == replace_child(n0, go_left, bm.0));
                lemma_records_concat(s0, s1, steps@, seq![InsertEvent::Compare(n0.value, pos)], bm.2);
            }
            let ghost s2 = steps@;
            match below {
                InsertState::Duplicate => {
                    *link = Some(n);
                    InsertState::Duplicate
                },
                InsertState::Done => {
                    *link = Some(n);
                    InsertState::Done
                },
                InsertState::Pending => {
                    if n.color == Color::Black {
                        steps.push(step(
                            lit("Parent is BLACK or root reached - fixup complete"),
                            vec![],
                            vec![],
                            vec![meta_flag("fixup_end", true)],
                        ));
                        proof {
                            let ev = seq![InsertEvent::Compare(n0.value, pos)] + insert_model(child_of(n0, go_left), value, child_position(pos as int, go_left)).2;
                            assert(shows(steps@.last(), InsertEvent::FixupEnd));
                            lemma_records_push(s2, steps@.last(), InsertEvent::FixupEnd);
                            assert(s2.push(steps@.last()) == steps@);
                            lemma_records_concat(s0, s2, steps@, ev, seq![InsertEvent::FixupEnd]);
                        }
                        *link = Some(n);
                        InsertState::Done
                    } else {
                        *link = Some(n);
                        InsertState::RedRed(go_left)
                    }
                },
                InsertState::RedRed(z_left) => {
                    proof {
                        if no_red_red(Some(Box::new(n0))) && balanced(Some(Box::new(n0))) {
                            assert(n0.color == Color::Black);
                            assert(child_of(*n, !go_left) == child_of(n0, !go_left));
                        }
                    }
                    let (g, up) = insert_repair(n, go_left, z_left, pos, steps);
                    proof {
                        let ev = seq![InsertEvent::Compare(n0.value, pos)] + insert_model(child_of(n0, go_left), value, child_position(pos as int, go_left)).2;
                        lemma_records_concat(s0, s2, steps@, ev, repair_model(replace_child(n0, go_left, insert_model(child_of(n0, go_left), value, child_position(pos as int, go_left)).0), go_left, z_left).2);
                    }
                    *link = Some(g);
                    up
                },
            }
        },
    }
}


proof fn lemma_count_inorder(t: Option<Box<Node>>)
    ensures
        count(t) == inorder(t).len(),
    decreases t,
{
    if let Some(n) = t {
        lemma_count_inorder(n.left);
        lemma_count_inorder(n.right);
    }
}

fn search_recursive(node: &Option<Box<Node>>, value: i32) -> (r: bool)
    requires
        ordered(*node),
    ensures
        r == values(*node).contains(value),
    decreases *node,
{
    match node {
        None => false,
        Some(n) => {
            if value == n.value {
                true
            } else if value < n.value {
                assert(!values(n.right).contains(value));
                search_recursive(&n.left, value)
            } else {
                assert(!values(n.left).contains(value));
                search_recursive(&n.right, value)
            }
        },
    }
}

fn inorder_collect(node: &Option<Box<Node>>, nodes: &mut Vec<i32>)
    ensures
        final(nodes)@ == old(nodes)@ + inorder(*node),
    decreases *node,
{
    if let Some(n) = node {
        inorder_collect(&n.left, nodes);
        nodes.push(n.value);
        inorder_collect(&n.right, nodes);
        assert(final(nodes)@ =~= old(nodes)@ + inorder(*node));
    }
}

/// No red node strictly below the root has a red child; the root itself may.
spec fn rr_below(t: Option<Box<Node>>) -> bool {
    match t {
        None => true,
        Some(n) => no_red_red(n.left) && no_red_red(n.right),
    }
}

spec fn black_if(c: Color) -> nat {
    if c == Color::Black { 1 } else { 0 }
}

/// The state in which the deletion fixup runs at `p`: the subtree on side `xl`
/// has one black node too few on each path, everything else is in order.
spec fn short_on(p: Node, xl: bool) -> bool {
    let x = child_of(p, xl);
    let w = child_of(p, !xl);
    &&& rr_below(x)
    &&& balanced(x)
    &&& balanced(w)
    &&& no_red_red(w)
    &&& black_height(x) + 1 == black_height(w)
    &&& p.color == Color::Red ==> !is_red(w)
}

/// What the deletion fixup leaves at `p`: either a repaired subtree of the
/// height `p` should have, or (when `short`) one a black node shorter whose
/// root may still sit on a red child; in both cases with `p`'s root colour.
spec fn repaired(r: Node, short: bool, p: Node, xl: bool) -> bool {
    let h = black_height(child_of(p, !xl)) + black_if(p.color);
    &&& balanced(Some(Box::new(r)))
    &&& r.color == p.color
    &&& !short ==> no_red_red(Some(Box::new(r))) && black_height(Some(Box::new(r))) == h
    &&& short ==> rr_below(Some(Box::new(r))) && black_height(Some(Box::new(r))) + 1 == h
}

proof fn lemma_balanced_right(n: Node)
    requires
        balanced(Some(Box::new(n))),
    ensures
        black_height(Some(Box::new(n))) == black_height(n.right) + black_if(n.color),
        black_height(Some(Box::new(n))) == black_height(n.left) + black_if(n.color),
{
}

/// The triangle case: a black sibling whose near child is red and far child black is
/// turned, by a recolouring and a rotation away from `x`, into one whose far
/// child is red, with the same black height.
proof fn lemma_case3(w: Node, xl: bool)
    requires
        w.color == Color::Black,
        is_red(child_of(w, xl)),
        !is_red(child_of(w, !xl)),
        no_red_red(Some(Box::new(w))),
        balanced(Some(Box::new(w))),
    ensures
        ({
            let near2 = Node { color: Color::Black, ..*child_of(w, xl).unwrap() };
            let w3 = Node { color: Color::Red, ..replace_child(w, xl, Some(Box::new(near2))) };
            let r = if !xl { rotated_left(w3) } else { rotated_right(w3) };
            &&& r.color == Color::Black
            &&& is_red(child_of(r, !xl))
            &&& no_red_red(Some(Box::new(r)))
            &&& balanced(Some(Box::new(r)))
            &&& black_height(Some(Box::new(r))) == black_height(Some(Box::new(w)))
        }),
{
    let near = child_of(w, xl).unwrap();
    let far = child_of(w, !xl);
    assert(no_red_red(w.left) && no_red_red(w.right));
    assert(balanced(w.left) && balanced(w.right) && black_height(w.left) == black_height(w.right));
    assert(no_red_red(near.left) && no_red_red(near.right) && !is_red(near.left) && !is_red(near.right));
    assert(balanced(near.left) && balanced(near.right) && black_height(near.left) == black_height(near.right));
    if xl {
        let inner = Node { value: w.value, color: Color::Red, left: near.right, right: far };
        assert(no_red_red(Some(Box::new(inner))));
        assert(balanced(Some(Box::new(inner))));
        assert(black_height(Some(Box::new(inner))) == black_height(near.right));
    } else {
        let inner = Node { value: w.value, color: Color::Red, left: far, right: near.left };
        assert(no_red_red(Some(Box::new(inner))));
        assert(balanced(Some(Box::new(inner))));
        assert(black_height(Some(Box::new(inner))) == black_height(far));
        assert(black_height(Some(near)) == black_height(near.left));
    }
}

/// The line case: with a black sibling whose far child is red, giving the sibling
/// the parent's colour, blackening the parent and the far child and rotating
/// toward `x` repairs the shortage.
proof fn lemma_case4(p: Node, xl: bool)
    requires
        ({
            let w = child_of(p, !xl);
            &&& w is Some
            &&& w.unwrap().color == Color::Black
            &&& is_red(child_of(*w.unwrap(), !xl))
            &&& no_red_red(w)
            &&& balanced(w)
            &&& no_red_red(child_of(p, xl))
            &&& balanced(child_of(p, xl))
            &&& black_height(child_of(p, xl)) + 1 == black_height(w)
        }),
    ensures
        ({
            let w = *child_of(p, !xl).unwrap();
            let far2 = Node { color: Color::Black, ..*child_of(w, !xl).unwrap() };
            let w7 = replace_child(Node { color: p.color, ..w }, !xl, Some(Box::new(far2)));
            let p3 = Node { color: Color::Black, ..replace_child(p, !xl, Some(Box::new(w7))) };
            let r = if xl { rotated_left(p3) } else { rotated_right(p3) };
            &&& r.color == p.color
            &&& no_red_red(Some(Box::new(r)))
            &&& balanced(Some(Box::new(r)))
            &&& black_height(Some(Box::new(r))) == black_height(child_of(p, !xl)) + black_if(p.color)
        }),
{
    let w = *child_of(p, !xl).unwrap();
    let far = child_of(w, !xl).unwrap();
    let near = child_of(w, xl);
    let x = child_of(p, xl);
    assert(no_red_red(w.left) && no_red_red(w.right));
    assert(balanced(w.left) && balanced(w.right) && black_height(w.left) == black_height(w.right));
    assert(no_red_red(far.left) && no_red_red(far.right));
    assert(balanced(far.left) && balanced(far.right) && black_height(far.left) == black_height(far.right));
    lemma_recolor_rb(*far, Color::Black);
    if xl {
        let inner = Node { value: p.value, color: Color::Black, left: x, right: near };
        assert(no_red_red(Some(Box::new(inner))));
        assert(balanced(Some(Box::new(inner))));
        assert(black_height(Some(Box::new(inner))) == black_height(x) + 1);
    } else {
        let inner = Node { value: p.value, color: Color::Black, left: near, right: x };
        assert(no_red_red(Some(Box::new(inner))));
        assert(balanced(Some(Box::new(inner))));
        assert(black_height(Some(Box::new(inner))) == black_height(near) + 1);
    }
}

proof fn lemma_rr_below_black(t: Option<Box<Node>>)
    requires
        rr_below(t),
        !is_red(t),
    ensures
        no_red_red(t),
{
}

/// The both-children-black case: with a black sibling whose children are both black, painting the
/// sibling red moves the shortage up to the parent.
proof fn lemma_case2(p: Node, xl: bool)
    requires
        short_on(p, xl),
        !is_red(child_of(p, xl)),
        child_of(p, !xl) is Some,
        !is_red(child_of(p, !xl)),
        !is_red(child_of(*child_of(p, !xl).unwrap(), xl)),
        !is_red(child_of(*child_of(p, !xl).unwrap(), !xl)),
    ensures
        repaired(replace_child(p, !xl, Some(Box::new(Node { color: Color::Red, ..*child_of(p, !xl).unwrap() }))), true, p, xl),
{
    let w = child_of(p, !xl).unwrap();
    let x = child_of(p, xl);
    lemma_rr_below_black(x);
    assert(no_red_red(w.left) && no_red_red(w.right));
    lemma_recolor_rb(*w, Color::Red);
    assert(balanced(w.left) && balanced(w.right) && black_height(w.left) == black_height(w.right));
    let r = replace_child(p, !xl, Some(Box::new(Node { color: Color::Red, ..*w })));
    assert(no_red_red(Some(Box::new(Node { color: Color::Red, ..*w }))));
    assert(balanced(Some(Box::new(r))));
    lemma_balanced_right(r);
}

/// The red-sibling case: a red sibling is painted black, the parent red, and the parent
/// rotated toward `x`; the parent, now below the old sibling, is short on the
/// same side with a black sibling.
proof fn lemma_case1(p: Node, xl: bool)
    requires
        short_on(p, xl),
        !is_red(child_of(p, xl)),
        is_red(child_of(p, !xl)),
    ensures
        ({
            let w2 = Node { color: Color::Black, ..*child_of(p, !xl).unwrap() };
            let p3 = Node { color: Color::Red, ..replace_child(p, !xl, Some(Box::new(w2))) };
            let t = if xl { rotated_left(p3) } else { rotated_right(p3) };
            let low = *child_of(t, xl).unwrap();
            &&& child_of(t, xl) is Some
            &&& t.color == Color::Black
            &&& p.color == Color::Black
            &&& short_on(low, xl)
            &&& !is_red(child_of(low, xl))
            &&& !is_red(child_of(low, !xl))
            &&& low.color == Color::Red
            &&& no_red_red(child_of(t, !xl))
            &&& !is_red(child_of(t, !xl))
            &&& balanced(child_of(t, !xl))
            &&& black_height(child_of(t, !xl)) == black_height(child_of(low, !xl))
            &&& black_height(child_of(low, !xl)) + 1 == black_height(child_of(p, !xl)) + black_if(p.color)
        }),
{
    let w = child_of(p, !xl).unwrap();
    assert(no_red_red(w.left) && no_red_red(w.right) && !is_red(w.left) && !is_red(w.right));
    assert(balanced(w.left) && balanced(w.right) && black_height(w.left) == black_height(w.right));
    lemma_balanced_right(*w);
}

proof fn lemma_case1_finish(t: Node, xl: bool, fixed: Node)
    requires
        t.color == Color::Black,
        no_red_red(child_of(t, !xl)),
        balanced(child_of(t, !xl)),
        no_red_red(Some(Box::new(fixed))),
        balanced(Some(Box::new(fixed))),
        black_height(Some(Box::new(fixed))) == black_height(child_of(t, !xl)),
    ensures
        no_red_red(Some(Box::new(replace_child(t, xl, Some(Box::new(fixed)))))),
        balanced(Some(Box::new(replace_child(t, xl, Some(Box::new(fixed)))))),
        black_height(Some(Box::new(replace_child(t, xl, Some(Box::new(fixed)))))) == black_height(Some(Box::new(fixed))) + 1,
{
}

/// What a deletion records, one event per step, in order.
pub enum DeleteEvent {
    /// The request, naming the value.
    Announce,
    /// The value is found.
    Found,
    /// The value is not in the tree.
    NotFound,
    /// The node to remove is a leaf.
    Leaf,
    /// The node to remove has only a right child, which takes its place.
    OnlyRight,
    /// The node to remove has only a left child, which takes its place.
    OnlyLeft,
    /// The node to remove has two children; its in-order successor, the
    /// given value, is sought.
    TwoChildren(i32),
    /// The first value is replaced by the second, its successor.
    Replaced(i32, i32),
    /// The node spliced out was black (`true`) or red (`false`).
    Removed(bool),
    /// The sibling is red; on the mirrored side where the flag holds.
    SiblingRed(bool),
    /// Both of the black sibling's children are black.
    BothBlack(bool),
    /// The sibling's far child is black and its near child red.
    Triangle(bool),
    /// The sibling's far child is red: the final rotation.
    Line(bool),
    /// The fixup is complete.
    FixupComplete,
    /// The deletion is complete.
    Complete,
}

/// Whether the step `s` records the event `e`, by its first metadata entry.
pub open spec fn shows_delete(s: Step, e: DeleteEvent) -> bool {
    let m = s.metadata@;
    &&& m.len() > 0
    &&& match e {
        DeleteEvent::Announce => text_entry(m[0], "operation"@, "delete"@),
        DeleteEvent::Found => m[0].key@ == "found"@ && m[0].value == MetaValue::Flag(true),
        DeleteEvent::NotFound => m[0].key@ == "found"@ && m[0].value == MetaValue::Flag(false),
        DeleteEvent::Leaf => text_entry(m[0], "case"@, "no_children"@),
        DeleteEvent::OnlyRight => text_entry(m[0], "case"@, "only_right_child"@),
        DeleteEvent::OnlyLeft => text_entry(m[0], "case"@, "only_left_child"@),
        DeleteEvent::TwoChildren(successor) => text_entry(m[0], "case"@, "two_children"@)
            && m.len() > 2 && m[2].key@ == "successor"@ && m[2].value == MetaValue::Int(successor as i64),
        DeleteEvent::Replaced(gone, with) => m[0].key@ == "replaced"@ && m[0].value == MetaValue::Int(gone as i64)
            && m.len() > 1 && m[1].key@ == "with"@ && m[1].value == MetaValue::Int(with as i64),
        DeleteEvent::Removed(black) => m[0].key@ == "fixup_needed"@ && m[0].value == MetaValue::Flag(black),
        DeleteEvent::SiblingRed(mirror) => text_entry(m[0], "case"@, if mirror { "sibling_red_mirror"@ } else { "sibling_red"@ }),
        DeleteEvent::BothBlack(mirror) => text_entry(m[0], "case"@,
            if mirror { "both_children_black_mirror"@ } else { "both_children_black"@ }),
        DeleteEvent::Triangle(mirror) => text_entry(m[0], "case"@, if mirror { "triangle_mirror"@ } else { "triangle"@ }),
        DeleteEvent::Line(mirror) => text_entry(m[0], "case"@, if mirror { "line_mirror"@ } else { "line"@ }),
        DeleteEvent::FixupComplete => m[0].key@ == "fixup_complete"@,
        DeleteEvent::Complete => m[0].key@ == "complete"@,
    }
}

/// Whether `s` is `before` followed by one step for each event of `ev`, in order.
pub open spec fn records_delete(s: Seq<Step>, before: Seq<Step>, ev: Seq<DeleteEvent>) -> bool {
    &&& s.len() == before.len() + ev.len()
    &&& s.subrange(0, before.len() as int) == before
    &&& forall|i: int| #![trigger ev[i]] 0 <= i < ev.len() ==> shows_delete(s[before.len() + i], ev[i])
}

proof fn lemma_recd_push(before: Seq<Step>, x: Step, e: DeleteEvent)
    requires
        shows_delete(x, e),
    ensures
        records_delete(before.push(x), before, seq![e]),
{
    assert(before.push(x).subrange(0, before.len() as int) =~= before);
    assert(before.push(x)[before.len() as int] == x);
}

proof fn lemma_recd_none(s: Seq<Step>)
    ensures
        records_delete(s, s, Seq::empty()),
{
    assert(s.subrange(0, s.len() as int) =~= s);
}

proof fn lemma_recd_concat(s0: Seq<Step>, s1: Seq<Step>, s2: Seq<Step>, e1: Seq<DeleteEvent>, e2: Seq<DeleteEvent>)
    requires
        records_delete(s1, s0, e1),
        records_delete(s2, s1, e2),
    ensures
        records_delete(s2, s0, e1 + e2),
{
    assert(s2.subrange(0, s0.len() as int) =~= s1.subrange(0, s0.len() as int)) by {
        assert forall|k: int| 0 <= k < s0.len() implies s2[k] == s1[k] by {
            assert(s2.subrange(0, s1.len() as int)[k] == s2[k]);
        }
    }
    assert forall|i: int| 0 <= i < (e1 + e2).len() implies #[trigger] shows_delete(s2[s0.len() + i], (e1 + e2)[i]) by {
        if i < e1.len() {
            assert(s2.subrange(0, s1.len() as int)[s0.len() + i] == s2[s0.len() + i]);
            assert(shows_delete(s1[s0.len() + i], e1[i]));
        } else {
            assert(shows_delete(s2[s1.len() + (i - e1.len())], e2[i - e1.len()]));
        }
    }
}

/// `t` with its root painted black, where there is one.
pub open spec fn blackened(t: Option<Box<Node>>) -> Option<Box<Node>> {
    match t {
        None => None,
        Some(n) => Some(Box::new(painted(*n, Color::Black))),
    }
}

/// The deletion fixup at `p`, short on side `xl`, once the sibling is black
/// or vacant: the subtree it leaves, whether the shortage moves up, and the
/// events recorded.
pub open spec fn black_sibling_model(p: Node, xl: bool) -> (Node, bool, Seq<DeleteEvent>) {
    match child_of(p, !xl) {
        None => (p, false, seq![DeleteEvent::FixupComplete]),
        Some(w) => {
            let near_red = is_red(child_of(*w, xl));
            let far_red = is_red(child_of(*w, !xl));
            if !near_red && !far_red {
                (replace_child(p, !xl, Some(Box::new(painted(*w, Color::Red)))), true, seq![DeleteEvent::BothBlack(!xl)])
            } else {
                let w4 = if !far_red {
                    rotated(painted(replace_child(*w, xl, blackened(child_of(*w, xl))), Color::Red), !xl)
                } else {
                    *w
                };
                let tri = if !far_red { seq![DeleteEvent::Triangle(!xl)] } else { Seq::empty() };
                let w7 = replace_child(painted(w4, p.color), !xl, blackened(child_of(w4, !xl)));
                let p3 = painted(replace_child(p, !xl, Some(Box::new(w7))), Color::Black);
                (rotated(p3, xl), false, tri + seq![DeleteEvent::Line(!xl), DeleteEvent::FixupComplete])
            }
        },
    }
}

/// The deletion fixup at `p`, short on side `xl`, with a red sibling first
/// rotated up.
pub open spec fn deficit_model(p: Node, xl: bool) -> (Node, bool, Seq<DeleteEvent>) {
    if !is_red(child_of(p, !xl)) {
        black_sibling_model(p, xl)
    } else {
        let w = *child_of(p, !xl).unwrap();
        let t0 = rotated(painted(replace_child(p, !xl, Some(Box::new(painted(w, Color::Black)))), Color::Red), xl);
        let r = black_sibling_model(*child_of(t0, xl).unwrap(), xl);
        let fixed = if r.1 { painted(r.0, Color::Black) } else { r.0 };
        let tail = if r.1 { seq![DeleteEvent::FixupComplete] } else { Seq::empty() };
        (replace_child(t0, xl, Some(Box::new(fixed))), false, seq![DeleteEvent::SiblingRed(!xl)] + r.2 + tail)
    }
}

/// The loop head of the deletion fixup at `p`, short on side `xl`.
pub open spec fn absorb_model(p: Node, xl: bool) -> (Node, bool, Seq<DeleteEvent>) {
    if is_red(child_of(p, xl)) {
        (replace_child(p, xl, blackened(child_of(p, xl))), false, seq![DeleteEvent::FixupComplete])
    } else {
        deficit_model(p, xl)
    }
}

/// The value of the leftmost node of `t`: its smallest value when `t` is
/// search-ordered.
pub open spec fn leftmost(t: Option<Box<Node>>) -> i32
    decreases t,
{
    match t {
        None => 0,
        Some(n) => if n.left is None { n.value } else { leftmost(n.left) },
    }
}

proof fn lemma_remove_min_leftmost(t: Option<Box<Node>>, z: i32)
    ensures
        t is Some ==> remove_min_model(t, z).1 == leftmost(t),
    decreases t,
{
    if let Some(n) = t {
        if n.left is Some {
            lemma_remove_min_leftmost(n.left, z);
        }
    }
}

/// Removal of the smallest node of `t`: the subtree left, the value removed,
/// whether a black node went, and the events recorded.
pub open spec fn remove_min_model(t: Option<Box<Node>>, z: i32) -> (Option<Box<Node>>, i32, bool, Seq<DeleteEvent>)
    decreases t,
{
    match t {
        None => (None, 0, false, Seq::empty()),
        Some(n) => {
            if n.left is None {
                (n.right, n.value, n.color == Color::Black,
                    seq![DeleteEvent::Replaced(z, n.value), DeleteEvent::Removed(n.color == Color::Black)])
            } else {
                let r = remove_min_model(n.left, z);
                let n1 = replace_child(*n, true, r.0);
                if r.2 {
                    let a = absorb_model(n1, true);
                    (Some(Box::new(a.0)), r.1, a.1, r.3 + a.2)
                } else {
                    (Some(Box::new(n1)), r.1, false, r.3)
                }
            }
        },
    }
}

/// Removal of the root of the subtree `n`.
pub open spec fn remove_node_model(n: Node) -> (Option<Box<Node>>, bool, Seq<DeleteEvent>) {
    if n.left is None || n.right is None {
        let kind = if n.left is None && n.right is None {
            DeleteEvent::Leaf
        } else if n.left is None {
            DeleteEvent::OnlyRight
        } else {
            DeleteEvent::OnlyLeft
        };
        let black = n.color == Color::Black;
        (if n.left is None { n.right } else { n.left }, black,
            seq![DeleteEvent::Found, kind, DeleteEvent::Removed(black)])
    } else {
        let r = remove_min_model(n.right, n.value);
        let n1 = Node { value: r.1, ..replace_child(n, false, r.0) };
        let ev = seq![DeleteEvent::Found, DeleteEvent::TwoChildren(r.1)] + r.3;
        if r.2 {
            let a = absorb_model(n1, false);
            (Some(Box::new(a.0)), a.1, ev + a.2)
        } else {
            (Some(Box::new(n1)), false, ev)
        }
    }
}

/// Removal of `v` below `t`: the subtree left, whether `v` was found, whether
/// the subtree is left a black short, and the events recorded.
pub open spec fn delete_model(t: Option<Box<Node>>, v: i32) -> (Option<Box<Node>>, bool, bool, Seq<DeleteEvent>)
    decreases t,
{
    match t {
        None => (None, false, false, Seq::empty()),
        Some(n) => {
            if v == n.value {
                let r = remove_node_model(*n);
                (r.0, true, r.1, r.2)
            } else {
                let gl = v < n.value;
                let r = delete_model(child_of(*n, gl), v);
                let n1 = replace_child(*n, gl, r.0);
                if r.2 {
                    let a = absorb_model(n1, gl);
                    (Some(Box::new(a.0)), r.1, a.1, r.3 + a.2)
                } else {
                    (Some(Box::new(n1)), r.1, false, r.3)
                }
            }
        },
    }
}

/// Deletion of `v` from the tree rooted at `t`: the new root and every event
/// recorded, from the announcement to the end.
pub open spec fn delete_result(t: Option<Box<Node>>, v: i32) -> (Option<Box<Node>>, Seq<DeleteEvent>) {
    let r = delete_model(t, v);
    if !r.1 {
        (t, seq![DeleteEvent::Announce, DeleteEvent::NotFound])
    } else {
        let t1 = if r.2 { blackened(r.0) } else { r.0 };
        let e1 = if r.2 { seq![DeleteEvent::FixupComplete] } else { Seq::empty() };
        let t2 = if is_red(t1) { blackened(t1) } else { t1 };
        (t2, seq![DeleteEvent::Announce] + r.3 + e1 + seq![DeleteEvent::Complete])
    }
}

fn fixup_complete_step(steps: &mut Vec<Step>)
    ensures
        final(steps)@.len() == old(steps)@.len() + 1,
        records_delete(final(steps)@, old(steps)@, seq![DeleteEvent::FixupComplete]),
{
    steps.push(step(
        lit("Delete fixup complete, Red-Black properties restored"),
        vec![],
        vec![],
        vec![meta_flag("fixup_complete", true)],
    ));
    proof {
        assert(shows_delete(steps@.last(), DeleteEvent::FixupComplete));
        lemma_recd_push(old(steps)@, steps@.last(), DeleteEvent::FixupComplete);
        assert(old(steps)@.push(steps@.last()) == steps@);
    }
}

fn removed_color_step(c: Color, steps: &mut Vec<Step>)
    ensures
        final(steps)@.len() == old(steps)@.len() + 1,
        records_delete(final(steps)@, old(steps)@, seq![DeleteEvent::Removed(c == Color::Black)]),
{
    if c == Color::Black {
        steps.push(step(
            lit("A BLACK node was removed, fixing Red-Black properties"),
            vec![],
            vec![],
            vec![meta_flag("fixup_needed", true), meta_text("deleted_color", "black")],
        ));
    } else {
        steps.push(step(
            lit("A RED node was removed, no fixup needed"),
            vec![],
            vec![],
            vec![meta_flag("fixup_needed", false), meta_text("deleted_color", "red")],
        ));
    }
    proof {
        assert(shows_delete(steps@.last(), DeleteEvent::Removed(c == Color::Black)));
        lemma_recd_push(old(steps)@, steps@.last(), DeleteEvent::Removed(c == Color::Black));
        assert(old(steps)@.push(steps@.last()) == steps@);
    }
}

/// The smallest value of a non-empty subtree whose root sits at `pos`, and
/// the position of its node.
fn tree_minimum(n: &Node, pos: usize) -> (r: (i32, usize))
    requires
        ordered(Some(Box::new(*n))),
    ensures
        values(Some(Box::new(*n))).contains(r.0),
        forall|x: i32| #[trigger] values(Some(Box::new(*n))).contains(x) ==> r.0 <= x,
        r.0 == leftmost(Some(Box::new(*n))),
    decreases *n,
{
    match &n.left {
        None => {
            assert(values(n.left) == Set::<i32>::empty());
            assert forall|x: i32| #[trigger] values(Some(Box::new(*n))).contains(x) implies n.value <= x by {
                if x != n.value {
                    assert(values(n.right).contains(x));
                }
            }
            (n.value, pos)
        },
        Some(l) => {
            let r = tree_minimum(l, child_pos(pos, true));
            assert forall|x: i32| #[trigger] values(Some(Box::new(*n))).contains(x) implies r.0 <= x by {
                if values(n.right).contains(x) {
                    assert(values(n.left).contains(r.0));
                }
            }
            r
        },
    }
}

/// The deletion fixup once the sibling `w` of the short side `x_left` of `p`
/// is black (or vacant): recolours `w` red and moves the shortage up when
/// both of its children are black (the second result is then `true`),
/// otherwise rotates a red near nephew outward and finishes with the rotation
/// at `p`.
fn fix_black_sibling(p: Box<Node>, x_left: bool, pos: usize, steps: &mut Vec<Step>) -> (r: (Box<Node>, bool))
    ensures
        values(Some(r.0)) == values(Some(p)),
        count(Some(r.0)) == count(Some(p)),
        ordered(Some(p)) ==> ordered(Some(r.0)),
        r.1 ==> r.0.color == p.color,
        short_on(*p, x_left) && !is_red(child_of(*p, x_left)) && !is_red(child_of(*p, !x_left))
            ==> repaired(*r.0, r.1, *p, x_left),
        final(steps)@.len() > old(steps)@.len(),
        ({
            let m = black_sibling_model(*p, x_left);
            &&& *r.0 == m.0
            &&& r.1 == m.1
            &&& records_delete(final(steps)@, old(steps)@, m.2)
        }),
{
    let ghost s0 = steps@;
    let w_pos = child_pos(pos, !x_left);
    if child_ref(&p, !x_left).is_none() {
        fixup_complete_step(steps);
        return (p, false);
    }
    let ghost p0 = *p;
    let (near_red, far_red) = {
        let w = child_ref(&p, !x_left).as_ref().unwrap();
        (link_is_red(child_ref(w, x_left)), link_is_red(child_ref(w, !x_left)))
    };
    if !near_red && !far_red {
        steps.push(step(
            lit(if x_left {
                "Case 2: Sibling's children are BLACK, recoloring sibling to RED"
            } else {
                "Case 2 (mirror): Sibling's children are BLACK, recoloring"
            }),
            vec![w_pos],
            vec![],
            vec![meta_text("case", if x_left { "both_children_black" } else { "both_children_black_mirror" })],
        ));
        proof {
            assert(shows_delete(steps@.last(), DeleteEvent::BothBlack(!x_left)));
            lemma_recd_push(s0, steps@.last(), DeleteEvent::BothBlack(!x_left));
            assert(s0.push(steps@.last()) == steps@);
        }
        let (p1, w) = detach(p, !x_left);
        let w = w.unwrap();
        proof { lemma_recolor(*w, Color::Red); }
        let w = with_color(w, Color::Red);
        proof { lemma_same_child(p0, !x_left, Some(w)); }
        let r = attach(p1, !x_left, Some(w));
        proof {
            assert(*r == replace_child(p0, !x_left, Some(Box::new(Node { color: Color::Red, ..*child_of(p0, !x_left).unwrap() }))));
            if short_on(p0, x_left) && !is_red(child_of(p0, x_left)) && !is_red(child_of(p0, !x_left)) {
                lemma_case2(p0, x_left);
            }
        }
        return (r, true);
    }
    let (p1, w) = detach(p, !x_left);
    let mut w = w.unwrap();
    let ghost pre = short_on(p0, x_left) && !is_red(child_of(p0, x_left)) && !is_red(child_of(p0, !x_left));
    proof {
        if pre {
            assert(no_red_red(Some(w)) && balanced(Some(w)));
            lemma_rr_below_black(child_of(p0, x_left));
        }
    }
    if !far_red {
        steps.push(step(
            lit(if x_left {
                "Case 3: Sibling's right child BLACK, left RED - rotating"
            } else {
                "Case 3 (mirror): Sibling's left child BLACK, right RED - rotating"
            }),
            vec![w_pos],
            vec![],
            vec![meta_text("case", if x_left { "triangle" } else { "triangle_mirror" })],
        ));
        proof {
            assert(shows_delete(steps@.last(), DeleteEvent::Triangle(!x_left)));
            lemma_recd_push(s0, steps@.last(), DeleteEvent::Triangle(!x_left));
            assert(s0.push(steps@.last()) == steps@);
        }
        let ghost w0 = *w;
        let (w1, near) = detach(w, x_left);
        let near = near.unwrap();
        proof { lemma_recolor(*near, Color::Black); }
        let near = with_color(near, Color::Black);
        proof { lemma_same_child(w0, x_left, Some(near)); }
        let w2 = attach(w1, x_left, Some(near));
        proof { lemma_recolor(*w2, Color::Red); }
        let w3 = with_color(w2, Color::Red);
        proof { lemma_rotate(*w3, !x_left); }
        w = rotate(w3, !x_left);
        proof {
            assert(*w3 == painted(replace_child(w0, x_left, blackened(child_of(w0, x_left))), Color::Red));
            if pre {
                lemma_case3(w0, x_left);
                let near2 = Node { color: Color::Black, ..*child_of(w0, x_left).unwrap() };
                assert(*w3 == Node { color: Color::Red, ..replace_child(w0, x_left, Some(Box::new(near2))) });
            }
        }
    }
    let ghost wm = *child_of(p0, !x_left).unwrap();
    let ghost tri = if !far_red { seq![DeleteEvent::Triangle(!x_left)] } else { Seq::<DeleteEvent>::empty() };
    let ghost s1 = steps@;
    proof {
        if far_red {
            lemma_recd_none(s0);
        }
        assert(records_delete(s1, s0, tri));
        assert(*w == (if !far_red {
            rotated(painted(replace_child(wm, x_left, blackened(child_of(wm, x_left))), Color::Red), !x_left)
        } else {
            wm
        }));
    }
    steps.push(step(
        lit(if x_left {
            "Case 4: Sibling's right child is RED, final rotation"
        } else {
            "Case 4 (mirror): Sibling's left child is RED, final rotation"
        }),
        vec![],
        vec![],
        vec![meta_text("case", if x_left { "line" } else { "line_mirror" })],
    ));
    let ghost s2 = steps@;
    proof {
        assert(shows_delete(steps@.last(), DeleteEvent::Line(!x_left)));
        lemma_recd_push(s1, steps@.last(), DeleteEvent::Line(!x_left));
        assert(s1.push(steps@.last()) == steps@);
    }
    let ghost w4 = *w;
    let p_color = p1.color;
    proof { lemma_recolor(w4, p_color); }
    let w5 = with_color(w, p_color);
    let (w6, far) = detach(w5, !x_left);
    let mut far_black = far;
    if far_black.is_some() {
        let f = far_black.take().unwrap();
        proof { lemma_recolor(*f, Color::Black); }
        far_black = Some(with_color(f, Color::Black));
    }
    proof { lemma_same_child(*w5, !x_left, far_black); }
    let w7 = attach(w6, !x_left, far_black);
    proof { lemma_same_child(p0, !x_left, Some(w7)); }
    let p2 = attach(p1, !x_left, Some(w7));
    proof { lemma_recolor(*p2, Color::Black); }
    let p3 = with_color(p2, Color::Black);
    proof { lemma_rotate(*p3, x_left); }
    let top = rotate(p3, x_left);
    proof {
        assert(far_black == blackened(child_of(w4, !x_left)));
        assert(*w7 == replace_child(painted(w4, p0.color), !x_left, blackened(child_of(w4, !x_left))));
        assert(*p3 == painted(replace_child(p0, !x_left, Some(w7)), Color::Black));
        if pre {
            let pm = replace_child(p0, !x_left, Some(Box::new(w4)));
            assert(child_of(pm, !x_left) == Some(Box::new(w4)));
            assert(child_of(pm, x_left) == child_of(p0, x_left));
            lemma_case4(pm, x_left);
            let far2 = Node { color: Color::Black, ..*child_of(w4, !x_left).unwrap() };
            let w7s = replace_child(Node { color: pm.color, ..w4 }, !x_left, Some(Box::new(far2)));
            assert(*w7 == w7s);
            assert(*p3 == Node { color: Color::Black, ..replace_child(pm, !x_left, Some(Box::new(w7s))) });
        }
    }
    fixup_complete_step(steps);
    proof {
        lemma_recd_concat(s1, s2, steps@, seq![DeleteEvent::Line(!x_left)], seq![DeleteEvent::FixupComplete]);
        lemma_recd_concat(s0, s1, steps@, tri, seq![DeleteEvent::Line(!x_left)] + seq![DeleteEvent::FixupComplete]);
        assert(tri + (seq![DeleteEvent::Line(!x_left)] + seq![DeleteEvent::FixupComplete])
            =~= tri + seq![DeleteEvent::Line(!x_left), DeleteEvent::FixupComplete]);
    }
    (top, false)
}

/// The deletion fixup at `p`, whose subtree on side `x_left` has one black
/// node too few on each path: a red sibling is first rotated up, then
/// the black-sibling cases run.
fn fix_deficit(p: Box<Node>, x_left: bool, pos: usize, steps: &mut Vec<Step>) -> (r: (Box<Node>, bool))
    ensures
        values(Some(r.0)) == values(Some(p)),
        count(Some(r.0)) == count(Some(p)),
        ordered(Some(p)) ==> ordered(Some(r.0)),
        short_on(*p, x_left) && !is_red(child_of(*p, x_left)) ==> repaired(*r.0, r.1, *p, x_left),
        final(steps)@.len() > old(steps)@.len(),
        ({
            let m = deficit_model(*p, x_left);
            &&& *r.0 == m.0
            &&& r.1 == m.1
            &&& records_delete(final(steps)@, old(steps)@, m.2)
        }),
{
    let ghost s0 = steps@;
    if !link_is_red(child_ref(&p, !x_left)) {
        return fix_black_sibling(p, x_left, pos, steps);
    }
    let ghost p0 = *p;
    let w_val = child_ref(&p, !x_left).as_ref().unwrap().value;
    steps.push(step(
        join(&vec![
            lit(if x_left { "Case 1: Sibling " } else { "Case 1 (mirror): Sibling " }),
            int_text(w_val as i64),
            lit(" is RED, recoloring and rotating"),
        ]),
        vec![child_pos(pos, !x_left)],
        vec![],
        vec![meta_text("case", if x_left { "sibling_red" } else { "sibling_red_mirror" })],
    ));
    let ghost s1 = steps@;
    proof {
        assert(shows_delete(steps@.last(), DeleteEvent::SiblingRed(!x_left)));
        lemma_recd_push(s0, steps@.last(), DeleteEvent::SiblingRed(!x_left));
        assert(s0.push(steps@.last()) == steps@);
    }
    let (p1, w) = detach(p, !x_left);
    let w = w.unwrap();
    proof { lemma_recolor(*w, Color::Black); }
    let w = with_color(w, Color::Black);
    proof { lemma_same_child(p0, !x_left, Some(w)); }
    let p2 = attach(p1, !x_left, Some(w));
    proof { lemma_recolor(*p2, Color::Red); }
    let p3 = with_color(p2, Color::Red);
    proof { lemma_rotate(*p3, x_left); }
    let top = rotate(p3, x_left);
    let ghost t0 = *top;
    let (top1, lowered) = detach(top, x_left);
    let lowered = lowered.unwrap();
    let ghost pre = short_on(p0, x_left) && !is_red(child_of(p0, x_left));
    proof {
        if pre {
            lemma_case1(p0, x_left);
            let w2 = Node { color: Color::Black, ..*child_of(p0, !x_left).unwrap() };
            assert(*p3 == Node { color: Color::Red, ..replace_child(p0, !x_left, Some(Box::new(w2))) });
        }
    }
    let ghost low0 = *lowered;
    proof {
        assert(*p3 == painted(replace_child(p0, !x_left, Some(Box::new(painted(*child_of(p0, !x_left).unwrap(), Color::Black)))), Color::Red));
        assert(low0 == *child_of(t0, x_left).unwrap());
    }
    let (fixed, short) = fix_black_sibling(lowered, x_left, child_pos(pos, x_left), steps);
    let mut fixed = fixed;
    let ghost s2 = steps@;
    if short {
        proof {
            lemma_recolor(*fixed, Color::Black);
            lemma_recolor_rb(*fixed, Color::Black);
        }
        fixed = with_color(fixed, Color::Black);
        fixup_complete_step(steps);
    } else {
        proof { lemma_recd_none(s2); }
    }
    proof {
        let bm = black_sibling_model(low0, x_left);
        let tail = if bm.1 { seq![DeleteEvent::FixupComplete] } else { Seq::<DeleteEvent>::empty() };
        assert(records_delete(steps@, s2, tail));
        lemma_recd_concat(s1, s2, steps@, bm.2, tail);
        lemma_recd_concat(s0, s1, steps@, seq![DeleteEvent::SiblingRed(!x_left)], bm.2 + tail);
        assert(seq![DeleteEvent::SiblingRed(!x_left)] + (bm.2 + tail) =~= seq![DeleteEvent::SiblingRed(!x_left)] + bm.2 + tail);
        lemma_same_child(t0, x_left, Some(fixed));
        if pre {
            lemma_balanced_right(*fixed);
            lemma_case1_finish(t0, x_left, *fixed);
        }
    }
    let r = attach(top1, x_left, Some(fixed));
    proof {
        assert(*r == replace_child(t0, x_left, Some(fixed)));
    }
    (r, false)
}

/// The loop head of the deletion fixup, run at `p` for its short side
/// `x_left`: a red `x` is painted black and ends the repair, otherwise the
/// fixup cases run at `p`.
fn absorb(p: Box<Node>, x_left: bool, pos: usize, steps: &mut Vec<Step>) -> (r: (Box<Node>, bool))
    ensures
        values(Some(r.0)) == values(Some(p)),
        count(Some(r.0)) == count(Some(p)),
        ordered(Some(p)) ==> ordered(Some(r.0)),
        short_on(*p, x_left) ==> repaired(*r.0, r.1, *p, x_left),
        final(steps)@.len() > old(steps)@.len(),
        ({
            let m = absorb_model(*p, x_left);
            &&& *r.0 == m.0
            &&& r.1 == m.1
            &&& records_delete(final(steps)@, old(steps)@, m.2)
        }),
{
    if link_is_red(child_ref(&p, x_left)) {
        let ghost p0 = *p;
        let (p1, x) = detach(p, x_left);
        let x = x.unwrap();
        proof { lemma_recolor(*x, Color::Black); }
        let x = with_color(x, Color::Black);
        proof { lemma_same_child(p0, x_left, Some(x)); }
        fixup_complete_step(steps);
        let r = attach(p1, x_left, Some(x));
        proof {
            assert(*r == replace_child(p0, x_left, blackened(child_of(p0, x_left))));
            if short_on(p0, x_left) {
                let x0 = *child_of(p0, x_left).unwrap();
                lemma_recolor_rb(x0, Color::Black);
                assert(*r == replace_child(p0, x_left, Some(Box::new(Node { color: Color::Black, ..x0 }))));
                assert(balanced(Some(r)));
                lemma_balanced_right(*r);
            }
        }
        (r, false)
    } else {
        fix_deficit(p, x_left, pos, steps)
    }
}

/// Removes the smallest node of a non-empty subtree, the in-order successor of
/// the node `z_val` at `z_pos` whose value it replaces. The second result tells
/// whether the removed node was black, leaving its side one black short.
fn remove_min(link: &mut Option<Box<Node>>, pos: usize, z_val: i32, z_pos: usize, steps: &mut Vec<Step>) -> (r: (i32, bool))
    requires
        old(link).is_some(),
        ordered(*old(link)),
    ensures
        ordered(*final(link)),
        values(*old(link)).contains(r.0),
        forall|x: i32| #[trigger] values(*old(link)).contains(x) ==> r.0 <= x,
        values(*final(link)) == values(*old(link)).remove(r.0),
        count(*final(link)) + 1 == count(*old(link)),
        no_red_red(*old(link)) && balanced(*old(link)) ==> {
            &&& balanced(*final(link))
            &&& r.1 ==> rr_below(*final(link)) && black_height(*final(link)) + 1 == black_height(*old(link))
            &&& !r.1 ==> no_red_red(*final(link)) && black_height(*final(link)) == black_height(*old(link))
                && (is_red(*final(link)) ==> is_red(*old(link)))
        },
        final(steps)@.len() > old(steps)@.len(),
        ({
            let m = remove_min_model(*old(link), z_val);
            &&& *final(link) == m.0
            &&& r.0 == m.1
            &&& r.1 == m.2
            &&& records_delete(final(steps)@, old(steps)@, m.3)
        }),
    decreases *old(link),
{
    let ghost s0 = steps@;
    let n = link.take().unwrap();
    let ghost n0 = *n;
    if n.left.is_none() {
        steps.push(step(
            join(&vec![lit("Replaced "), int_text(z_val as i64), lit(" with successor "), int_text(n.value as i64)]),
            vec![],
            vec![z_pos],
            vec![meta_int("replaced", z_val as i64), meta_int("with", n.value as i64)],
        ));
        let ghost s1 = steps@;
        proof {
            assert(shows_delete(steps@.last(), DeleteEvent::Replaced(z_val, n0.value)));
            lemma_recd_push(s0, steps@.last(), DeleteEvent::Replaced(z_val, n0.value));
            assert(s0.push(steps@.last()) == steps@);
        }
        removed_color_step(n.color, steps);
        proof {
            lemma_recd_concat(s0, s1, steps@, seq![DeleteEvent::Replaced(z_val, n0.value)], seq![DeleteEvent::Removed(n0.color == Color::Black)]);
            assert(seq![DeleteEvent::Replaced(z_val, n0.value)] + seq![DeleteEvent::Removed(n0.color == Color::Black)]
                =~= seq![DeleteEvent::Replaced(z_val, n0.value), DeleteEvent::Removed(n0.color == Color::Black)]);
        }
        let black = n.color == Color::Black;
        let m = n.value;
        *link = n.right;
        proof {
            assert(values(n0.left) == Set::<i32>::empty());
            assert(count(n0.left) == 0);
            assert(!values(n0.right).contains(m));
            assert(values(*link) =~= values(*old(link)).remove(m));
            if no_red_red(Some(Box::new(n0))) && balanced(Some(Box::new(n0))) {
                lemma_splice(n0);
            }
        }
        return (m, black);
    }
    let mut n = n;
    let r = remove_min(&mut n.left, child_pos(pos, true), z_val, z_pos, steps);
    let ghost s1 = steps@;
    proof {
        assert(*n == replace_child(n0, true, remove_min_model(n0.left, z_val).0));
        assert(values(n0.left).contains(r.0));
        assert(r.0 < n0.value);
        assert(!values(n0.right).contains(r.0));
        assert forall|x: i32| #[trigger] values(*old(link)).contains(x) implies r.0 <= x by {
            if values(n0.right).contains(x) {
                assert(r.0 < n0.value);
            }
        }
        assert(values(Some(n)) =~= values(*old(link)).remove(r.0));
    }
    if r.1 {
        let (fixed, short) = absorb(n, true, pos, steps);
        proof {
            lemma_recd_concat(s0, s1, steps@, remove_min_model(n0.left, z_val).3, absorb_model(replace_child(n0, true, remove_min_model(n0.left, z_val).0), true).2);
        }
        *link = Some(fixed);
        (r.0, short)
    } else {
        *link = Some(n);
        (r.0, false)
    }
}

/// Splicing out a node with at most one child leaves that child: a red node
/// goes without changing any black height, a black one leaves its place one
/// black short.
proof fn lemma_splice(n: Node)
    requires
        no_red_red(Some(Box::new(n))),
        balanced(Some(Box::new(n))),
        n.left is None || n.right is None,
    ensures
        ({
            let c = if n.left is None { n.right } else { n.left };
            &&& balanced(c)
            &&& no_red_red(c)
            &&& rr_below(c)
            &&& n.color == Color::Black ==> black_height(c) + 1 == black_height(Some(Box::new(n)))
            &&& n.color == Color::Red ==> black_height(c) == black_height(Some(Box::new(n))) && !is_red(c)
        }),
{
    let c = if n.left is None { n.right } else { n.left };
    assert(no_red_red(n.left) && no_red_red(n.right));
    assert(balanced(n.left) && balanced(n.right));
    assert(no_red_red(c));
    if let Some(m) = c {
        assert(no_red_red(m.left) && no_red_red(m.right));
    }
}

/// Removes the root of the subtree `n`, which sits at `pos`: a node with at
/// most one child is replaced by that child, one with two children takes the
/// value of its in-order successor, whose node is removed instead. The second
/// result tells whether the subtree is left one black short.
fn remove_node(n: Box<Node>, pos: usize, steps: &mut Vec<Step>) -> (r: (Option<Box<Node>>, bool))
    requires
        ordered(Some(n)),
    ensures
        ordered(r.0),
        values(r.0) == values(Some(n)).remove(n.value),
        count(r.0) + 1 == count(Some(n)),
        no_red_red(Some(n)) && balanced(Some(n)) ==> {
            &&& balanced(r.0)
            &&& r.1 ==> rr_below(r.0) && black_height(r.0) + 1 == black_height(Some(n))
            &&& !r.1 ==> no_red_red(r.0) && black_height(r.0) == black_height(Some(n)) && (is_red(r.0) ==> n.color == Color::Red)
        },
        final(steps)@.len() > old(steps)@.len(),
        ({
            let m = remove_node_model(*n);
            &&& r.0 == m.0
            &&& r.1 == m.1
            &&& records_delete(final(steps)@, old(steps)@, m.2)
        }),
{
    let ghost s0 = steps@;
    let ghost n0 = *n;
    let value = n.value;
    steps.push(step(
        join(&vec![lit("Found "), int_text(value as i64), lit(" in the tree")]),
        vec![pos],
        vec![],
        vec![meta_flag("found", true), meta_index("index", pos)],
    ));
    let ghost s1 = steps@;
    proof {
        assert(shows_delete(steps@.last(), DeleteEvent::Found));
        lemma_recd_push(s0, steps@.last(), DeleteEvent::Found);
        assert(s0.push(steps@.last()) == steps@);
    }
    proof {
        assert(!values(n0.left).contains(value));
        assert(!values(n0.right).contains(value));
    }
    let mut n = n;
    let z_val = n.value;
    if n.left.is_none() || n.right.is_none() {
        let black = n.color == Color::Black;
        let rest: Option<Box<Node>>;
        if n.left.is_none() && n.right.is_none() {
            steps.push(step(
                join(&vec![lit("Node "), int_text(z_val as i64), lit(" is a leaf, removing it directly")]),
                vec![],
                vec![pos],
                vec![meta_text("case", "no_children"), meta_int("node", z_val as i64)],
            ));
            rest = None;
        } else if n.left.is_none() {
            let r_val = n.right.as_ref().unwrap().value;
            steps.push(step(
                join(&vec![
                    lit("Node "), int_text(z_val as i64), lit(" has only right child "), int_text(r_val as i64),
                    lit(", replacing with right child"),
                ]),
                vec![],
                vec![pos],
                vec![meta_text("case", "only_right_child"), meta_int("node", z_val as i64), meta_int("replacement", r_val as i64)],
            ));
            rest = n.right;
        } else {
            let l_val = n.left.as_ref().unwrap().value;
            steps.push(step(
                join(&vec![
                    lit("Node "), int_text(z_val as i64), lit(" has only left child "), int_text(l_val as i64),
                    lit(", replacing with left child"),
                ]),
                vec![],
                vec![pos],
                vec![meta_text("case", "only_left_child"), meta_int("node", z_val as i64), meta_int("replacement", l_val as i64)],
            ));
            rest = n.left;
        }
        let ghost s2 = steps@;
        let ghost kind = if n0.left is None && n0.right is None {
            DeleteEvent::Leaf
        } else if n0.left is None {
            DeleteEvent::OnlyRight
        } else {
            DeleteEvent::OnlyLeft
        };
        proof {
            assert(shows_delete(s2.last(), kind));
            lemma_recd_push(s1, s2.last(), kind);
            assert(s1.push(s2.last()) == s2);
        }
        removed_color_step(if black { Color::Black } else { Color::Red }, steps);
        proof {
            lemma_recd_concat(s1, s2, steps@, seq![kind], seq![DeleteEvent::Removed(black)]);
            lemma_recd_concat(s0, s1, steps@, seq![DeleteEvent::Found], seq![kind] + seq![DeleteEvent::Removed(black)]);
            assert(seq![DeleteEvent::Found] + (seq![kind] + seq![DeleteEvent::Removed(black)])
                =~= seq![DeleteEvent::Found, kind, DeleteEvent::Removed(black)]);
        }
        proof {
            if n0.left is None {
                assert(count(n0.left) == 0);
                assert(values(n0.left) == Set::<i32>::empty());
                assert(rest == n0.right);
            } else {
                assert(count(n0.right) == 0);
                assert(values(n0.right) == Set::<i32>::empty());
                assert(rest == n0.left);
            }
            assert(values(rest) =~= values(Some(Box::new(n0))).remove(value));
            if no_red_red(Some(Box::new(n0))) && balanced(Some(Box::new(n0))) {
                lemma_splice(n0);
            }
        }
        return (rest, black);
    }
    let right_pos = child_pos(pos, false);
    let (y_val, y_pos) = tree_minimum(n.right.as_ref().unwrap(), right_pos);
    steps.push(step(
        join(&vec![
            lit("Node "), int_text(z_val as i64), lit(" has two children, finding successor "), int_text(y_val as i64),
        ]),
        vec![y_pos],
        vec![pos],
        vec![meta_text("case", "two_children"), meta_int("node", z_val as i64), meta_int("successor", y_val as i64)],
    ));
    let ghost s2 = steps@;
    proof {
        lemma_remove_min_leftmost(n0.right, n0.value);
        assert(y_val == remove_min_model(n0.right, n0.value).1);
        assert(shows_delete(steps@.last(), DeleteEvent::TwoChildren(y_val)));
        lemma_recd_push(s1, steps@.last(), DeleteEvent::TwoChildren(y_val));
        assert(s1.push(steps@.last()) == steps@);
        lemma_recd_concat(s0, s1, steps@, seq![DeleteEvent::Found], seq![DeleteEvent::TwoChildren(y_val)]);
        assert(seq![DeleteEvent::Found] + seq![DeleteEvent::TwoChildren(y_val)] =~= seq![DeleteEvent::Found, DeleteEvent::TwoChildren(y_val)]);
    }
    let (m, short) = remove_min(&mut n.right, right_pos, z_val, pos, steps);
    n.value = m;
    let ghost s3 = steps@;
    proof {
        let rm = remove_min_model(n0.right, n0.value);
        lemma_recd_concat(s0, s2, s3, seq![DeleteEvent::Found, DeleteEvent::TwoChildren(y_val)], rm.3);
        assert(*n == Node { value: rm.1, ..replace_child(n0, false, rm.0) });
        assert(values(n0.right).contains(m));
        assert(n0.value < m);
        assert forall|x: i32| #[trigger] values(n.right).contains(x) implies m < x by {
            assert(values(n0.right).contains(x));
        }
        assert forall|x: i32| #[trigger] values(n.left).contains(x) implies x < m by {
            assert(x < n0.value);
        }
        assert(values(Some(n)) =~= values(Some(Box::new(n0))).remove(value));
        if no_red_red(Some(Box::new(n0))) && balanced(Some(Box::new(n0))) {
            lemma_balanced_right(n0);
            assert(no_red_red(n0.left) && no_red_red(n0.right) && balanced(n0.left) && balanced(n0.right));
        }
    }
    if short {
        let (fixed, short_above) = absorb(n, false, pos, steps);
        proof {
            let rm = remove_min_model(n0.right, n0.value);
            let n1 = Node { value: rm.1, ..replace_child(n0, false, rm.0) };
            lemma_recd_concat(s0, s3, steps@, seq![DeleteEvent::Found, DeleteEvent::TwoChildren(y_val)] + rm.3, absorb_model(n1, false).2);
        }
        return (Some(fixed), short_above);
    }
    (Some(n), false)
}

/// Removes `value` from the subtree at `link`, whose root sits at `pos`. The
/// first result tells whether it was found, the second whether the subtree
/// is left one black short for the level above to repair.
fn delete_from(link: &mut Option<Box<Node>>, value: i32, pos: usize, steps: &mut Vec<Step>) -> (r: (bool, bool))
    requires
        ordered(*old(link)),
    ensures
        ordered(*final(link)),
        r.0 == values(*old(link)).contains(value),
        values(*final(link)) == values(*old(link)).remove(value),
        count(*final(link)) + if r.0 { 1nat } else { 0nat } == count(*old(link)),
        !r.0 ==> *final(link) == *old(link) && final(steps)@ == old(steps)@,
        r.1 ==> r.0,
        no_red_red(*old(link)) && balanced(*old(link)) ==> {
            &&& balanced(*final(link))
            &&& r.1 ==> rr_below(*final(link)) && black_height(*final(link)) + 1 == black_height(*old(link))
            &&& !r.1 ==> no_red_red(*final(link)) && black_height(*final(link)) == black_height(*old(link))
                && (is_red(*final(link)) ==> is_red(*old(link)))
        },
        r.0 ==> final(steps)@.len() > old(steps)@.len(),
        ({
            let m = delete_model(*old(link), value);
            &&& *final(link) == m.0
            &&& r.0 == m.1
            &&& r.1 == m.2
            &&& records_delete(final(steps)@, old(steps)@, m.3)
        }),
    decreases *old(link),
{
    let ghost s0 = steps@;
    if link.is_none() {
        proof {
            assert(values(*old(link)) =~= values(*old(link)).remove(value));
            lemma_recd_none(s0);
        }
        return (false, false);
    }
    let mut n = link.take().unwrap();
    let ghost n0 = *n;
    if value < n.value {
        let r = delete_from(&mut n.left, value, child_pos(pos, true), steps);
        let ghost s1 = steps@;
        proof {
            assert(*n == replace_child(n0, true, delete_model(child_of(n0, true), value).0));
            assert(!values(n0.right).contains(value));
            assert(values(Some(n)) =~= values(*old(link)).remove(value));
        }
        if r.1 {
            let (fixed, short) = absorb(n, true, pos, steps);
            proof {
                let dm = delete_model(child_of(n0, true), value);
                lemma_recd_concat(s0, s1, steps@, dm.3, absorb_model(replace_child(n0, true, dm.0), true).2);
            }
            *link = Some(fixed);
            return (r.0, short);
        }
        *link = Some(n);
        return (r.0, false);
    }
    if value > n.value {
        let r = delete_from(&mut n.right, value, child_pos(pos, false), steps);
        let ghost s1 = steps@;
        proof {
            assert(*n == replace_child(n0, false, delete_model(child_of(n0, false), value).0));
            assert(!values(n0.left).contains(value));
            assert(values(Some(n)) =~= values(*old(link)).remove(value));
        }
        if r.1 {
            let (fixed, short) = absorb(n, false, pos, steps);
            proof {
                let dm = delete_model(child_of(n0, false), value);
                lemma_recd_concat(s0, s1, steps@, dm.3, absorb_model(replace_child(n0, false, dm.0), false).2);
            }
            *link = Some(fixed);
            return (r.0, short);
        }
        *link = Some(n);
        return (r.0, false);
    }
    let (rest, short) = remove_node(n, pos, steps);
    *link = rest;
    (true, short)
}

/// The value a step records first in its metadata.
pub open spec fn first_meta(s: Step) -> MetaValue {
    s.metadata@[0].value
}

/// Whether the steps after the first `from` of `steps` record, first in
/// their metadata, exactly the values of `vals` in order.
pub open spec fn visits(steps: Seq<Step>, from: int, vals: Seq<i32>) -> bool {
    &&& steps.len() == from + vals.len()
    &&& forall|i: int| 0 <= i < vals.len() ==> #[trigger] first_meta(steps[from + i]) == MetaValue::Int(vals[i] as i64)
}

spec fn preorder(t: Option<Box<Node>>) -> Seq<i32>
    decreases t,
{
    match t {
        None => Seq::empty(),
        Some(n) => seq![n.value] + preorder(n.left) + preorder(n.right),
    }
}

spec fn postorder(t: Option<Box<Node>>) -> Seq<i32>
    decreases t,
{
    match t {
        None => Seq::empty(),
        Some(n) => postorder(n.left) + postorder(n.right) + seq![n.value],
    }
}

proof fn lemma_preorder_len(t: Option<Box<Node>>)
    ensures
        preorder(t).len() == count(t),
    decreases t,
{
    if let Some(n) = t {
        lemma_preorder_len(n.left);
        lemma_preorder_len(n.right);
    }
}

proof fn lemma_postorder_len(t: Option<Box<Node>>)
    ensures
        postorder(t).len() == count(t),
    decreases t,
{
    if let Some(n) = t {
        lemma_postorder_len(n.left);
        lemma_postorder_len(n.right);
    }
}

/// The lower-case name of a colour, as a visit step records it.
pub open spec fn color_text(c: Color) -> Seq<char> {
    if c == Color::Red { "red"@ } else { "black"@ }
}

/// Whether `s` records a visit to the node at position `e.0` holding value
/// `e.1` with colour `e.2`.
pub open spec fn visit_shows(s: Step, e: (usize, i32, Color)) -> bool {
    let m = s.metadata@;
    &&& m.len() > 2
    &&& m[0].value == MetaValue::Int(e.1 as i64)
    &&& text_entry(m[1], "color"@, color_text(e.2))
    &&& m[2].value == MetaValue::Index(e.0)
    &&& s.highlight_indices@ == seq![e.0]
}

/// Whether the steps after the first `from` of `steps` record, in order, a
/// visit to each node of `es`.
pub open spec fn visits_at(steps: Seq<Step>, from: int, es: Seq<(usize, i32, Color)>) -> bool {
    &&& steps.len() == from + es.len()
    &&& forall|i: int| #![trigger es[i]] 0 <= i < es.len() ==> visit_shows(steps[from + i], es[i])
}

/// The nodes below `t`, whose root sits at `pos`, in in-order sequence.
pub open spec fn inorder_at(t: Option<Box<Node>>, pos: int) -> Seq<(usize, i32, Color)>
    decreases t,
{
    match t {
        None => Seq::empty(),
        Some(n) => inorder_at(n.left, child_position(pos, true)) + seq![(pos as usize, n.value, n.color)]
            + inorder_at(n.right, child_position(pos, false)),
    }
}

/// The nodes below `t`, whose root sits at `pos`, in post-order sequence.
pub open spec fn postorder_at(t: Option<Box<Node>>, pos: int) -> Seq<(usize, i32, Color)>
    decreases t,
{
    match t {
        None => Seq::empty(),
        Some(n) => postorder_at(n.left, child_position(pos, true)) + postorder_at(n.right, child_position(pos, false))
            + seq![(pos as usize, n.value, n.color)],
    }
}

proof fn lemma_visits_at_concat(s1: Seq<Step>, s2: Seq<Step>, s3: Seq<Step>, a: Seq<(usize, i32, Color)>, b: Seq<(usize, i32, Color)>)
    requires
        visits_at(s2, s1.len() as int, a),
        s2.subrange(0, s1.len() as int) == s1,
        visits_at(s3, s2.len() as int, b),
        s3.subrange(0, s2.len() as int) == s2,
    ensures
        visits_at(s3, s1.len() as int, a + b),
{
    assert forall|i: int| 0 <= i < (a + b).len() implies visit_shows(s3[s1.len() + i], #[trigger] (a + b)[i]) by {
        if i < a.len() {
            assert(s3.subrange(0, s2.len() as int)[s1.len() + i] == s3[s1.len() + i]);
            assert(visit_shows(s2[s1.len() + i], a[i]));
        } else {
            assert(s3[s1.len() + i] == s3[s2.len() + (i - a.len())]);
            assert(visit_shows(s3[s2.len() + (i - a.len())], b[i - a.len()]));
        }
    }
}

proof fn lemma_visits_at_none(s: Seq<Step>)
    ensures
        visits_at(s, s.len() as int, Seq::empty()),
{
}

fn visit_step(n: &Node, pos: usize, steps: &mut Vec<Step>)
    ensures
        final(steps)@.len() == old(steps)@.len() + 1,
        final(steps)@.subrange(0, old(steps)@.len() as int) == old(steps)@,
        first_meta(final(steps)@.last()) == MetaValue::Int(n.value as i64),
        visits_at(final(steps)@, old(steps)@.len() as int, seq![(pos, n.value, n.color)]),
{
    steps.push(step(
        join(&vec![lit("Visiting "), lit(color_word(n.color)), lit(" node with value "), int_text(n.value as i64)]),
        vec![pos],
        vec![],
        vec![meta_int("value", n.value as i64), meta_text("color", color_name(n.color)), meta_index("index", pos)],
    ));
    assert(final(steps)@.subrange(0, old(steps)@.len() as int) =~= old(steps)@);
    assert(steps@.last().highlight_indices@ =~= seq![pos]);
    assert(visit_shows(steps@.last(), (pos, n.value, n.color)));
    assert(seq![(pos, n.value, n.color)][0] == (pos, n.value, n.color));
}

pub(crate) proof fn lemma_visits_concat(s1: Seq<Step>, s2: Seq<Step>, s3: Seq<Step>, from: int, a: Seq<i32>, b: Seq<i32>)
    requires
        0 <= from <= s1.len(),
        visits(s2, s1.len() as int, a),
        s2.subrange(0, s1.len() as int) == s1,
        visits(s3, s2.len() as int, b),
        s3.subrange(0, s2.len() as int) == s2,
        s1.len() == from,
    ensures
        visits(s3, from, a + b),
        s3.subrange(0, from) == s1,
{
    assert forall|i: int| 0 <= i < (a + b).len() implies #[trigger] first_meta(s3[from + i]) == MetaValue::Int((a + b)[i] as i64) by {
        if i < a.len() {
            assert(s3[from + i] == s2[from + i]);
        } else {
            assert(s3[from + i] == s3[s2.len() + (i - a.len())]);
        }
    }
    assert(s3.subrange(0, from) =~= s1);
}

/// One step per node, in in-order sequence.
fn inorder_traverse_steps(node: &Option<Box<Node>>, pos: usize, steps: &mut Vec<Step>)
    ensures
        visits(final(steps)@, old(steps)@.len() as int, inorder(*node)),
        final(steps)@.subrange(0, old(steps)@.len() as int) == old(steps)@,
        visits_at(final(steps)@, old(steps)@.len() as int, inorder_at(*node, pos as int)),
    decreases *node,
{
    match node {
        None => {
            assert(final(steps)@.subrange(0, old(steps)@.len() as int) =~= old(steps)@);
            proof { lemma_visits_at_none(steps@); }
        },
        Some(n) => {
            let ghost s0 = steps@;
            inorder_traverse_steps(&n.left, child_pos(pos, true), steps);
            let ghost s1 = steps@;
            visit_step(n, pos, steps);
            let ghost s2 = steps@;
            assert(visits(s2, s1.len() as int, seq![n.value]));
            proof { lemma_visits_concat(s0, s1, s2, s0.len() as int, inorder(n.left), seq![n.value]); }
            inorder_traverse_steps(&n.right, child_pos(pos, false), steps);
            proof {
                lemma_visits_concat(s0, s2, steps@, s0.len() as int, inorder(n.left) + seq![n.value], inorder(n.right));
                lemma_visits_at_concat(s0, s1, s2, inorder_at(n.left, child_position(pos as int, true)), seq![(pos, n.value, n.color)]);
                lemma_visits_at_concat(s0, s2, steps@, inorder_at(n.left, child_position(pos as int, true)) + seq![(pos, n.value, n.color)], inorder_at(n.right, child_position(pos as int, false)));
            }
        },
    }
}

/// One step per node, in pre-order sequence.
fn preorder_traverse_steps(node: &Option<Box<Node>>, pos: usize, steps: &mut Vec<Step>)
    ensures
        visits(final(steps)@, old(steps)@.len() as int, preorder(*node)),
        final(steps)@.subrange(0, old(steps)@.len() as int) == old(steps)@,
        visits_at(final(steps)@, old(steps)@.len() as int, placed(*node, pos as int)),
    decreases *node,
{
    match node {
        None => {
            assert(final(steps)@.subrange(0, old(steps)@.len() as int) =~= old(steps)@);
            proof { lemma_visits_at_none(steps@); }
        },
        Some(n) => {
            let ghost s0 = steps@;
            visit_step(n, pos, steps);
            let ghost s1 = steps@;
            assert(visits(s1, s0.len() as int, seq![n.value]));
            preorder_traverse_steps(&n.left, child_pos(pos, true), steps);
            let ghost s2 = steps@;
            proof { lemma_visits_concat(s0, s1, s2, s0.len() as int, seq![n.value], preorder(n.left)); }
            preorder_traverse_steps(&n.right, child_pos(pos, false), steps);
            proof {
                lemma_visits_concat(s0, s2, steps@, s0.len() as int, seq![n.value] + preorder(n.left), preorder(n.right));
                lemma_visits_at_concat(s0, s1, s2, seq![(pos, n.value, n.color)], placed(n.left, child_position(pos as int, true)));
                lemma_visits_at_concat(s0, s2, steps@, seq![(pos, n.value, n.color)] + placed(n.left, child_position(pos as int, true)), placed(n.right, child_position(pos as int, false)));
            }
        },
    }
}

/// One step per node, in post-order sequence.
fn postorder_traverse_steps(node: &Option<Box<Node>>, pos: usize, steps: &mut Vec<Step>)
    ensures
        visits(final(steps)@, old(steps)@.len() as int, postorder(*node)),
        final(steps)@.subrange(0, old(steps)@.len() as int) == old(steps)@,
        visits_at(final(steps)@, old(steps)@.len() as int, postorder_at(*node, pos as int)),
    decreases *node,
{
    match node {
        None => {
            assert(final(steps)@.subrange(0, old(steps)@.len() as int) =~= old(steps)@);
            proof { lemma_visits_at_none(steps@); }
        },
        Some(n) => {
            let ghost s0 = steps@;
            postorder_traverse_steps(&n.left, child_pos(pos, true), steps);
            let ghost s1 = steps@;
            postorder_traverse_steps(&n.right, child_pos(pos, false), steps);
            let ghost s2 = steps@;
            proof { lemma_visits_concat(s0, s1, s2, s0.len() as int, postorder(n.left), postorder(n.right)); }
            visit_step(n, pos, steps);
            assert(visits(steps@, s2.len() as int, seq![n.value]));
            proof {
                lemma_visits_concat(s0, s2, steps@, s0.len() as int, postorder(n.left) + postorder(n.right), seq![n.value]);
                lemma_visits_at_concat(s0, s1, s2, postorder_at(n.left, child_position(pos as int, true)), postorder_at(n.right, child_position(pos as int, false)));
                lemma_visits_at_concat(s0, s2, steps@, postorder_at(n.left, child_position(pos as int, true)) + postorder_at(n.right, child_position(pos as int, false)), seq![(pos, n.value, n.color)]);
            }
        },
    }
}

/// The values of the nodes a search for `v` checks below `t`, in order.
pub open spec fn search_path(t: Option<Box<Node>>, v: i32) -> Seq<i32>
    decreases t,
{
    match t {
        None => Seq::empty(),
        Some(n) => if v == n.value {
            seq![n.value]
        } else {
            seq![n.value] + search_path(child_of(*n, v < n.value), v)
        },
    }
}

/// The positions of the nodes a search for `v` checks below `t`, whose root
/// sits at `pos`, in order.
pub open spec fn search_positions(t: Option<Box<Node>>, v: i32, pos: int) -> Seq<usize>
    decreases t,
{
    match t {
        None => Seq::empty(),
        Some(n) => if v == n.value {
            seq![pos as usize]
        } else {
            seq![pos as usize] + search_positions(child_of(*n, v < n.value), v, child_position(pos, v < n.value))
        },
    }
}

/// A search below `node`, at `pos`: one step per node checked, and a
/// closing step where the value is found.
fn search_steps(node: &Option<Box<Node>>, target: i32, pos: usize, steps: &mut Vec<Step>) -> (r: bool)
    requires
        ordered(*node),
    ensures
        r == values(*node).contains(target),
        final(steps)@.len() >= old(steps)@.len(),
        r ==> final(steps)@.len() > old(steps)@.len() && flagged(final(steps)@.last(), "found"@, true),
        final(steps)@.len() == old(steps)@.len() + search_path(*node, target).len() + if r { 1int } else { 0int },
        final(steps)@.subrange(0, old(steps)@.len() as int) == old(steps)@,
        search_positions(*node, target, pos as int).len() == search_path(*node, target).len(),
        forall|i: int| 0 <= i < search_positions(*node, target, pos as int).len()
            ==> (#[trigger] final(steps)@[old(steps)@.len() + i]).highlight_indices@ == seq![search_positions(*node, target, pos as int)[i]],
    decreases *node,
{
    match node {
        None => {
            assert(final(steps)@.subrange(0, old(steps)@.len() as int) =~= old(steps)@);
            false
        },
        Some(n) => {
            let ghost s0 = steps@;
            steps.push(step(
                join(&vec![lit("Checking "), lit(color_word(n.color)), lit(" node with value "), int_text(n.value as i64)]),
                vec![pos],
                vec![],
                vec![meta_text("node_color", color_name(n.color))],
            ));
            let ghost s1 = steps@;
            assert(s1[s0.len() as int].highlight_indices@ =~= seq![pos]);
            if target == n.value {
                let marker = step(
                    join(&vec![lit("Found "), int_text(target as i64), lit(" at node")]),
                    vec![],
                    vec![pos],
                    vec![meta_flag("found", true), meta_index("index", pos)],
                );
                assert(marker.metadata@[0].key@ == "found"@);
                steps.push(marker);
                assert(steps@[s0.len() as int] == s1[s0.len() as int]);
                assert(steps@.subrange(0, s0.len() as int) =~= s0);
                true
            } else {
                let go_left = target < n.value;
                if go_left {
                    assert(!values(n.right).contains(target));
                } else {
                    assert(!values(n.left).contains(target));
                }
                let r = search_steps(child_ref(n, go_left), target, child_pos(pos, go_left), steps);
                proof {
                    assert(steps@.subrange(0, s1.len() as int)[s0.len() as int] == steps@[s0.len() as int]);
                    assert(steps@.subrange(0, s0.len() as int) =~= s0) by {
                        assert forall|k: int| 0 <= k < s0.len() implies steps@[k] == s0[k] by {
                            assert(steps@.subrange(0, s1.len() as int)[k] == steps@[k]);
                        }
                    }
                    let sp = search_positions(child_of(**n, go_left), target, child_position(pos as int, go_left));
                    assert forall|i: int| 0 <= i < search_positions(*node, target, pos as int).len()
                        implies (#[trigger] steps@[s0.len() + i]).highlight_indices@ == seq![search_positions(*node, target, pos as int)[i]] by {
                        if i > 0 {
                            assert(steps@[s1.len() + (i - 1)].highlight_indices@ == seq![sp[i - 1]]);
                        }
                    }
                }
                r
            }
        },
    }
}

pub(crate) fn not_found_step(value: i32) -> (r: Step)
    ensures
        flagged(r, "found"@, false),
        r.metadata@.len() > 0 && r.metadata@[0].key@ == "found"@ && r.metadata@[0].value == MetaValue::Flag(false),
{
    let r = step(
        join(&vec![lit("Value "), int_text(value as i64), lit(" not found in tree")]),
        vec![],
        vec![],
        vec![meta_flag("found", false)],
    );
    assert(r.metadata@[0].key@ == "found"@);
    r
}

pub(crate) fn closing_step(text: &str) -> (r: Step) {
    step(lit(text), vec![], vec![], vec![])
}

/// How many positions of the complete-binary-tree numbering a render shows.
pub const RENDER_SLOTS: usize = 128;

/// The subtree at position `p` of the complete-binary-tree numbering.
spec fn subtree_at(t: Option<Box<Node>>, p: nat) -> Option<Box<Node>>
    decreases p,
{
    if p == 0 {
        t
    } else {
        child(subtree_at(t, ((p - 1) / 2) as nat), p % 2 == 1)
    }
}

/// The value and colour of the node at position `p`, if any.
spec fn slot_at(t: Option<Box<Node>>, p: nat) -> Option<(i32, Color)> {
    match subtree_at(t, p) {
        None => None,
        Some(n) => Some((n.value, n.color)),
    }
}

spec fn refers_to(o: Option<&Box<Node>>, t: Option<Box<Node>>) -> bool {
    match o {
        None => t is None,
        Some(r) => t == Some(*r),
    }
}

/// The nodes at the first `RENDER_SLOTS` positions, by position.
fn tree_to_array(root: &Option<Box<Node>>) -> (r: Vec<Option<(i32, Color)>>)
    ensures
        r@.len() == RENDER_SLOTS,
        forall|j: int| 0 <= j < RENDER_SLOTS ==> #[trigger] r@[j] == slot_at(*root, j as nat),
{
    let mut nodes: Vec<Option<&Box<Node>>> = Vec::new();
    let mut result: Vec<Option<(i32, Color)>> = Vec::new();
    let mut p: usize = 0;
    while p < RENDER_SLOTS
        invariant
            p <= RENDER_SLOTS,
            nodes@.len() == p,
            result@.len() == p,
            forall|j: int| 0 <= j < p ==> refers_to(#[trigger] nodes@[j], subtree_at(*root, j as nat)),
            forall|j: int| 0 <= j < p ==> #[trigger] result@[j] == slot_at(*root, j as nat),
        decreases RENDER_SLOTS - p,
    {
        let here: Option<&Box<Node>> = if p == 0 {
            root.as_ref()
        } else {
            match nodes[(p - 1) / 2] {
                None => None,
                Some(parent) => child_ref(parent, p % 2 == 1).as_ref(),
            }
        };
        proof {
            if p > 0 {
                assert(refers_to(nodes@[(p - 1) / 2], subtree_at(*root, ((p - 1) / 2) as nat)));
            }
        }
        let cell = match here {
            None => None,
            Some(n) => Some((n.value, n.color)),
        };
        nodes.push(here);
        result.push(cell);
        p = p + 1;
    }
    result
}

/// How a node of the given colour is drawn.
pub open spec fn color_state(c: Color) -> ElementState {
    match c {
        Color::Red => ElementState::Comparing,
        Color::Black => ElementState::Normal,
    }
}

/// Whether `e` draws a node holding `value` with colour `c`.
pub open spec fn draws(e: RenderElement, value: i32, c: Color) -> bool {
    &&& e.value == value
    &&& e.state == color_state(c)
    &&& e.label@ == decimal(value as int)
    &&& e.sublabel@ == (if c == Color::Red { "R"@ } else { "B"@ })
}

/// Whether `e` is an empty placeholder cell.
pub open spec fn blank(e: RenderElement) -> bool {
    &&& e.value == 0
    &&& e.state == ElementState::Normal
    &&& e.label@ == Seq::<char>::empty()
    &&& e.sublabel@ == Seq::<char>::empty()
}

/// Whether `e` draws a vacant (black) leaf.
pub open spec fn nil_leaf(e: RenderElement) -> bool {
    &&& e.value == 0
    &&& e.state == ElementState::Normal
    &&& e.label@ == "NIL"@
    &&& e.sublabel@ == "B"@
}

fn blank_element() -> (r: RenderElement)
    ensures
        blank(r),
{
    RenderElement::new(0).with_label(String::new())
}

fn node_element(value: i32, c: Color) -> (r: RenderElement)
    ensures
        draws(r, value, c),
{
    let e = RenderElement::new(value).with_label(int_text(value as i64));
    let e = e.with_sublabel(lit(if c == Color::Red { "R" } else { "B" }));
    if c == Color::Red {
        e.with_state(ElementState::Comparing)
    } else {
        e.with_state(ElementState::Normal)
    }
}

fn nil_element() -> (r: RenderElement)
    ensures
        nil_leaf(r),
{
    RenderElement::new(0).with_label(lit("NIL")).with_sublabel(lit("B")).with_state(ElementState::Normal)
}

/// Grows `elements` with blank cells until `idx` is a valid index.
pub(crate) fn pad_to(elements: &mut Vec<RenderElement>, idx: usize)
    requires
        idx < usize::MAX,
    ensures
        final(elements)@.len() == if old(elements)@.len() > idx { old(elements)@.len() as int } else { idx + 1 },
        forall|j: int| 0 <= j < old(elements)@.len() ==> #[trigger] final(elements)@[j] == old(elements)@[j],
        forall|j: int| old(elements)@.len() <= j < final(elements)@.len() ==> blank(#[trigger] final(elements)@[j]),
{
    while elements.len() <= idx
        invariant
            idx < usize::MAX,
            old(elements)@.len() <= elements@.len(),
            elements@.len() <= if old(elements)@.len() > idx { old(elements)@.len() as int } else { idx + 1 },
            forall|j: int| 0 <= j < old(elements)@.len() ==> #[trigger] elements@[j] == old(elements)@[j],
            forall|j: int| old(elements)@.len() <= j < elements@.len() ==> blank(#[trigger] elements@[j]),
        decreases idx + 1 - elements@.len(),
    {
        elements.push(blank_element());
    }
}

/// Whether position `j` holds a node in the slot array.
pub open spec fn present(array: Seq<Option<(i32, Color)>>, j: int) -> bool {
    0 <= j < array.len() && array[j] is Some
}

/// Whether `c` is the left or right child position of `a`.
pub open spec fn child_link(a: int, c: int) -> bool {
    c == 2 * a + 1 || c == 2 * a + 2
}

/// Whether `e` joins two nodes of the slot array, parent first.
pub open spec fn edge_of(array: Seq<Option<(i32, Color)>>, e: (usize, usize)) -> bool {
    present(array, e.0 as int) && present(array, e.1 as int) && child_link(e.0 as int, e.1 as int)
}

/// Whether `e`, at position `j`, draws what the slot array holds there.
pub open spec fn drawn_at(array: Seq<Option<(i32, Color)>>, e: RenderElement, j: int) -> bool {
    match array[j] {
        Some((v, c)) => draws(e, v, c),
        None => blank(e),
    }
}

/// The projection of a slot array: one cell per position up to the last node
/// (blank where there is none), and an edge from each node to each child it has.
fn render_slots(array: &Vec<Option<(i32, Color)>>) -> (r: RenderState)
    requires
        array@.len() == RENDER_SLOTS,
    ensures
        r.elements@.len() <= RENDER_SLOTS,
        r.elements@.len() == 0 || present(array@, r.elements@.len() - 1),
        forall|j: int| present(array@, j) ==> j < r.elements@.len(),
        forall|j: int| 0 <= j < r.elements@.len() ==> drawn_at(array@, #[trigger] r.elements@[j], j),
        forall|k: int| 0 <= k < r.connections@.len() ==> edge_of(array@, #[trigger] r.connections@[k]),
        forall|a: int, c: int| present(array@, a) && present(array@, c) && #[trigger] child_link(a, c)
            ==> r.connections@.contains((a as usize, c as usize)),
{
    let mut elements: Vec<RenderElement> = Vec::new();
    let mut connections: Vec<(usize, usize)> = Vec::new();
    let mut idx: usize = 0;
    while idx < RENDER_SLOTS
        invariant
            array@.len() == RENDER_SLOTS,
            idx <= RENDER_SLOTS,
            elements@.len() <= idx,
            elements@.len() == 0 || present(array@, elements@.len() - 1),
            forall|j: int| present(array@, j) && j < idx ==> j < elements@.len(),
            forall|j: int| 0 <= j < elements@.len() ==> drawn_at(array@, #[trigger] elements@[j], j),
            forall|k: int| 0 <= k < connections@.len() ==> edge_of(array@, #[trigger] connections@[k]),
            forall|a: int, c: int| present(array@, a) && present(array@, c) && #[trigger] child_link(a, c) && a < idx
                ==> connections@.contains((a as usize, c as usize)),
        decreases RENDER_SLOTS - idx,
    {
        if let Some((value, color)) = array[idx] {
            let ghost before = elements@;
            pad_to(&mut elements, idx);
            let ghost padded = elements@;
            elements.set(idx, node_element(value, color));
            assert forall|j: int| 0 <= j < elements@.len() implies drawn_at(array@, #[trigger] elements@[j], j) by {
                if j < before.len() {
                    assert(elements@[j] == before[j]);
                } else if j < idx {
                    assert(!present(array@, j));
                    assert(elements@[j] == padded[j]);
                    assert(blank(padded[j]));
                }
            }
            let left = 2 * idx + 1;
            let right = 2 * idx + 2;
            let ghost c0 = connections@;
            if left < RENDER_SLOTS && array[left].is_some() {
                connections.push((idx, left));
            }
            let ghost c1 = connections@;
            if right < RENDER_SLOTS && array[right].is_some() {
                connections.push((idx, right));
            }
            assert forall|a: int, c: int| present(array@, a) && present(array@, c) && #[trigger] child_link(a, c) && a < idx + 1
                implies connections@.contains((a as usize, c as usize)) by {
                if a < idx {
                    assert(c0.contains((a as usize, c as usize)));
                    let k = choose|k: int| 0 <= k < c0.len() && c0[k] == (a as usize, c as usize);
                    assert(connections@[k] == c0[k]);
                } else if c == 2 * a + 1 {
                    assert(c1[c1.len() - 1] == (a as usize, c as usize));
                    assert(connections@[c1.len() - 1] == c1[c1.len() - 1]);
                } else {
                    assert(connections@[connections@.len() - 1] == (a as usize, c as usize));
                }
            }
        }
        idx = idx + 1;
    }
    RenderState { elements, connections }
}

/// Whether position `j` is a vacant child position of a node of the slot
/// array that has been drawn (its parent lies below `done`).
pub open spec fn vacant_child(array: Seq<Option<(i32, Color)>>, j: int, done: int) -> bool {
    &&& 1 <= j < 2 * RENDER_SLOTS
    &&& present(array, (j - 1) / 2)
    &&& (j - 1) / 2 < done
    &&& !present(array, j)
}

/// What the cell at `j` shows once the nodes below `done` have been drawn
/// with their vacant leaves.
pub open spec fn nil_drawn_at(array: Seq<Option<(i32, Color)>>, e: RenderElement, j: int, done: int) -> bool {
    if present(array, j) && j < done {
        drawn_at(array, e, j)
    } else if vacant_child(array, j, done) {
        nil_leaf(e)
    } else {
        blank(e)
    }
}

/// Whether `e` joins a node of the slot array to one of its child positions.
pub open spec fn nil_edge_of(array: Seq<Option<(i32, Color)>>, e: (usize, usize)) -> bool {
    present(array, e.0 as int) && child_link(e.0 as int, e.1 as int) && e.1 < 2 * RENDER_SLOTS
}

proof fn lemma_nil_advance(array: Seq<Option<(i32, Color)>>, e: RenderElement, j: int, idx: int)
    requires
        nil_drawn_at(array, e, j, idx),
        j != idx || !present(array, idx),
        !(j == 2 * idx + 1 || j == 2 * idx + 2) || !present(array, idx),
    ensures
        nil_drawn_at(array, e, j, idx + 1),
{
    if j >= 1 && (j - 1) / 2 == idx {
        assert(j == 2 * idx + 1 || j == 2 * idx + 2);
    }
}

/// Draws `c`, a child position of a drawn node, as a NIL leaf where no node
/// is there, and links it to its parent.
fn draw_child(array: &Vec<Option<(i32, Color)>>, elements: &mut Vec<RenderElement>, connections: &mut Vec<(usize, usize)>, idx: usize, c: usize)
    requires
        array@.len() == RENDER_SLOTS,
        idx < RENDER_SLOTS,
        c == 2 * idx + 1 || c == 2 * idx + 2,
        old(elements)@.len() <= 2 * RENDER_SLOTS,
    ensures
        final(elements)@.len() >= old(elements)@.len(),
        final(elements)@.len() <= 2 * RENDER_SLOTS,
        forall|j: int| 0 <= j < old(elements)@.len() && j != c ==> #[trigger] final(elements)@[j] == old(elements)@[j],
        forall|j: int| old(elements)@.len() <= j < final(elements)@.len() && j != c ==> blank(#[trigger] final(elements)@[j]),
        c < 2 * RENDER_SLOTS && !present(array@, c as int) ==> c < final(elements)@.len() && nil_leaf(final(elements)@[c as int]),
        !(c < 2 * RENDER_SLOTS && !present(array@, c as int)) ==> final(elements)@ == old(elements)@,
        c < 2 * RENDER_SLOTS ==> final(connections)@ == old(connections)@.push((idx, c)),
        c >= 2 * RENDER_SLOTS ==> final(connections)@ == old(connections)@,
{
    if c >= 2 * RENDER_SLOTS {
        return;
    }
    connections.push((idx, c));
    if c < RENDER_SLOTS && array[c].is_some() {
        return;
    }
    pad_to(elements, c);
    elements.set(c, nil_element());
}

/// The projection of a slot array with vacant leaves drawn: each node, a NIL
/// cell at each of its vacant child positions, and an edge from each node to
/// both of its child positions.
fn render_slots_with_nil(array: &Vec<Option<(i32, Color)>>) -> (r: RenderState)
    requires
        array@.len() == RENDER_SLOTS,
    ensures
        r.elements@.len() <= 2 * RENDER_SLOTS,
        forall|j: int| present(array@, j) ==> j < r.elements@.len(),
        forall|j: int| vacant_child(array@, j, RENDER_SLOTS as int) ==> j < r.elements@.len(),
        forall|j: int| 0 <= j < r.elements@.len() ==> nil_drawn_at(array@, #[trigger] r.elements@[j], j, RENDER_SLOTS as int),
        forall|k: int| 0 <= k < r.connections@.len() ==> nil_edge_of(array@, #[trigger] r.connections@[k]),
        forall|a: int, c: int| present(array@, a) && #[trigger] child_link(a, c) && c < 2 * RENDER_SLOTS
            ==> r.connections@.contains((a as usize, c as usize)),
{
    let mut elements: Vec<RenderElement> = Vec::new();
    let mut connections: Vec<(usize, usize)> = Vec::new();
    let mut idx: usize = 0;
    while idx < RENDER_SLOTS
        invariant
            array@.len() == RENDER_SLOTS,
            idx <= RENDER_SLOTS,
            elements@.len() <= 2 * RENDER_SLOTS,
            forall|j: int| present(array@, j) && j < idx ==> j < elements@.len(),
            forall|j: int| vacant_child(array@, j, idx as int) ==> j < elements@.len(),
            forall|j: int| 0 <= j < elements@.len() ==> nil_drawn_at(array@, #[trigger] elements@[j], j, idx as int),
            forall|k: int| 0 <= k < connections@.len() ==> nil_edge_of(array@, #[trigger] connections@[k]),
            forall|a: int, c: int| present(array@, a) && #[trigger] child_link(a, c) && c < 2 * RENDER_SLOTS && a < idx
                ==> connections@.contains((a as usize, c as usize)),
        decreases RENDER_SLOTS - idx,
    {
        if let Some((value, color)) = array[idx] {
            let ghost before = elements@;
            pad_to(&mut elements, idx);
            elements.set(idx, node_element(value, color));
            let ghost drawn = elements@;
            assert forall|j: int| 0 <= j < elements@.len() && j != idx implies #[trigger] nil_drawn_at(array@, elements@[j], j, idx as int) by {
                if j < before.len() {
                    assert(elements@[j] == before[j]);
                } else {
                    assert(blank(elements@[j]));
                }
            }
            let ghost c0 = connections@;
            draw_child(array, &mut elements, &mut connections, idx, 2 * idx + 1);
            let ghost c1 = connections@;
            let ghost mid = elements@;
            draw_child(array, &mut elements, &mut connections, idx, 2 * idx + 2);
            assert forall|j: int| 0 <= j < elements@.len() implies nil_drawn_at(array@, #[trigger] elements@[j], j, idx + 1) by {
                if j == 2 * idx + 1 || j == 2 * idx + 2 {
                    if j < 2 * RENDER_SLOTS && !present(array@, j) {
                        if j == 2 * idx + 1 {
                            assert(elements@[j] == mid[j]);
                        }
                        assert(vacant_child(array@, j, idx + 1));
                    } else if j < drawn.len() {
                        assert(elements@[j] == mid[j]);
                        assert(mid[j] == drawn[j]);
                        assert(nil_drawn_at(array@, drawn[j], j, idx as int));
                    } else {
                        assert(blank(elements@[j]));
                    }
                } else if j == idx {
                    assert(elements@[j] == mid[j]);
                    assert(mid[j] == drawn[j]);
                } else if j < drawn.len() {
                    assert(elements@[j] == mid[j]);
                    assert(mid[j] == drawn[j]);
                    assert(nil_drawn_at(array@, drawn[j], j, idx as int));
                    lemma_nil_advance(array@, elements@[j], j, idx as int);
                } else {
                    if j < mid.len() {
                        assert(elements@[j] == mid[j]);
                    }
                    assert(blank(elements@[j]));
                    if j >= 1 && (j - 1) / 2 == idx {
                        assert(j == 2 * idx + 1 || j == 2 * idx + 2);
                    }
                    if vacant_child(array@, j, idx + 1) {
                        assert(vacant_child(array@, j, idx as int));
                    }
                }
            }
            assert forall|j: int| #[trigger] vacant_child(array@, j, idx + 1) implies j < elements@.len() by {
                if (j - 1) / 2 == idx {
                    assert(j == 2 * idx + 1 || j == 2 * idx + 2);
                } else {
                    assert(vacant_child(array@, j, idx as int));
                }
            }
            assert forall|a: int, c: int| present(array@, a) && #[trigger] child_link(a, c) && c < 2 * RENDER_SLOTS && a < idx + 1
                implies connections@.contains((a as usize, c as usize)) by {
                if a < idx {
                    let k = choose|k: int| 0 <= k < c0.len() && c0[k] == (a as usize, c as usize);
                    assert(connections@[k] == c0[k]);
                } else if c == 2 * a + 1 {
                    assert(connections@[c0.len() as int] == (a as usize, c as usize));
                } else {
                    assert(connections@[c1.len() as int] == (a as usize, c as usize));
                }
            }
        } else {
            assert forall|j: int| 0 <= j < elements@.len() implies nil_drawn_at(array@, #[trigger] elements@[j], j, idx + 1) by {
                assert(nil_drawn_at(array@, elements@[j], j, idx as int));
                lemma_nil_advance(array@, elements@[j], j, idx as int);
            }
            assert forall|j: int| #[trigger] vacant_child(array@, j, idx + 1) implies j < elements@.len() by {
                assert(vacant_child(array@, j, idx as int));
            }
        }
        idx = idx + 1;
    }
    RenderState { elements, connections }
}

/// A search-ordered subtree lists its values in strictly increasing order.
proof fn lemma_inorder(t: Option<Box<Node>>)
    requires
        ordered(t),
    ensures
        forall|x: i32| inorder(t).contains(x) <==> #[trigger] values(t).contains(x),
        forall|i: int, j: int| 0 <= i < j < inorder(t).len() ==> inorder(t)[i] < inorder(t)[j],
    decreases t,
{
    if let Some(n) = t {
        lemma_inorder(n.left);
        lemma_inorder(n.right);
        let a = inorder(n.left);
        let b = inorder(n.right);
        let s = inorder(t);
        assert(s == a + seq![n.value] + b);
        assert forall|x: i32| s.contains(x) <==> #[trigger] values(t).contains(x) by {
            if s.contains(x) {
                let k = choose|k: int| 0 <= k < s.len() && s[k] == x;
                if k < a.len() {
                    assert(a[k] == x);
                    assert(a.contains(x));
                    assert(values(n.left).contains(x));
                } else if k > a.len() {
                    assert(b[k - a.len() - 1] == x);
                    assert(b.contains(x));
                    assert(values(n.right).contains(x));
                }
            }
            if values(t).contains(x) {
                if values(n.left).contains(x) {
                    assert(a.contains(x));
                    let k = choose|k: int| 0 <= k < a.len() && a[k] == x;
                    assert(s[k] == x);
                } else if x == n.value {
                    assert(s[a.len() as int] == x);
                } else {
                    assert(values(n.right).contains(x));
                    assert(b.contains(x));
                    let k = choose|k: int| 0 <= k < b.len() && b[k] == x;
                    assert(s[a.len() + 1 + k] == x);
                }
            }
        }
        assert forall|i: int, j: int| 0 <= i < j < s.len() implies s[i] < s[j] by {
            if i < a.len() {
                assert(s[i] == a[i]);
                assert(a.contains(a[i]));
                assert(values(n.left).contains(a[i]));
            }
            if j > a.len() {
                assert(s[j] == b[j - a.len() - 1]);
                assert(b.contains(b[j - a.len() - 1]));
                assert(values(n.right).contains(b[j - a.len() - 1]));
            }
            if i > a.len() {
                assert(s[i] == b[i - a.len() - 1]);
            }
            if j < a.len() {
                assert(s[j] == a[j]);
            }
        }
    }
}

/// Two strictly increasing sequences with the same elements are equal.
proof fn lemma_sorted_unique(a: Seq<i32>, b: Seq<i32>)
    requires
        forall|i: int, j: int| 0 <= i < j < a.len() ==> a[i] < a[j],
        forall|i: int, j: int| 0 <= i < j < b.len() ==> b[i] < b[j],
        forall|x: i32| a.contains(x) <==> b.contains(x),
    ensures
        a == b,
    decreases a.len(),
{
    if a.len() == 0 {
        if b.len() > 0 {
            assert(b.contains(b[0]));
        }
        assert(a =~= b);
    } else {
        assert(a.contains(a[0]));
        assert(b.len() > 0);
        assert(b.contains(b[0]));
        let i = choose|i: int| 0 <= i < a.len() && a[i] == b[0];
        let j = choose|j: int| 0 <= j < b.len() && b[j] == a[0];
        assert(a[0] == b[0]) by {
            if i > 0 {
                assert(a[0] < a[i]);
            }
            if j > 0 {
                assert(b[0] < b[j]);
            }
        }
        let ta = a.drop_first();
        let tb = b.drop_first();
        assert forall|x: i32| ta.contains(x) <==> tb.contains(x) by {
            if ta.contains(x) {
                let k = choose|k: int| 0 <= k < ta.len() && ta[k] == x;
                assert(a[k + 1] == x);
                assert(a.contains(x));
                let m = choose|m: int| 0 <= m < b.len() && b[m] == x;
                assert(a[0] < a[k + 1]);
                assert(m != 0);
                assert(tb[m - 1] == x);
            }
            if tb.contains(x) {
                let k = choose|k: int| 0 <= k < tb.len() && tb[k] == x;
                assert(b[k + 1] == x);
                assert(b.contains(x));
                let m = choose|m: int| 0 <= m < a.len() && a[m] == x;
                assert(b[0] < b[k + 1]);
                assert(m != 0);
                assert(ta[m - 1] == x);
            }
        }
        assert forall|p: int, q: int| 0 <= p < q < ta.len() implies ta[p] < ta[q] by {
            assert(a[p + 1] < a[q + 1]);
        }
        assert forall|p: int, q: int| 0 <= p < q < tb.len() implies tb[p] < tb[q] by {
            assert(b[p + 1] < b[q + 1]);
        }
        lemma_sorted_unique(ta, tb);
        assert(a =~= seq![a[0]] + ta);
        assert(b =~= seq![b[0]] + tb);
    }
}

proof fn lemma_black_height_bound(t: Option<Box<Node>>)
    ensures
        black_height(t) <= count(t),
    decreases t,
{
    if let Some(n) = t {
        lemma_black_height_bound(n.left);
    }
}

/// Checks the red-red rule and the black-height balance below `t`, returning
/// the verdict and, where it holds, the black height.
fn rb_check(t: &Option<Box<Node>>) -> (r: (bool, usize))
    requires
        count(*t) <= usize::MAX,
    ensures
        r.0 == (no_red_red(*t) && balanced(*t)),
        r.0 ==> r.1 == black_height(*t),
    decreases *t,
{
    match t {
        None => (true, 0),
        Some(n) => {
            if n.color == Color::Red && (link_is_red(&n.left) || link_is_red(&n.right)) {
                return (false, 0);
            }
            let (left_ok, left_bh) = rb_check(&n.left);
            let (right_ok, right_bh) = rb_check(&n.right);
            if !left_ok || !right_ok || left_bh != right_bh {
                return (false, 0);
            }
            proof { lemma_black_height_bound(*t); }
            let bh = if n.color == Color::Black { left_bh + 1 } else { left_bh };
            (true, bh)
        },
    }
}

/// The number of nodes in the subtrees waiting in a breadth-first queue.
spec fn pending(q: Seq<(&Box<Node>, usize)>) -> nat
    decreases q.len(),
{
    if q.len() == 0 {
        0
    } else {
        pending(q.drop_last()) + count(Some(*q.last().0))
    }
}

proof fn lemma_pending_front(q: Seq<(&Box<Node>, usize)>)
    requires
        q.len() > 0,
    ensures
        pending(q) == count(Some(*q[0].0)) + pending(q.drop_first()),
    decreases q.len(),
{
    if q.len() > 1 {
        lemma_pending_front(q.drop_last());
        assert(q.drop_last().drop_first() =~= q.drop_first().drop_last());
    } else {
        assert(q.drop_last() =~= Seq::<(&Box<Node>, usize)>::empty());
        assert(q.drop_first() =~= Seq::<(&Box<Node>, usize)>::empty());
    }
}

/// The children of a node, left first.
spec fn kids(n: Box<Node>) -> Seq<Box<Node>> {
    (match n.left {
        Some(l) => seq![l],
        None => Seq::empty(),
    }) + (match n.right {
        Some(r) => seq![r],
        None => Seq::empty(),
    })
}

/// The values a breadth-first walk visits from the queue `q`, taking `fuel`
/// nodes at most.
spec fn bfs(q: Seq<Box<Node>>, fuel: nat) -> Seq<i32>
    decreases fuel,
{
    if fuel == 0 || q.len() == 0 {
        Seq::empty()
    } else {
        seq![q[0].value] + bfs(q.drop_first() + kids(q[0]), (fuel - 1) as nat)
    }
}

/// The values level by level from the root, each level left to right.
spec fn levelorder(t: Option<Box<Node>>) -> Seq<i32> {
    match t {
        None => Seq::empty(),
        Some(r) => bfs(seq![r], count(t)),
    }
}

spec fn queued(q: Seq<(&Box<Node>, usize)>) -> Seq<Box<Node>> {
    q.map_values(|e: (&Box<Node>, usize)| *e.0)
}

/// One step per node, level by level from the root, left to right.
fn levelorder_traverse_steps(root: &Option<Box<Node>>, steps: &mut Vec<Step>)
    requires
        count(*root) <= usize::MAX,
    ensures
        visits(final(steps)@, old(steps)@.len() as int, levelorder(*root)),
        final(steps)@.len() == old(steps)@.len() + count(*root),
        final(steps)@.subrange(0, old(steps)@.len() as int) == old(steps)@,
{
    let mut queue: Vec<(&Box<Node>, usize)> = Vec::new();
    if let Some(r) = root {
        queue.push((r, 0));
        proof {
            assert(queue@.drop_last() =~= Seq::<(&Box<Node>, usize)>::empty());
            assert(pending(Seq::<(&Box<Node>, usize)>::empty()) == 0);
            assert(queue@.last().0 == r);
            assert(pending(queue@) == count(*root));
            assert(queued(queue@) =~= seq![*r]);
        }
    } else {
        assert(pending(queue@) == 0);
        assert(levelorder(*root) == Seq::<i32>::empty());
    }
    proof {
        assert(queue@.subrange(0, queue@.len() as int) =~= queue@);
    }
    let ghost start = steps@;
    let ghost target = levelorder(*root);
    let ghost mut vis: Seq<i32> = Seq::empty();
    proof {
        assert(vis + bfs(queued(queue@), pending(queue@)) =~= target);
        assert(steps@.subrange(0, start.len() as int) =~= start);
    }
    let mut head: usize = 0;
    while head < queue.len()
        invariant
            head <= queue@.len(),
            visits(steps@, start.len() as int, vis),
            vis.len() == head,
            steps@.subrange(0, start.len() as int) == start,
            head + pending(queue@.subrange(head as int, queue@.len() as int)) == count(*root),
            vis + bfs(queued(queue@.subrange(head as int, queue@.len() as int)), pending(queue@.subrange(head as int, queue@.len() as int))) == target,
            count(*root) <= usize::MAX,
        decreases pending(queue@.subrange(head as int, queue@.len() as int)),
    {
        let ghost rest = queue@.subrange(head as int, queue@.len() as int);
        proof {
            lemma_pending_front(rest);
            assert(rest.drop_first() =~= queue@.subrange(head + 1, queue@.len() as int));
        }
        let (n, pos) = queue[head];
        proof {
            assert(rest[0] == (n, pos));
            assert(count(Some(*n)) == count(n.left) + count(n.right) + 1);
        }
        let ghost s0 = steps@;
        visit_step(n, pos, steps);
        proof {
            assert forall|k: int| 0 <= k < vis.len() + 1 implies #[trigger] first_meta(steps@[start.len() + k]) == MetaValue::Int(vis.push(n.value)[k] as i64) by {
                if k < vis.len() {
                    assert(steps@[start.len() + k] == s0[start.len() + k]);
                }
            }
            assert(steps@.subrange(0, start.len() as int) =~= start);
        }
        let ghost before = queue@;
        let ghost tail0 = before.subrange(head + 1, before.len() as int);
        if let Some(l) = &n.left {
            queue.push((l, child_pos(pos, true)));
            proof {
                assert(queue@.subrange(head + 1, queue@.len() as int) =~= tail0.push(queue@.last()));
                assert(tail0.push(queue@.last()).drop_last() =~= tail0);
            }
        }
        proof {
            assert(pending(queue@.subrange(head + 1, queue@.len() as int)) == pending(tail0) + count(n.left));
        }
        let ghost middle = queue@;
        let ghost tail1 = middle.subrange(head + 1, middle.len() as int);
        if let Some(r) = &n.right {
            queue.push((r, child_pos(pos, false)));
            proof {
                assert(queue@.subrange(head + 1, queue@.len() as int) =~= tail1.push(queue@.last()));
                assert(tail1.push(queue@.last()).drop_last() =~= tail1);
            }
        }
        proof {
            let new_rest = queue@.subrange(head + 1, queue@.len() as int);
            assert(pending(new_rest) == pending(tail1) + count(n.right));
            assert(queued(new_rest) =~= queued(rest).drop_first() + kids(*n));
            assert(queued(rest)[0] == *n);
            assert(pending(rest) == pending(new_rest) + 1);
            assert(bfs(queued(rest), pending(rest)) == seq![n.value] + bfs(queued(new_rest), pending(new_rest)));
            assert(vis.push(n.value) + bfs(queued(new_rest), pending(new_rest)) =~= vis + bfs(queued(rest), pending(rest)));
            vis = vis.push(n.value);
        }
        head = head + 1;
    }
    proof {
        assert(queued(queue@.subrange(head as int, queue@.len() as int)) =~= Seq::<Box<Node>>::empty());
        assert(queue@.subrange(head as int, queue@.len() as int) =~= Seq::<(&Box<Node>, usize)>::empty());
        assert(pending(Seq::<(&Box<Node>, usize)>::empty()) == 0);
        assert(vis =~= target);
    }
}

/// Every node below `t`, whose root sits at position `pos`, with its
/// position, value and colour, in pre-order.
pub open spec fn placed(t: Option<Box<Node>>, pos: int) -> Seq<(usize, i32, Color)>
    decreases t,
{
    match t {
        None => Seq::empty(),
        Some(n) => seq![(pos as usize, n.value, n.color)] + placed(n.left, child_position(pos, true))
            + placed(n.right, child_position(pos, false)),
    }
}

/// Every parent-child edge below `t`, whose root sits at position `pos`, as
/// a pair of positions, in pre-order.
pub open spec fn links(t: Option<Box<Node>>, pos: int) -> Seq<(usize, usize)>
    decreases t,
{
    match t {
        None => Seq::empty(),
        Some(n) => {
            let l = child_position(pos, true);
            let r = child_position(pos, false);
            (if n.left is Some { seq![(pos as usize, l as usize)] } else { Seq::empty() }) + links(n.left, l)
                + (if n.right is Some { seq![(pos as usize, r as usize)] } else { Seq::empty() }) + links(n.right, r)
        },
    }
}

proof fn lemma_placed_len(t: Option<Box<Node>>, pos: int)
    ensures
        placed(t, pos).len() == count(t),
    decreases t,
{
    if let Some(n) = t {
        lemma_placed_len(n.left, child_position(pos, true));
        lemma_placed_len(n.right, child_position(pos, false));
    }
}

fn collect_placed(node: &Option<Box<Node>>, pos: usize, nodes: &mut Vec<(usize, i32, Color)>, edges: &mut Vec<(usize, usize)>)
    ensures
        final(nodes)@ == old(nodes)@ + placed(*node, pos as int),
        final(edges)@ == old(edges)@ + links(*node, pos as int),
    decreases *node,
{
    if let Some(n) = node {
        nodes.push((pos, n.value, n.color));
        let l = child_pos(pos, true);
        let r = child_pos(pos, false);
        if n.left.is_some() {
            edges.push((pos, l));
        }
        collect_placed(&n.left, l, nodes, edges);
        if n.right.is_some() {
            edges.push((pos, r));
        }
        collect_placed(&n.right, r, nodes, edges);
        assert(final(nodes)@ =~= old(nodes)@ + placed(*node, pos as int));
        assert(final(edges)@ =~= old(edges)@ + links(*node, pos as int));
    }
}

/// A red-black tree of distinct `i32` values that records its work as steps.
pub struct VisualizableRBTree {
    root: Option<Box<Node>>,
    size: usize,
}

impl View for VisualizableRBTree {
    type V = Set<i32>;

    /// The set of values the tree holds.
    closed spec fn view(&self) -> Set<i32> {
        values(self.root)
    }
}

impl VisualizableRBTree {
    /// The tree's invariant: search-tree order, a size field equal to the
    /// number of nodes, and the red-black properties.
    pub closed spec fn valid(&self) -> bool {
        ordered(self.root) && self.size == count(self.root) && self.red_black()
    }

    /// The nodes of the tree, from the root.
    pub closed spec fn shape(&self) -> Option<Box<Node>> {
        self.root
    }

    /// The size field equals the number of nodes (part of `valid`, without the
    /// order and colour conditions).
    pub closed spec fn counted(&self) -> bool {
        self.size == count(self.root)
    }

    /// The values in the order of an in-order traversal.
    pub closed spec fn in_order(&self) -> Seq<i32> {
        inorder(self.root)
    }

    /// The red-black properties: the root is black, no red node has a red
    /// child, and every path from the root to a vacant position meets as many
    /// black nodes.
    pub closed spec fn red_black(&self) -> bool {
        !is_red(self.root) && no_red_red(self.root) && balanced(self.root)
    }

    /// The colour of the root, where there is one.
    pub closed spec fn top_color(&self) -> Option<Color> {
        match self.root {
            None => None,
            Some(n) => Some(n.color),
        }
    }

    /// An empty tree.
    pub fn new() -> (r: Self)
        ensures
            r.shape() is None,
            r.valid(),
            r@ == Set::<i32>::empty(),
            r.in_order() == Seq::<i32>::empty(),
            r.red_black(),
    {
        VisualizableRBTree { root: None, size: 0 }
    }

    /// The number of values held: as many as an in-order traversal visits.
    pub fn size(&self) -> (r: usize)
        requires
            self.valid(),
        ensures
            r == self.in_order().len(),
    {
        proof { lemma_count_inorder(self.root); }
        self.size
    }

    pub fn is_empty(&self) -> (r: bool)
        requires
            self.valid(),
        ensures
            r == (self.in_order().len() == 0),
            r == (self@ == Set::<i32>::empty()),
    {
        proof {
            lemma_count_inorder(self.root);
            if self.size != 0 {
                let n = self.root.unwrap();
                assert(values(self.root).contains(n.value));
            }
        }
        self.size == 0
    }

    /// Empties the tree.
    pub fn clear(&mut self)
        ensures
            final(self).shape() is None,
            final(self).valid(),
            final(self)@ == Set::<i32>::empty(),
            final(self).in_order() == Seq::<i32>::empty(),
            final(self).red_black(),
    {
        self.root = None;
        self.size = 0;
    }

    /// Whether `value` is in the tree.
    pub fn search(&self, value: i32) -> (r: bool)
        requires
            self.valid(),
        ensures
            r == self@.contains(value),
    {
        search_recursive(&self.root, value)
    }

    /// The values in in-order sequence.
    pub fn collect_nodes(&self) -> (r: Vec<i32>)
        ensures
            r@ == self.in_order(),
    {
        let mut nodes = Vec::new();
        inorder_collect(&self.root, &mut nodes);
        assert(nodes@ =~= self.in_order());
        nodes
    }

    /// The colour of the root, if there is one.
    pub fn root_color(&self) -> (r: Option<Color>)
        ensures
            r == self.top_color(),
            self.red_black() ==> r != Some(Color::Red),
    {
        match &self.root {
            None => None,
            Some(n) => Some(n.color),
        }
    }

    /// Whether the red-black properties hold: a black root, no red node with
    /// a red child, and the same number of black nodes on every path from the
    /// root to a vacant position.
    pub fn verify_rb_properties(&self) -> (r: bool)
        requires
            self.counted(),
        ensures
            r == self.red_black(),
    {
        if link_is_red(&self.root) {
            return false;
        }
        rb_check(&self.root).0
    }

    /// Inserts `value`; a value already present leaves the tree as it was.
    pub fn insert(&mut self, value: i32)
        requires
            old(self).valid(),
            old(self).in_order().len() < usize::MAX || old(self)@.contains(value),
        ensures
            final(self).valid(),
            final(self)@ == old(self)@.insert(value),
            final(self).in_order().len() == old(self).in_order().len() + if old(self)@.contains(value) { 0int } else { 1int },
            old(self)@.contains(value) ==> *final(self) == *old(self),
            old(self).red_black() ==> final(self).red_black(),
            final(self).shape() == insert_result(old(self).shape(), value).0,
    {
        let _ = self.insert_with_steps(value);
    }

    /// Inserts `value`, recording every comparison, recolouring and rotation.
    fn insert_with_steps(&mut self, value: i32) -> (steps: Vec<Step>)
        requires
            old(self).valid(),
            old(self).in_order().len() < usize::MAX || old(self)@.contains(value),
        ensures
            final(self).valid(),
            final(self)@ == old(self)@.insert(value),
            final(self).in_order().len() == old(self).in_order().len() + if old(self)@.contains(value) { 0int } else { 1int },
            old(self)@.contains(value) ==> *final(self) == *old(self) && flagged(steps@.last(), "duplicate"@, true),
            old(self).red_black() ==> final(self).red_black(),
            final(self).shape() == insert_result(old(self).shape(), value).0,
            records(steps@, Seq::empty(), insert_result(old(self).shape(), value).1),
            steps@.len() > 1,
    {
        proof { lemma_count_inorder(self.root); }
        let mut steps = vec![step(
            join(&vec![lit("Inserting "), int_text(value as i64), lit(" into Red-Black Tree")]),
            vec![],
            vec![],
            vec![meta_text("operation", "insert"), meta_int("value", value as i64)],
        )];
        let ghost s1 = steps@;
        proof {
            assert(shows(steps@[0], InsertEvent::Announce));
            lemma_records_push(Seq::empty(), steps@[0], InsertEvent::Announce);
            assert(Seq::<Step>::empty().push(steps@[0]) =~= s1);
        }
        if self.root.is_none() {
            steps.push(step(
                join(&vec![lit("Tree is empty, "), int_text(value as i64), lit(" becomes BLACK root")]),
                vec![],
                vec![0],
                vec![meta_int("new_root", value as i64), meta_text("color", "black")],
            ));
            self.root = Some(with_color(Box::new(Node::new(value)), Color::Black));
            self.size = 1;
            proof {
                assert(shows(steps@.last(), InsertEvent::EmptyRoot));
                lemma_records_push(s1, steps@.last(), InsertEvent::EmptyRoot);
                assert(s1.push(steps@.last()) == steps@);
                lemma_records_concat(Seq::empty(), s1, steps@, seq![InsertEvent::Announce], seq![InsertEvent::EmptyRoot]);
                assert(seq![InsertEvent::Announce] + seq![InsertEvent::EmptyRoot] =~= seq![InsertEvent::Announce, InsertEvent::EmptyRoot]);
                assert(values(self.root) =~= values(old(self).root).insert(value));
                lemma_count_inorder(self.root);
            }
            return steps;
        }
        let mut path: Vec<usize> = Vec::new();
        let up = insert_into(&mut self.root, value, 0, &mut path, &mut steps);
        let ghost m = insert_model(old(self).root, value, 0);
        let ghost ev0 = seq![InsertEvent::Announce] + m.2;
        proof {
            lemma_count_inorder(self.root);
            lemma_records_concat(Seq::empty(), s1, steps@, seq![InsertEvent::Announce], m.2);
        }
        if up == InsertState::Duplicate {
            return steps;
        }
        self.size = self.size + 1;
        let ghost s2 = steps@;
        if up == InsertState::Pending {
            steps.push(step(
                lit("Parent is BLACK or root reached - fixup complete"),
                vec![],
                vec![],
                vec![meta_flag("fixup_end", true)],
            ));
            proof {
                assert(shows(steps@.last(), InsertEvent::FixupEnd));
                lemma_records_push(s2, steps@.last(), InsertEvent::FixupEnd);
                assert(s2.push(steps@.last()) == steps@);
            }
        } else {
            assert(steps@.subrange(0, s2.len() as int) =~= s2);
        }
        let ghost e1 = if up == InsertState::Pending { seq![InsertEvent::FixupEnd] } else { Seq::<InsertEvent>::empty() };
        let ghost s3 = steps@;
        proof {
            assert(records(s3, s2, e1));
            lemma_records_concat(Seq::empty(), s2, s3, ev0, e1);
        }
        let ghost red_top = is_red(self.root);
        if link_is_red(&self.root) {
            steps.push(step(lit("Forcing root to BLACK (RB property)"), vec![0], vec![], vec![meta_flag("root_recolor", true)]));
            proof {
                assert(shows(steps@.last(), InsertEvent::RootRecolor));
                lemma_records_push(s3, steps@.last(), InsertEvent::RootRecolor);
                assert(s3.push(steps@.last()) == steps@);
            }
            let r = self.root.take().unwrap();
            proof {
                lemma_recolor(*r, Color::Black);
                lemma_recolor_rb(*r, Color::Black);
            }
            self.root = Some(with_color(r, Color::Black));
            proof { lemma_count_inorder(self.root); }
        }
        let ghost e2 = if red_top { seq![InsertEvent::RootRecolor] } else { Seq::<InsertEvent>::empty() };
        let ghost s4 = steps@;
        proof {
            if !red_top {
                assert(steps@.subrange(0, s3.len() as int) =~= s3);
            }
            assert(records(s4, s3, e2));
            lemma_records_concat(Seq::empty(), s3, s4, ev0 + e1, e2);
        }
        steps.push(step(lit("Red-Black Tree properties restored"), vec![], vec![], vec![meta_flag("fixup_complete", true)]));
        proof {
            assert(shows(steps@.last(), InsertEvent::Restored));
            lemma_records_push(s4, steps@.last(), InsertEvent::Restored);
            assert(s4.push(steps@.last()) == steps@);
            lemma_records_concat(Seq::empty(), s4, steps@, ev0 + e1 + e2, seq![InsertEvent::Restored]);
        }
        steps
    }

    /// Removes `value`; returns whether it was there.
    pub fn delete(&mut self, value: i32) -> (r: bool)
        requires
            old(self).valid(),
        ensures
            final(self).valid(),
            r == old(self)@.contains(value),
            final(self)@ == old(self)@.remove(value),
            final(self).in_order().len() == old(self).in_order().len() - if r { 1int } else { 0int },
            !r ==> *final(self) == *old(self),
            old(self).red_black() ==> final(self).red_black(),
            final(self).shape() == delete_result(old(self).shape(), value).0,
    {
        let before = self.size;
        let _ = self.delete_with_steps(value);
        proof { lemma_count_inorder(self.root); lemma_count_inorder(old(self).root); }
        self.size < before
    }

    /// Removes `value`, recording the case of the removed node, the
    /// substitution of a successor and each deletion fixup case. A missing
    /// value leaves the tree untouched and ends the steps with a not-found
    /// marker.
    fn delete_with_steps(&mut self, value: i32) -> (steps: Vec<Step>)
        requires
            old(self).valid(),
        ensures
            final(self).valid(),
            final(self)@ == old(self)@.remove(value),
            old(self)@.contains(value) ==> final(self).size + 1 == old(self).size,
            !old(self)@.contains(value) ==> *final(self) == *old(self),
            !old(self)@.contains(value) ==> flagged(steps@.last(), "found"@, false),
            old(self).red_black() ==> final(self).red_black(),
            final(self).shape() == delete_result(old(self).shape(), value).0,
            records_delete(steps@, Seq::empty(), delete_result(old(self).shape(), value).1),
            steps@.len() > 1,
    {
        let mut steps = vec![step(
            join(&vec![lit("Deleting "), int_text(value as i64), lit(" from Red-Black Tree")]),
            vec![],
            vec![],
            vec![meta_text("operation", "delete"), meta_int("value", value as i64)],
        )];
        let ghost s1 = steps@;
        proof {
            assert(shows_delete(steps@[0], DeleteEvent::Announce));
            lemma_recd_push(Seq::empty(), steps@[0], DeleteEvent::Announce);
            assert(Seq::<Step>::empty().push(steps@[0]) =~= s1);
        }
        let (found, short) = delete_from(&mut self.root, value, 0, &mut steps);
        let ghost dm = delete_model(old(self).root, value);
        if !found {
            steps.push(not_found_step(value));
            proof {
                assert(shows_delete(steps@.last(), DeleteEvent::NotFound));
                lemma_recd_push(s1, steps@.last(), DeleteEvent::NotFound);
                assert(s1.push(steps@.last()) == steps@);
                lemma_recd_concat(Seq::empty(), s1, steps@, seq![DeleteEvent::Announce], seq![DeleteEvent::NotFound]);
                assert(seq![DeleteEvent::Announce] + seq![DeleteEvent::NotFound] =~= seq![DeleteEvent::Announce, DeleteEvent::NotFound]);
            }
            return steps;
        }
        let ghost s2 = steps@;
        proof {
            lemma_recd_concat(Seq::empty(), s1, s2, seq![DeleteEvent::Announce], dm.3);
        }
        if short {
            if self.root.is_some() {
                let r = self.root.take().unwrap();
                proof {
                    lemma_recolor(*r, Color::Black);
                    lemma_recolor_rb(*r, Color::Black);
                }
                self.root = Some(with_color(r, Color::Black));
            }
            fixup_complete_step(&mut steps);
        } else {
            proof { lemma_recd_none(s2); }
        }
        let ghost e1 = if dm.2 { seq![DeleteEvent::FixupComplete] } else { Seq::<DeleteEvent>::empty() };
        let ghost s3 = steps@;
        proof {
            assert(records_delete(s3, s2, e1));
            lemma_recd_concat(Seq::empty(), s2, s3, seq![DeleteEvent::Announce] + dm.3, e1);
            assert(self.root == (if dm.2 { blackened(dm.0) } else { dm.0 }));
        }
        if link_is_red(&self.root) {
            let r = self.root.take().unwrap();
            proof {
                lemma_recolor(*r, Color::Black);
                lemma_recolor_rb(*r, Color::Black);
            }
            self.root = Some(with_color(r, Color::Black));
        }
        self.size = self.size - 1;
        steps.push(step(
            join(&vec![lit("Deletion of "), int_text(value as i64), lit(" complete")]),
            vec![],
            vec![],
            vec![meta_flag("complete", true)],
        ));
        proof {
            assert(shows_delete(steps@.last(), DeleteEvent::Complete));
            lemma_recd_push(s3, steps@.last(), DeleteEvent::Complete);
            assert(s3.push(steps@.last()) == steps@);
            lemma_recd_concat(Seq::empty(), s3, steps@, seq![DeleteEvent::Announce] + dm.3 + e1, seq![DeleteEvent::Complete]);
        }
        steps
    }

    /// The values in pre-order sequence.
    pub closed spec fn pre_order(&self) -> Seq<i32> {
        preorder(self.root)
    }

    /// The values in post-order sequence.
    pub closed spec fn post_order(&self) -> Seq<i32> {
        postorder(self.root)
    }

    /// The values level by level from the root, each level left to right.
    pub closed spec fn level_order(&self) -> Seq<i32> {
        levelorder(self.root)
    }

    /// What the first `RENDER_SLOTS` positions of the complete-binary-tree
    /// numbering hold: a value and a colour, or nothing.
    pub closed spec fn slots(&self) -> Seq<Option<(i32, Color)>> {
        Seq::new(RENDER_SLOTS as nat, |j: int| slot_at(self.root, j as nat))
    }

    fn slot_array(&self) -> (r: Vec<Option<(i32, Color)>>)
        ensures
            r@ == self.slots(),
    {
        let r = tree_to_array(&self.root);
        assert(r@ =~= self.slots());
        r
    }

    /// The projection of every node: its position (root 0, children of `i` at
    /// `2i + 1` and `2i + 2`, saturating at `usize::MAX`), value and colour in
    /// pre-order, and every parent-child edge as a pair of positions.
    pub fn render_projection(&self) -> (r: (Vec<(usize, i32, Color)>, Vec<(usize, usize)>))
        ensures
            r.0@ == placed(self.shape(), 0),
            r.1@ == links(self.shape(), 0),
            r.0@.len() == self.in_order().len(),
    {
        let mut nodes: Vec<(usize, i32, Color)> = Vec::new();
        let mut edges: Vec<(usize, usize)> = Vec::new();
        collect_placed(&self.root, 0, &mut nodes, &mut edges);
        proof {
            lemma_placed_len(self.root, 0);
            lemma_count_inorder(self.root);
            assert(nodes@ =~= placed(self.root, 0));
            assert(edges@ =~= links(self.root, 0));
        }
        (nodes, edges)
    }

    /// The render projection with a black NIL cell at each vacant child
    /// position of a drawn node, and an edge to each child position.
    pub fn render_state_with_nil_nodes(&self) -> (r: RenderState)
        ensures
            self.slots().len() == RENDER_SLOTS,
            r.elements@.len() <= 2 * RENDER_SLOTS,
            forall|j: int| present(self.slots(), j) ==> j < r.elements@.len(),
            forall|j: int| vacant_child(self.slots(), j, RENDER_SLOTS as int) ==> j < r.elements@.len(),
            forall|j: int| 0 <= j < r.elements@.len() ==> nil_drawn_at(self.slots(), #[trigger] r.elements@[j], j, RENDER_SLOTS as int),
            forall|k: int| 0 <= k < r.connections@.len() ==> nil_edge_of(self.slots(), #[trigger] r.connections@[k]),
            forall|a: int, c: int| present(self.slots(), a) && #[trigger] child_link(a, c) && c < 2 * RENDER_SLOTS
                ==> r.connections@.contains((a as usize, c as usize)),
    {
        let array = self.slot_array();
        render_slots_with_nil(&array)
    }

    /// One step per node in the given order, between an opening and a
    /// closing step.
    fn traverse_with_steps(&self, operation: Operation) -> (steps: Vec<Step>)
        requires
            self.valid(),
            operation == Operation::Traverse || operation == Operation::PreOrderTraverse
                || operation == Operation::PostOrderTraverse || operation == Operation::LevelOrderTraverse,
        ensures
            steps@.len() == self.in_order().len() + 2,
            operation == Operation::Traverse ==> visits(steps@.drop_last(), 1, self.in_order()),
            operation == Operation::PreOrderTraverse ==> visits(steps@.drop_last(), 1, self.pre_order()),
            operation == Operation::PostOrderTraverse ==> visits(steps@.drop_last(), 1, self.post_order()),
            operation == Operation::LevelOrderTraverse ==> visits(steps@.drop_last(), 1, self.level_order()),
            operation == Operation::Traverse ==> visits_at(steps@.drop_last(), 1, inorder_at(self.shape(), 0)),
            operation == Operation::PreOrderTraverse ==> visits_at(steps@.drop_last(), 1, placed(self.shape(), 0)),
            operation == Operation::PostOrderTraverse ==> visits_at(steps@.drop_last(), 1, postorder_at(self.shape(), 0)),
            steps@.len() >= 2,
    {
        let (opening, name, closing) = match operation {
            Operation::PreOrderTraverse => ("Starting pre-order traversal of Red-Black Tree", "preorder_traverse", "Pre-order traversal complete"),
            Operation::PostOrderTraverse => ("Starting post-order traversal of Red-Black Tree", "postorder_traverse", "Post-order traversal complete"),
            Operation::LevelOrderTraverse => ("Starting level-order traversal of Red-Black Tree", "levelorder_traverse", "Level-order traversal complete"),
            _ => ("Starting in-order traversal of Red-Black Tree", "traverse", "In-order traversal complete"),
        };
        let mut steps = vec![step(lit(opening), vec![], vec![], vec![meta_text("operation", name)])];
        match operation {
            Operation::PreOrderTraverse => preorder_traverse_steps(&self.root, 0, &mut steps),
            Operation::PostOrderTraverse => postorder_traverse_steps(&self.root, 0, &mut steps),
            Operation::LevelOrderTraverse => levelorder_traverse_steps(&self.root, &mut steps),
            _ => inorder_traverse_steps(&self.root, 0, &mut steps),
        }
        proof {
            lemma_count_inorder(self.root);
            lemma_preorder_len(self.root);
            lemma_postorder_len(self.root);
        }
        let ghost visited = steps@;
        steps.push(closing_step(closing));
        assert(steps@.drop_last() =~= visited);
        steps
    }

    /// Searches for `target`, one step per node checked; a miss ends with a
    /// not-found marker.
    fn search_with_steps(&self, target: i32) -> (steps: Vec<Step>)
        requires
            self.valid(),
        ensures
            !self@.contains(target) ==> flagged(steps@.last(), "found"@, false),
            self@.contains(target) ==> flagged(steps@.last(), "found"@, true),
            steps@.len() == search_path(self.shape(), target).len() + 2,
            forall|i: int| 0 <= i < search_positions(self.shape(), target, 0).len()
                ==> (#[trigger] steps@[1 + i]).highlight_indices@ == seq![search_positions(self.shape(), target, 0)[i]],
    {
        let mut steps = vec![step(
            join(&vec![lit("Searching for "), int_text(target as i64), lit(" in Red-Black Tree")]),
            vec![],
            vec![],
            vec![meta_text("operation", "search"), meta_int("target", target as i64)],
        )];
        let found = search_steps(&self.root, target, 0, &mut steps);
        if !found {
            steps.push(not_found_step(target));
        }
        proof {
            if found {
                assert(steps@.len() > 1);
            }
        }
        steps
    }
}


impl Visualizable for VisualizableRBTree {
    open spec fn well_formed(&self) -> bool {
        self.valid()
    }

    /// Insert, delete (the index read as the value), search and the three
    /// depth-first traversals; any other operation is refused.
    fn execute_with_steps(&mut self, operation: Operation) -> (r: Result<Vec<Step>, DsavError>)
        ensures
            match operation {
                Operation::Insert(_, v) => if old(self).in_order().len() == usize::MAX {
                    r is Err && *final(self) == *old(self)
                } else {
                    &&& r is Ok
                    &&& final(self)@ == old(self)@.insert(v)
                    &&& final(self).in_order().len() == old(self).in_order().len() + if old(self)@.contains(v) { 0int } else { 1int }
                    &&& old(self)@.contains(v) ==> flagged(r->Ok_0@.last(), "duplicate"@, true)
                    &&& final(self).shape() == insert_result(old(self).shape(), v).0
                    &&& records(r->Ok_0@, Seq::empty(), insert_result(old(self).shape(), v).1)
                },
                Operation::Delete(i) => {
                    &&& r is Ok
                    &&& final(self)@ == old(self)@.remove(i as i32)
                    &&& !old(self)@.contains(i as i32) ==> *final(self) == *old(self) && flagged(r->Ok_0@.last(), "found"@, false)
                    &&& final(self).shape() == delete_result(old(self).shape(), i as i32).0
                    &&& records_delete(r->Ok_0@, Seq::empty(), delete_result(old(self).shape(), i as i32).1)
                },
                Operation::Search(t) => {
                    &&& r is Ok
                    &&& *final(self) == *old(self)
                    &&& !old(self)@.contains(t) ==> flagged(r->Ok_0@.last(), "found"@, false)
                    &&& old(self)@.contains(t) ==> flagged(r->Ok_0@.last(), "found"@, true)
                    &&& r->Ok_0@.len() == search_path(old(self).shape(), t).len() + 2
                    &&& forall|i: int| 0 <= i < search_positions(old(self).shape(), t, 0).len()
                        ==> (#[trigger] r->Ok_0@[1 + i]).highlight_indices@ == seq![search_positions(old(self).shape(), t, 0)[i]]
                },
                Operation::Traverse | Operation::PreOrderTraverse | Operation::PostOrderTraverse | Operation::LevelOrderTraverse => {
                    &&& r is Ok
                    &&& *final(self) == *old(self)
                    &&& r->Ok_0@.len() == old(self).in_order().len() + 2
                    &&& operation == Operation::Traverse ==> visits(r->Ok_0@.drop_last(), 1, old(self).in_order())
                    &&& operation == Operation::PreOrderTraverse ==> visits(r->Ok_0@.drop_last(), 1, old(self).pre_order())
                    &&& operation == Operation::PostOrderTraverse ==> visits(r->Ok_0@.drop_last(), 1, old(self).post_order())
                    &&& operation == Operation::LevelOrderTraverse ==> visits(r->Ok_0@.drop_last(), 1, old(self).level_order())
                    &&& operation == Operation::Traverse ==> visits_at(r->Ok_0@.drop_last(), 1, inorder_at(old(self).shape(), 0))
                    &&& operation == Operation::PreOrderTraverse ==> visits_at(r->Ok_0@.drop_last(), 1, placed(old(self).shape(), 0))
                    &&& operation == Operation::PostOrderTraverse ==> visits_at(r->Ok_0@.drop_last(), 1, postorder_at(old(self).shape(), 0))
                },
                _ => r matches Err(DsavError::Visualization(_)) && *final(self) == *old(self),
            },
    {
        match operation {
            Operation::Insert(_, value) => {
                proof { lemma_count_inorder(self.root); }
                if self.size == usize::MAX {
                    Err(DsavError::Full { capacity: usize::MAX })
                } else {
                    Ok(self.insert_with_steps(value))
                }
            },
            Operation::Delete(value_as_idx) => Ok(self.delete_with_steps(value_as_idx as i32)),
            Operation::Search(target) => Ok(self.search_with_steps(target)),
            Operation::Traverse | Operation::PreOrderTraverse | Operation::PostOrderTraverse | Operation::LevelOrderTraverse => {
                Ok(self.traverse_with_steps(operation))
            },
            _ => Err(DsavError::Visualization(lit("Operation not supported for Red-Black Tree"))),
        }
    }

    /// The nodes at the first `RENDER_SLOTS` positions, each with an edge to
    /// each child it has.
    fn render_state(&self) -> (r: RenderState)
        ensures
            self.slots().len() == RENDER_SLOTS,
            r.elements@.len() <= RENDER_SLOTS,
            r.elements@.len() == 0 || present(self.slots(), r.elements@.len() - 1),
            forall|j: int| present(self.slots(), j) ==> j < r.elements@.len(),
            forall|j: int| 0 <= j < r.elements@.len() ==> drawn_at(self.slots(), #[trigger] r.elements@[j], j),
            forall|k: int| 0 <= k < r.connections@.len() ==> edge_of(self.slots(), #[trigger] r.connections@[k]),
            forall|a: int, c: int| present(self.slots(), a) && present(self.slots(), c) && #[trigger] child_link(a, c)
                ==> r.connections@.contains((a as usize, c as usize)),
    {
        let array = self.slot_array();
        render_slots(&array)
    }
}


/// Invariant preservation: a valid tree, which every operation leaves valid,
/// has a black root, no red node with a red child, and as many black nodes
/// on every path from the root to a vacant position.
pub proof fn lemma_valid_is_red_black(t: &VisualizableRBTree)
    requires
        t.valid(),
    ensures
        t.red_black(),
{
}

/// The slot view of a tree covers exactly the first `RENDER_SLOTS` positions.
pub proof fn lemma_slots_len(t: &VisualizableRBTree)
    ensures
        t.slots().len() == RENDER_SLOTS,
{
}

/// Search-tree order: an in-order traversal of a valid tree lists its values
/// in strictly increasing order, each exactly once.
pub proof fn lemma_in_order_sorted(t: &VisualizableRBTree)
    requires
        t.valid(),
    ensures
        forall|i: int, j: int| 0 <= i < j < t.in_order().len() ==> t.in_order()[i] < t.in_order()[j],
        forall|x: i32| t.in_order().contains(x) <==> #[trigger] t@.contains(x),
{
    lemma_inorder(t.root);
}

/// Two valid trees that hold the same values list them in the same in-order
/// sequence, and so have the same size.
pub proof fn lemma_same_values_same_order(t1: &VisualizableRBTree, t2: &VisualizableRBTree)
    requires
        t1.valid(),
        t2.valid(),
        t1@ == t2@,
    ensures
        t1.in_order() == t2.in_order(),
{
    lemma_inorder(t1.root);
    lemma_inorder(t2.root);
    assert forall|x: i32| t1.in_order().contains(x) <==> t2.in_order().contains(x) by {
        assert(values(t1.root).contains(x) == values(t2.root).contains(x));
    }
    lemma_sorted_unique(t1.in_order(), t2.in_order());
}

/// No duplicates: inserting a value the tree already holds leaves its values,
/// its traversal and its size as they were.
pub proof fn lemma_insert_present(before: &VisualizableRBTree, after: &VisualizableRBTree, v: i32)
    requires
        before.valid(),
        after.valid(),
        before@.contains(v),
        after@ == before@.insert(v),
    ensures
        after@ == before@,
        after.in_order() == before.in_order(),
        after.in_order().len() == before.in_order().len(),
{
    assert(after@ =~= before@);
    lemma_same_values_same_order(after, before);
}

/// Round trip: inserting an absent value and then deleting it gives back the
/// values and the traversal order the tree had.
pub proof fn lemma_insert_then_delete(before: &VisualizableRBTree, middle: &VisualizableRBTree, after: &VisualizableRBTree, v: i32)
    requires
        before.valid(),
        middle.valid(),
        after.valid(),
        !before@.contains(v),
        middle@ == before@.insert(v),
        after@ == middle@.remove(v),
    ensures
        after@ == before@,
        after.in_order() == before.in_order(),
{
    assert(after@ =~= before@);
    lemma_same_values_same_order(after, before);
}


impl Default for VisualizableRBTree {
    fn default() -> (r: Self)
        ensures
            r.valid(),
            r@ == Set::<i32>::empty(),
    {
        Self::new()
    }
}

} // verus!
