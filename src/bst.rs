//! An unbalanced binary search tree of distinct `i32` values.

use vstd::prelude::*;
use crate::error::DsavError;
use crate::rb_tree::{child_link, child_pos, closing_step, first_meta, lemma_visits_concat, not_found_step, pad_to, visits, RENDER_SLOTS};
use crate::state::{RenderElement, RenderState};
use crate::text::{index_text, int_text, join, lit};
use crate::traits::{flagged, meta_flag, meta_index, meta_int, meta_text, step, MetaValue, Operation, Step, Visualizable};

verus! {

#[derive(Debug)]
struct Node {
    value: i32,
    left: Option<Box<Node>>,
    right: Option<Box<Node>>,
}

impl Node {
    fn new(value: i32) -> (r: Self)
        ensures
            r.value == value,
            r.left is None,
            r.right is None,
    {
        Node { value, left: None, right: None }
    }
}

spec fn values(t: Option<Box<Node>>) -> Set<i32>
    decreases t,
{
    match t {
        None => Set::empty(),
        Some(n) => values(n.left).union(values(n.right)).insert(n.value),
    }
}

spec fn count(t: Option<Box<Node>>) -> nat
    decreases t,
{
    match t {
        None => 0,
        Some(n) => count(n.left) + count(n.right) + 1,
    }
}

spec fn inorder(t: Option<Box<Node>>) -> Seq<i32>
    decreases t,
{
    match t {
        None => Seq::empty(),
        Some(n) => inorder(n.left) + seq![n.value] + inorder(n.right),
    }
}

spec fn ordered(t: Option<Box<Node>>) -> bool
    decreases t,
{
    match t {
        None => true,
        Some(n) => {
            &&& ordered(n.left)
            &&& ordered(n.right)
            &&& forall|x: i32| #[trigger] values(n.left).contains(x) ==> x < n.value
            &&& forall|x: i32| #[trigger] values(n.right).contains(x) ==> n.value < x
        },
    }
}

spec fn preorder(t: Option<Box<Node>>) -> Seq<i32>
    decreases t,
{
    match t {
        None => Seq::empty(),
        Some(n) => seq![n.value] + preorder(n.left) + preorder(n.right),
    }
}

spec fn postorder(t: Option<Box<Node>>) -> Seq<i32>
    decreases t,
{
    match t {
        None => Seq::empty(),
        Some(n) => postorder(n.left) + postorder(n.right) + seq![n.value],
    }
}

/// The number of nodes in the subtrees waiting in a breadth-first queue.
spec fn pending(q: Seq<(&Box<Node>, usize)>) -> nat
    decreases q.len(),
{
    if q.len() == 0 {
        0
    } else {
        pending(q.drop_last()) + count(Some(*q.last().0))
    }
}

proof fn lemma_pending_front(q: Seq<(&Box<Node>, usize)>)
    requires
        q.len() > 0,
    ensures
        pending(q) == count(Some(*q[0].0)) + pending(q.drop_first()),
    decreases q.len(),
{
    if q.len() > 1 {
        lemma_pending_front(q.drop_last());
        assert(q.drop_last().drop_first() =~= q.drop_first().drop_last());
    } else {
        assert(q.drop_last() =~= Seq::<(&Box<Node>, usize)>::empty());
        assert(q.drop_first() =~= Seq::<(&Box<Node>, usize)>::empty());
    }
}

/// An edge from a position to one of its child positions, both shown.
pub open spec fn edge_in_view(e: (usize, usize)) -> bool {
    child_link(e.0 as int, e.1 as int) && e.1 < RENDER_SLOTS
}

proof fn lemma_count_inorder(t: Option<Box<Node>>)
    ensures
        count(t) == inorder(t).len(),
    decreases t,
{
    if let Some(n) = t {
        lemma_count_inorder(n.left);
        lemma_count_inorder(n.right);
    }
}

/// A binary search tree that keeps its size.
#[derive(Debug)]
pub struct VisualizableBST {
    root: Option<Box<Node>>,
    size: usize,
}

impl View for VisualizableBST {
    type V = Set<i32>;

    /// The set of values the tree holds.
    closed spec fn view(&self) -> Set<i32> {
        values(self.root)
    }
}

impl VisualizableBST {
    /// The tree's invariant: search-tree order, and a size equal to the
    /// number of nodes.
    pub closed spec fn valid(&self) -> bool {
        ordered(self.root) && self.size == count(self.root)
    }

    /// The values in in-order sequence.
    pub closed spec fn in_order(&self) -> Seq<i32> {
        inorder(self.root)
    }

    /// An empty tree.
    pub fn new() -> (r: Self)
        ensures
            r.valid(),
            r@ == Set::<i32>::empty(),
            r.in_order() == Seq::<i32>::empty(),
    {
        VisualizableBST { root: None, size: 0 }
    }

    /// Inserts `value`; a value already present leaves the tree unchanged.
    pub fn insert(&mut self, value: i32)
        requires
            old(self).valid(),
            old(self).in_order().len() < usize::MAX,
        ensures
            final(self).valid(),
            final(self)@ == old(self)@.insert(value),
            final(self).in_order().len() == old(self).in_order().len() + if old(self)@.contains(value) { 0int } else { 1int },
    {
        proof { lemma_count_inorder(self.root); }
        if Self::insert_recursive(&mut self.root, value) {
            self.size = self.size + 1;
        }
        proof { lemma_count_inorder(self.root); }
    }

    /// Inserts below `node`; returns whether a node was added.
    fn insert_recursive(node: &mut Option<Box<Node>>, value: i32) -> (r: bool)
        requires
            ordered(*old(node)),
        ensures
            ordered(*final(node)),
            values(*final(node)) == values(*old(node)).insert(value),
            r == !values(*old(node)).contains(value),
            count(*final(node)) == count(*old(node)) + if r { 1nat } else { 0nat },
        decreases *old(node),
    {
        match node.take() {
            None => {
                *node = Some(Box::new(Node::new(value)));
                assert(values(*node) =~= values(*old(node)).insert(value));
                true
            },
            Some(mut n) => {
                let ghost n0 = *n;
                let r = if value < n.value {
                    let r = Self::insert_recursive(&mut n.left, value);
                    assert(!values(n0.right).contains(value));
                    r
                } else if value > n.value {
                    let r = Self::insert_recursive(&mut n.right, value);
                    assert(!values(n0.left).contains(value));
                    r
                } else {
                    false
                };
                assert(values(Some(n)) =~= values(*old(node)).insert(value));
                *node = Some(n);
                r
            },
        }
    }

    /// Whether `value` is in the tree.
    pub fn search(&self, value: i32) -> (r: bool)
        requires
            self.valid(),
        ensures
            r == self@.contains(value),
    {
        Self::search_recursive(&self.root, value)
    }

    fn search_recursive(node: &Option<Box<Node>>, value: i32) -> (r: bool)
        requires
            ordered(*node),
        ensures
            r == values(*node).contains(value),
        decreases *node,
    {
        match node {
            None => false,
            Some(n) => {
                if value == n.value {
                    true
                } else if value < n.value {
                    assert(!values(n.right).contains(value));
                    Self::search_recursive(&n.left, value)
                } else {
                    assert(!values(n.left).contains(value));
                    Self::search_recursive(&n.right, value)
                }
            },
        }
    }

    /// The number of values held.
    pub fn size(&self) -> (r: usize)
        requires
            self.valid(),
        ensures
            r == self.in_order().len(),
    {
        proof { lemma_count_inorder(self.root); }
        self.size
    }

    pub fn is_empty(&self) -> (r: bool)
        requires
            self.valid(),
        ensures
            r == (self.in_order().len() == 0),
    {
        proof { lemma_count_inorder(self.root); }
        self.size == 0
    }

    /// Empties the tree.
    pub fn clear(&mut self)
        ensures
            final(self).valid(),
            final(self)@ == Set::<i32>::empty(),
            final(self).in_order() == Seq::<i32>::empty(),
    {
        self.root = None;
        self.size = 0;
    }

    /// The values in in-order sequence.
    pub fn collect_nodes(&self) -> (r: Vec<i32>)
        ensures
            r@ == self.in_order(),
    {
        let mut nodes = Vec::new();
        Self::inorder_collect(&self.root, &mut nodes);
        assert(nodes@ =~= self.in_order());
        nodes
    }

    /// The value at the root, where there is one.
    pub closed spec fn root_value(&self) -> Option<i32> {
        match self.root {
            None => None,
            Some(n) => Some(n.value),
        }
    }

    /// The values in pre-order sequence.
    pub closed spec fn pre_order(&self) -> Seq<i32> {
        preorder(self.root)
    }

    /// The values in post-order sequence.
    pub closed spec fn post_order(&self) -> Seq<i32> {
        postorder(self.root)
    }

    fn visit(n: &Node, idx: usize, steps: &mut Vec<Step>)
        ensures
            final(steps)@.len() == old(steps)@.len() + 1,
            final(steps)@.subrange(0, old(steps)@.len() as int) == old(steps)@,
            first_meta(final(steps)@.last()) == MetaValue::Int(n.value as i64),
    {
        steps.push(step(
            join(&vec![lit("Visiting node "), int_text(n.value as i64)]),
            vec![idx],
            vec![],
            vec![meta_int("value", n.value as i64), meta_index("index", idx)],
        ));
        assert(final(steps)@.subrange(0, old(steps)@.len() as int) =~= old(steps)@);
    }

    fn inorder_traverse(node: &Option<Box<Node>>, idx: usize, steps: &mut Vec<Step>)
        ensures
            visits(final(steps)@, old(steps)@.len() as int, inorder(*node)),
            final(steps)@.subrange(0, old(steps)@.len() as int) == old(steps)@,
        decreases *node,
    {
        match node {
            None => {
                assert(final(steps)@.subrange(0, old(steps)@.len() as int) =~= old(steps)@);
            },
            Some(n) => {
                let ghost s0 = steps@;
                Self::inorder_traverse(&n.left, child_pos(idx, true), steps);
                let ghost s1 = steps@;
                Self::visit(n, idx, steps);
                let ghost s2 = steps@;
                assert(visits(s2, s1.len() as int, seq![n.value]));
                proof { lemma_visits_concat(s0, s1, s2, s0.len() as int, inorder(n.left), seq![n.value]); }
                Self::inorder_traverse(&n.right, child_pos(idx, false), steps);
                proof { lemma_visits_concat(s0, s2, steps@, s0.len() as int, inorder(n.left) + seq![n.value], inorder(n.right)); }
            },
        }
    }

    fn preorder_traverse(node: &Option<Box<Node>>, idx: usize, steps: &mut Vec<Step>)
        ensures
            visits(final(steps)@, old(steps)@.len() as int, preorder(*node)),
            final(steps)@.subrange(0, old(steps)@.len() as int) == old(steps)@,
        decreases *node,
    {
        match node {
            None => {
                assert(final(steps)@.subrange(0, old(steps)@.len() as int) =~= old(steps)@);
            },
            Some(n) => {
                let ghost s0 = steps@;
                Self::visit(n, idx, steps);
                let ghost s1 = steps@;
                assert(visits(s1, s0.len() as int, seq![n.value]));
                Self::preorder_traverse(&n.left, child_pos(idx, true), steps);
                let ghost s2 = steps@;
                proof { lemma_visits_concat(s0, s1, s2, s0.len() as int, seq![n.value], preorder(n.left)); }
                Self::preorder_traverse(&n.right, child_pos(idx, false), steps);
                proof { lemma_visits_concat(s0, s2, steps@, s0.len() as int, seq![n.value] + preorder(n.left), preorder(n.right)); }
            },
        }
    }

    fn postorder_traverse(node: &Option<Box<Node>>, idx: usize, steps: &mut Vec<Step>)
        ensures
            visits(final(steps)@, old(steps)@.len() as int, postorder(*node)),
            final(steps)@.subrange(0, old(steps)@.len() as int) == old(steps)@,
        decreases *node,
    {
        match node {
            None => {
                assert(final(steps)@.subrange(0, old(steps)@.len() as int) =~= old(steps)@);
            },
            Some(n) => {
                let ghost s0 = steps@;
                Self::postorder_traverse(&n.left, child_pos(idx, true), steps);
                let ghost s1 = steps@;
                Self::postorder_traverse(&n.right, child_pos(idx, false), steps);
                let ghost s2 = steps@;
                proof { lemma_visits_concat(s0, s1, s2, s0.len() as int, postorder(n.left), postorder(n.right)); }
                Self::visit(n, idx, steps);
                assert(visits(steps@, s2.len() as int, seq![n.value]));
                proof { lemma_visits_concat(s0, s2, steps@, s0.len() as int, postorder(n.left) + postorder(n.right), seq![n.value]); }
            },
        }
    }

    /// One step per node, level by level from the root, left to right.
    fn levelorder_traverse(root: &Option<Box<Node>>, steps: &mut Vec<Step>)
        requires
            count(*root) <= usize::MAX,
        ensures
            final(steps)@.len() == old(steps)@.len() + count(*root),
            final(steps)@.subrange(0, old(steps)@.len() as int) == old(steps)@,
    {
        let mut queue: Vec<(&Box<Node>, usize)> = Vec::new();
        if let Some(r) = root {
            queue.push((r, 0));
            proof {
                assert(queue@.drop_last() =~= Seq::<(&Box<Node>, usize)>::empty());
                assert(pending(Seq::<(&Box<Node>, usize)>::empty()) == 0);
                assert(queue@.last().0 == r);
                assert(pending(queue@) == count(*root));
            }
        } else {
            assert(pending(queue@) == 0);
        }
        proof {
            assert(queue@.subrange(0, queue@.len() as int) =~= queue@);
        }
        let ghost start = steps@;
        let mut head: usize = 0;
        while head < queue.len()
            invariant
                head <= queue@.len(),
                steps@.len() == start.len() + head,
                steps@.subrange(0, start.len() as int) == start,
                head + pending(queue@.subrange(head as int, queue@.len() as int)) == count(*root),
                count(*root) <= usize::MAX,
            decreases pending(queue@.subrange(head as int, queue@.len() as int)),
        {
            let ghost rest = queue@.subrange(head as int, queue@.len() as int);
            proof {
                lemma_pending_front(rest);
                assert(rest.drop_first() =~= queue@.subrange(head + 1, queue@.len() as int));
            }
            let (n, idx) = queue[head];
            proof {
                assert(rest[0] == (n, idx));
                assert(count(Some(*n)) == count(n.left) + count(n.right) + 1);
            }
            Self::visit(n, idx, steps);
            let ghost before = queue@;
            let ghost tail0 = before.subrange(head + 1, before.len() as int);
            if let Some(l) = &n.left {
                queue.push((l, child_pos(idx, true)));
                proof {
                    assert(queue@.subrange(head + 1, queue@.len() as int) =~= tail0.push(queue@.last()));
                    assert(tail0.push(queue@.last()).drop_last() =~= tail0);
                }
            }
            proof {
                assert(pending(queue@.subrange(head + 1, queue@.len() as int)) == pending(tail0) + count(n.left));
            }
            let ghost middle = queue@;
            let ghost tail1 = middle.subrange(head + 1, middle.len() as int);
            if let Some(r) = &n.right {
                queue.push((r, child_pos(idx, false)));
                proof {
                    assert(queue@.subrange(head + 1, queue@.len() as int) =~= tail1.push(queue@.last()));
                    assert(tail1.push(queue@.last()).drop_last() =~= tail1);
                }
            }
            proof {
                assert(pending(queue@.subrange(head + 1, queue@.len() as int)) == pending(tail1) + count(n.right));
                assert(steps@.subrange(0, start.len() as int) =~= start);
            }
            head = head + 1;
        }
    }

    /// Inserts `value` below `node`, at `idx`: one comparison step per node
    /// on the way down, then a duplicate marker or the placement of the new
    /// leaf. Returns whether a node was added.
    fn insert_with_path(node: &mut Option<Box<Node>>, value: i32, idx: usize, path: &mut Vec<usize>, steps: &mut Vec<Step>) -> (r: bool)
        requires
            ordered(*old(node)),
        ensures
            ordered(*final(node)),
            values(*final(node)) == values(*old(node)).insert(value),
            r == !values(*old(node)).contains(value),
            count(*final(node)) == count(*old(node)) + if r { 1nat } else { 0nat },
            !r ==> flagged(final(steps)@.last(), "duplicate"@, true),
            final(steps)@.len() > old(steps)@.len(),
        decreases *old(node),
    {
        match node.take() {
            None => {
                *node = Some(Box::new(Node::new(value)));
                steps.push(step(
                    join(&vec![lit("Inserted "), int_text(value as i64), lit(" successfully")]),
                    vec![],
                    vec![idx],
                    vec![],
                ));
                assert(values(*node) =~= values(*old(node)).insert(value));
                true
            },
            Some(mut n) => {
                let ghost n0 = *n;
                path.push(idx);
                steps.push(step(
                    join(&vec![lit("Comparing "), int_text(value as i64), lit(" with "), int_text(n.value as i64)]),
                    path.clone(),
                    vec![],
                    vec![],
                ));
                let r = if value < n.value {
                    let r = Self::insert_with_path(&mut n.left, value, child_pos(idx, true), path, steps);
                    assert(!values(n0.right).contains(value));
                    r
                } else if value > n.value {
                    let r = Self::insert_with_path(&mut n.right, value, child_pos(idx, false), path, steps);
                    assert(!values(n0.left).contains(value));
                    r
                } else {
                    let s = step(
                        join(&vec![int_text(value as i64), lit(" already exists in tree")]),
                        path.clone(),
                        vec![],
                        vec![meta_flag("duplicate", true)],
                    );
                    assert(s.metadata@[0].key@ == "duplicate"@);
                    steps.push(s);
                    false
                };
                assert(values(Some(n)) =~= values(*old(node)).insert(value));
                *node = Some(n);
                r
            },
        }
    }

    /// A search below `node`, at `idx`, one step per node checked.
    fn search_with_steps(node: &Option<Box<Node>>, target: i32, idx: usize, steps: &mut Vec<Step>) -> (r: bool)
        requires
            ordered(*node),
        ensures
            r == values(*node).contains(target),
            r ==> final(steps)@.len() > old(steps)@.len(),
        decreases *node,
    {
        match node {
            None => false,
            Some(n) => {
                steps.push(step(
                    join(&vec![lit("Checking node with value "), int_text(n.value as i64)]),
                    vec![idx],
                    vec![],
                    vec![],
                ));
                if target == n.value {
                    steps.push(step(
                        join(&vec![lit("Found "), int_text(target as i64), lit(" at node")]),
                        vec![],
                        vec![idx],
                        vec![meta_flag("found", true), meta_index("index", idx)],
                    ));
                    true
                } else if target < n.value {
                    assert(!values(n.right).contains(target));
                    Self::search_with_steps(&n.left, target, child_pos(idx, true), steps)
                } else {
                    assert(!values(n.left).contains(target));
                    Self::search_with_steps(&n.right, target, child_pos(idx, false), steps)
                }
            },
        }
    }

    /// Draws the subtree at `node`, whose root sits at `idx`, as far as the
    /// first `RENDER_SLOTS` positions reach.
    fn build_render_state(node: &Option<Box<Node>>, idx: usize, elements: &mut Vec<RenderElement>, connections: &mut Vec<(usize, usize)>)
        requires
            idx < RENDER_SLOTS,
            old(elements)@.len() <= RENDER_SLOTS,
            forall|k: int| 0 <= k < old(connections)@.len() ==> edge_in_view(#[trigger] old(connections)@[k]),
        ensures
            final(elements)@.len() <= RENDER_SLOTS,
            final(elements)@.len() >= old(elements)@.len(),
            forall|k: int| 0 <= k < final(connections)@.len() ==> edge_in_view(#[trigger] final(connections)@[k]),
            match *node {
                Some(n) => idx < final(elements)@.len() && final(elements)@[idx as int].value == n.value,
                None => *final(elements) == *old(elements),
            },
        decreases *node,
    {
        if let Some(n) = node {
            let left_idx = 2 * idx + 1;
            if n.left.is_some() && left_idx < RENDER_SLOTS {
                let ghost c0 = connections@;
                connections.push((idx, left_idx));
                assert forall|k: int| 0 <= k < connections@.len() implies edge_in_view(#[trigger] connections@[k]) by {
                    if k < c0.len() {
                        assert(connections@[k] == c0[k]);
                    }
                }
                Self::build_render_state(&n.left, left_idx, elements, connections);
            }
            let right_idx = 2 * idx + 2;
            if n.right.is_some() && right_idx < RENDER_SLOTS {
                let ghost c0 = connections@;
                connections.push((idx, right_idx));
                assert forall|k: int| 0 <= k < connections@.len() implies edge_in_view(#[trigger] connections@[k]) by {
                    if k < c0.len() {
                        assert(connections@[k] == c0[k]);
                    }
                }
                Self::build_render_state(&n.right, right_idx, elements, connections);
            }
            pad_to(elements, idx);
            let e = RenderElement::new(n.value).with_label(int_text(n.value as i64));
            let e = e.with_sublabel(join(&vec![lit("Node "), index_text(idx)]));
            elements.set(idx, e);
        }
    }

    fn inorder_collect(node: &Option<Box<Node>>, nodes: &mut Vec<i32>)
        ensures
            final(nodes)@ == old(nodes)@ + inorder(*node),
        decreases *node,
    {
        if let Some(n) = node {
            Self::inorder_collect(&n.left, nodes);
            nodes.push(n.value);
            Self::inorder_collect(&n.right, nodes);
            assert(final(nodes)@ =~= old(nodes)@ + inorder(*node));
        }
    }
}


impl VisualizableBST {
    fn traverse_with_steps(&self, operation: Operation) -> (steps: Vec<Step>)
        requires
            self.valid(),
        ensures
            operation == Operation::Traverse ==> visits(steps@.drop_last(), 1, self.in_order()),
            operation == Operation::PreOrderTraverse ==> visits(steps@.drop_last(), 1, self.pre_order()),
            operation == Operation::PostOrderTraverse ==> visits(steps@.drop_last(), 1, self.post_order()),
            operation == Operation::LevelOrderTraverse ==> steps@.len() == self.in_order().len() + 2,
            steps@.len() >= 2,
    {
        let (opening, name, closing) = match operation {
            Operation::PreOrderTraverse => ("Starting pre-order traversal (root, left, right)", "preorder_traverse", "Pre-order traversal complete"),
            Operation::PostOrderTraverse => ("Starting post-order traversal (left, right, root)", "postorder_traverse", "Post-order traversal complete"),
            Operation::LevelOrderTraverse => ("Starting level-order traversal (breadth-first)", "levelorder_traverse", "Level-order traversal complete"),
            _ => ("Starting in-order traversal (left, root, right)", "traverse", "In-order traversal complete"),
        };
        let mut steps = vec![step(lit(opening), vec![], vec![], vec![meta_text("operation", name)])];
        match operation {
            Operation::PreOrderTraverse => Self::preorder_traverse(&self.root, 0, &mut steps),
            Operation::PostOrderTraverse => Self::postorder_traverse(&self.root, 0, &mut steps),
            Operation::LevelOrderTraverse => Self::levelorder_traverse(&self.root, &mut steps),
            _ => Self::inorder_traverse(&self.root, 0, &mut steps),
        }
        proof { lemma_count_inorder(self.root); }
        let ghost visited = steps@;
        steps.push(closing_step(closing));
        assert(steps@.drop_last() =~= visited);
        steps
    }
}

impl Visualizable for VisualizableBST {
    open spec fn well_formed(&self) -> bool {
        self.valid()
    }

    /// Insert, search and the four traversals; any other operation is refused.
    fn execute_with_steps(&mut self, operation: Operation) -> (r: Result<Vec<Step>, DsavError>)
        ensures
            match operation {
                Operation::Insert(_, v) => if old(self).in_order().len() == usize::MAX {
                    r is Err && *final(self) == *old(self)
                } else {
                    &&& r is Ok
                    &&& final(self)@ == old(self)@.insert(v)
                    &&& final(self).in_order().len() == old(self).in_order().len() + if old(self)@.contains(v) { 0int } else { 1int }
                    &&& old(self)@.contains(v) ==> flagged(r->Ok_0@.last(), "duplicate"@, true)
                },
                Operation::Search(t) => {
                    &&& r is Ok
                    &&& *final(self) == *old(self)
                    &&& !old(self)@.contains(t) ==> flagged(r->Ok_0@.last(), "found"@, false)
                },
                Operation::Traverse => r is Ok && *final(self) == *old(self) && visits(r->Ok_0@.drop_last(), 1, old(self).in_order()),
                Operation::PreOrderTraverse => r is Ok && *final(self) == *old(self) && visits(r->Ok_0@.drop_last(), 1, old(self).pre_order()),
                Operation::PostOrderTraverse => r is Ok && *final(self) == *old(self) && visits(r->Ok_0@.drop_last(), 1, old(self).post_order()),
                Operation::LevelOrderTraverse => r is Ok && *final(self) == *old(self) && r->Ok_0@.len() == old(self).in_order().len() + 2,
                _ => r matches Err(DsavError::Visualization(_)) && *final(self) == *old(self),
            },
    {
        match operation {
            Operation::Insert(_, value) => {
                proof { lemma_count_inorder(self.root); }
                if self.size == usize::MAX {
                    return Err(DsavError::Full { capacity: usize::MAX });
                }
                let mut steps = vec![step(
                    join(&vec![lit("Inserting "), int_text(value as i64), lit(" into BST")]),
                    vec![],
                    vec![],
                    vec![meta_text("operation", "insert"), meta_int("value", value as i64)],
                )];
                if self.root.is_none() {
                    steps.push(step(
                        join(&vec![lit("Tree is empty, "), int_text(value as i64), lit(" becomes root")]),
                        vec![],
                        vec![0],
                        vec![],
                    ));
                    self.insert(value);
                    proof { assert(!old(self)@.contains(value)); }
                } else {
                    let mut path: Vec<usize> = Vec::new();
                    if Self::insert_with_path(&mut self.root, value, 0, &mut path, &mut steps) {
                        self.size = self.size + 1;
                    }
                    proof { lemma_count_inorder(self.root); }
                }
                Ok(steps)
            },
            Operation::Search(target) => {
                let mut steps = vec![step(
                    join(&vec![lit("Searching for "), int_text(target as i64), lit(" in BST")]),
                    vec![],
                    vec![],
                    vec![meta_text("operation", "search"), meta_int("target", target as i64)],
                )];
                if !Self::search_with_steps(&self.root, target, 0, &mut steps) {
                    steps.push(not_found_step(target));
                }
                Ok(steps)
            },
            Operation::Traverse | Operation::PreOrderTraverse | Operation::PostOrderTraverse | Operation::LevelOrderTraverse => {
                Ok(self.traverse_with_steps(operation))
            },
            _ => Err(DsavError::Visualization(lit("Operation not supported for BST"))),
        }
    }

    /// The nodes at the first `RENDER_SLOTS` positions, each labelled with its
    /// position, with an edge to each child shown.
    fn render_state(&self) -> (r: RenderState)
        ensures
            r.elements@.len() <= RENDER_SLOTS,
            forall|k: int| 0 <= k < r.connections@.len() ==> edge_in_view(#[trigger] r.connections@[k]),
            match self.root_value() {
                Some(v) => r.elements@.len() > 0 && r.elements@[0].value == v,
                None => r.elements@.len() == 0,
            },
    {
        let mut elements: Vec<RenderElement> = Vec::new();
        let mut connections: Vec<(usize, usize)> = Vec::new();
        Self::build_render_state(&self.root, 0, &mut elements, &mut connections);
        RenderState { elements, connections }
    }
}


impl Default for VisualizableBST {
    fn default() -> (r: Self)
        ensures
            r.valid(),
            r@ == Set::<i32>::empty(),
            r.in_order() == Seq::<i32>::empty(),
    {
        Self::new()
    }
}

} // verus!
