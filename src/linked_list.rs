//! A singly linked list of `i32` values.

use vstd::prelude::*;
use crate::error::DsavError;
use crate::state::{RenderElement, RenderState};
use crate::text::{index_text, int_text, join, lit};
use crate::traits::{flagged, meta_flag, meta_index, meta_int, meta_text, note, step, Operation, Step, Visualizable};

verus! {

#[derive(Debug)]
struct Node {
    value: i32,
    next: Option<Box<Node>>,
}

/// The values from `l` to the end of the list.
spec fn seq_of(l: Option<Box<Node>>) -> Seq<i32>
    decreases l,
{
    match l {
        None => Seq::empty(),
        Some(n) => seq![n.value] + seq_of(n.next),
    }
}

/// A singly linked list that keeps its length.
#[derive(Debug)]
pub struct VisualizableLinkedList {
    head: Option<Box<Node>>,
    length: usize,
}

impl View for VisualizableLinkedList {
    type V = Seq<i32>;

    /// The values from head to tail.
    closed spec fn view(&self) -> Seq<i32> {
        seq_of(self.head)
    }
}

fn push_back(link: &mut Option<Box<Node>>, value: i32)
    ensures
        seq_of(*final(link)) == seq_of(*old(link)).push(value),
    decreases *old(link),
{
    match link {
        None => {
            *link = Some(Box::new(Node { value, next: None }));
            assert(seq_of(*link) =~= seq_of(*old(link)).push(value));
        },
        Some(n) => {
            push_back(&mut n.next, value);
            assert(seq_of(*link) =~= seq_of(*old(link)).push(value));
        },
    }
}

fn insert_rec(link: &mut Option<Box<Node>>, index: usize, value: i32)
    requires
        index <= seq_of(*old(link)).len(),
    ensures
        seq_of(*final(link)) == seq_of(*old(link)).insert(index as int, value),
    decreases *old(link),
{
    if index == 0 {
        let rest = link.take();
        *link = Some(Box::new(Node { value, next: rest }));
        assert(seq_of(*link) =~= seq_of(*old(link)).insert(0, value));
    } else {
        match link {
            None => {},
            Some(n) => {
                insert_rec(&mut n.next, index - 1, value);
                assert(seq_of(*link) =~= seq_of(*old(link)).insert(index as int, value));
            },
        }
    }
}

fn pop_back(link: &mut Option<Box<Node>>) -> (r: i32)
    requires
        old(link).is_some(),
    ensures
        seq_of(*old(link)).len() > 0,
        r == seq_of(*old(link)).last(),
        seq_of(*final(link)) == seq_of(*old(link)).drop_last(),
    decreases *old(link),
{
    let mut n = link.take().unwrap();
    if n.next.is_none() {
        assert(seq_of(n.next) =~= Seq::<i32>::empty());
        assert(seq_of(*link) =~= seq_of(*old(link)).drop_last());
        n.value
    } else {
        let r = pop_back(&mut n.next);
        *link = Some(n);
        assert(seq_of(*link) =~= seq_of(*old(link)).drop_last());
        r
    }
}

fn find_rec(link: &Option<Box<Node>>, target: i32, base: usize) -> (r: Option<usize>)
    requires
        base + seq_of(*link).len() <= usize::MAX,
    ensures
        match r {
            Some(i) => base <= i < base + seq_of(*link).len() && seq_of(*link)[i - base] == target
                && forall|j: int| 0 <= j < i - base ==> seq_of(*link)[j] != target,
            None => !seq_of(*link).contains(target),
        },
    decreases *link,
{
    match link {
        None => None,
        Some(n) => {
            if n.value == target {
                Some(base)
            } else {
                let r = find_rec(&n.next, target, base + 1);
                proof {
                    let s = seq_of(*link);
                    assert(s == seq![n.value] + seq_of(n.next));
                    if r is None {
                        assert forall|k: int| 0 <= k < s.len() implies s[k] != target by {
                            if k > 0 {
                                assert(s[k] == seq_of(n.next)[k - 1]);
                            }
                        }
                    } else {
                        let i = r->Some_0;
                        assert forall|j: int| 0 <= j < i - base implies s[j] != target by {
                            if j > 0 {
                                assert(s[j] == seq_of(n.next)[j - 1]);
                            }
                        }
                    }
                }
                r
            }
        },
    }
}

fn remove_rec(link: &mut Option<Box<Node>>, index: usize) -> (r: i32)
    requires
        index < seq_of(*old(link)).len(),
    ensures
        r == seq_of(*old(link))[index as int],
        seq_of(*final(link)) == seq_of(*old(link)).remove(index as int),
    decreases *old(link),
{
    let mut n = link.take().unwrap();
    if index == 0 {
        *link = n.next;
        assert(seq_of(*link) =~= seq_of(*old(link)).remove(0));
        n.value
    } else {
        let r = remove_rec(&mut n.next, index - 1);
        *link = Some(n);
        assert(seq_of(*link) =~= seq_of(*old(link)).remove(index as int));
        r
    }
}

fn get_rec(link: &Option<Box<Node>>, index: usize) -> (r: i32)
    requires
        index < seq_of(*link).len(),
    ensures
        r == seq_of(*link)[index as int],
    decreases *link,
{
    let n = link.as_ref().unwrap();
    if index == 0 {
        n.value
    } else {
        get_rec(&n.next, index - 1)
    }
}

fn collect(link: &Option<Box<Node>>, out: &mut Vec<i32>)
    ensures
        final(out)@ == old(out)@ + seq_of(*link),
    decreases *link,
{
    if let Some(n) = link {
        out.push(n.value);
        collect(&n.next, out);
        assert(final(out)@ =~= old(out)@ + seq_of(*link));
    }
}

impl VisualizableLinkedList {
    /// The list's invariant: the kept length is the number of nodes.
    pub closed spec fn valid(&self) -> bool {
        self.length == seq_of(self.head).len()
    }

    /// An empty list.
    pub fn new() -> (r: Self)
        ensures
            r.valid(),
            r@ == Seq::<i32>::empty(),
    {
        VisualizableLinkedList { head: None, length: 0 }
    }

    /// Adds `value` before the head.
    pub fn insert_front(&mut self, value: i32)
        requires
            old(self).valid(),
            old(self)@.len() < usize::MAX,
        ensures
            final(self).valid(),
            final(self)@ == seq![value] + old(self)@,
    {
        let rest = self.head.take();
        self.head = Some(Box::new(Node { value, next: rest }));
        self.length = self.length + 1;
    }

    /// Adds `value` after the tail.
    pub fn insert_back(&mut self, value: i32)
        requires
            old(self).valid(),
            old(self)@.len() < usize::MAX,
        ensures
            final(self).valid(),
            final(self)@ == old(self)@.push(value),
    {
        push_back(&mut self.head, value);
        self.length = self.length + 1;
    }

    /// Inserts `value` so that it ends up at `index`; fails when `index` is
    /// past the end.
    pub fn insert_at(&mut self, index: usize, value: i32) -> (r: Result<(), DsavError>)
        requires
            old(self).valid(),
            old(self)@.len() < usize::MAX,
        ensures
            final(self).valid(),
            index > old(self)@.len() ==> r == Err::<(), DsavError>(DsavError::IndexOutOfBounds { index, size: old(self)@.len() as usize })
                && final(self)@ == old(self)@,
            index <= old(self)@.len() ==> r is Ok && final(self)@ == old(self)@.insert(index as int, value),
    {
        if index > self.length {
            return Err(DsavError::IndexOutOfBounds { index, size: self.length });
        }
        insert_rec(&mut self.head, index, value);
        self.length = self.length + 1;
        Ok(())
    }

    /// Removes and returns the head's value.
    pub fn delete_front(&mut self) -> (r: Result<i32, DsavError>)
        requires
            old(self).valid(),
        ensures
            final(self).valid(),
            old(self)@.len() == 0 ==> r == Err::<i32, DsavError>(DsavError::EmptyStructure) && final(self)@ == old(self)@,
            old(self)@.len() > 0 ==> r == Ok::<i32, DsavError>(old(self)@[0]) && final(self)@ == old(self)@.drop_first(),
    {
        match self.head.take() {
            None => Err(DsavError::EmptyStructure),
            Some(n) => {
                let n = *n;
                self.head = n.next;
                self.length = self.length - 1;
                assert(seq_of(self.head) =~= old(self)@.drop_first());
                Ok(n.value)
            },
        }
    }

    /// Removes and returns the tail's value.
    pub fn delete_back(&mut self) -> (r: Result<i32, DsavError>)
        requires
            old(self).valid(),
        ensures
            final(self).valid(),
            old(self)@.len() == 0 ==> r == Err::<i32, DsavError>(DsavError::EmptyStructure) && final(self)@ == old(self)@,
            old(self)@.len() > 0 ==> r == Ok::<i32, DsavError>(old(self)@.last()) && final(self)@ == old(self)@.drop_last(),
    {
        if self.head.is_none() {
            return Err(DsavError::EmptyStructure);
        }
        let v = pop_back(&mut self.head);
        self.length = self.length - 1;
        Ok(v)
    }

    /// The position of the first node holding `target`, if any.
    pub fn search(&self, target: i32) -> (r: Option<usize>)
        requires
            self.valid(),
        ensures
            match r {
                Some(i) => i < self@.len() && self@[i as int] == target
                    && forall|j: int| 0 <= j < i ==> self@[j] != target,
                None => !self@.contains(target),
            },
    {
        find_rec(&self.head, target, 0)
    }

    /// The value at position `index`.
    pub fn get(&self, index: usize) -> (r: Result<i32, DsavError>)
        requires
            self.valid(),
        ensures
            index >= self@.len() ==> r == Err::<i32, DsavError>(DsavError::IndexOutOfBounds { index, size: self@.len() as usize }),
            index < self@.len() ==> r == Ok::<i32, DsavError>(self@[index as int]),
    {
        if index >= self.length {
            return Err(DsavError::IndexOutOfBounds { index, size: self.length });
        }
        Ok(get_rec(&self.head, index))
    }

    pub fn len(&self) -> (r: usize)
        requires
            self.valid(),
        ensures
            r == self@.len(),
    {
        self.length
    }

    pub fn is_empty(&self) -> (r: bool)
        requires
            self.valid(),
        ensures
            r == (self@.len() == 0),
    {
        self.length == 0
    }

    /// Removes every node.
    pub fn clear(&mut self)
        ensures
            final(self).valid(),
            final(self)@ == Seq::<i32>::empty(),
    {
        self.head = None;
        self.length = 0;
    }

    /// The values from head to tail.
    pub fn to_vec(&self) -> (r: Vec<i32>)
        ensures
            r@ == self@,
    {
        let mut out = Vec::new();
        collect(&self.head, &mut out);
        assert(out@ =~= self@);
        out
    }
}


fn traversing_steps(steps: &mut Vec<Step>, upto: usize)
    ensures
        final(steps)@.len() == old(steps)@.len() + upto,
{
    let mut i: usize = 0;
    while i < upto
        invariant
            i <= upto,
            steps@.len() == old(steps)@.len() + i,
        decreases upto - i,
    {
        steps.push(step(join(&vec![lit("Traversing to position "), index_text(i)]), vec![i], vec![], vec![]));
        i = i + 1;
    }
}

impl Visualizable for VisualizableLinkedList {
    open spec fn well_formed(&self) -> bool {
        self.valid()
    }

    /// Positional insert and delete, search and traversal, each recorded step
    /// by step; any other operation is refused.
    fn execute_with_steps(&mut self, operation: Operation) -> (r: Result<Vec<Step>, DsavError>)
        ensures
            match operation {
                Operation::Insert(index, value) => {
                    &&& (r is Ok) == (index <= old(self)@.len() && old(self)@.len() < usize::MAX)
                    &&& r is Ok ==> final(self)@ == old(self)@.insert(index as int, value)
                    &&& r is Err ==> final(self)@ == old(self)@
                },
                Operation::Delete(index) => {
                    &&& (r is Ok) == (index < old(self)@.len())
                    &&& r is Ok ==> final(self)@ == old(self)@.remove(index as int)
                    &&& r is Err ==> final(self)@ == old(self)@
                },
                Operation::Search(target) => {
                    &&& r is Ok
                    &&& final(self)@ == old(self)@
                    &&& !old(self)@.contains(target) ==> flagged(r->Ok_0@.last(), "found"@, false)
                },
                Operation::Traverse => r is Ok && final(self)@ == old(self)@ && r->Ok_0@.len() == old(self)@.len() + 2,
                _ => r is Err && final(self)@ == old(self)@,
            },
    {
        match operation {
            Operation::Insert(index, value) => {
                if self.length == usize::MAX {
                    return Err(DsavError::Full { capacity: usize::MAX });
                }
                if index > self.length {
                    return Err(DsavError::IndexOutOfBounds { index, size: self.length });
                }
                let mut steps = vec![step(
                    join(&vec![lit("Inserting "), int_text(value as i64), lit(" at position "), index_text(index)]),
                    vec![],
                    vec![],
                    vec![meta_text("operation", "insert"), meta_int("value", value as i64), meta_index("index", index)],
                )];
                if index == 0 {
                    steps.push(step(lit("Inserting at head of list"), vec![0], vec![], vec![]));
                    self.insert_front(value);
                    assert(self@ =~= old(self)@.insert(0, value));
                } else {
                    traversing_steps(&mut steps, index);
                    let _ = self.insert_at(index, value);
                }
                steps.push(step(
                    join(&vec![lit("Successfully inserted "), int_text(value as i64), lit(" at position "), index_text(index)]),
                    vec![],
                    vec![index],
                    vec![],
                ));
                Ok(steps)
            },
            Operation::Delete(index) => {
                if index >= self.length {
                    return Err(DsavError::IndexOutOfBounds { index, size: self.length });
                }
                let value = get_rec(&self.head, index);
                let mut steps = vec![step(
                    join(&vec![lit("Deleting node at position "), index_text(index)]),
                    vec![index],
                    vec![],
                    vec![meta_text("operation", "delete"), meta_index("index", index)],
                )];
                traversing_steps(&mut steps, index);
                let _ = remove_rec(&mut self.head, index);
                self.length = self.length - 1;
                steps.push(step(join(&vec![lit("Deleted node with value "), int_text(value as i64)]), vec![], vec![], vec![]));
                Ok(steps)
            },
            Operation::Search(target) => {
                let mut steps = vec![step(
                    join(&vec![lit("Searching for value "), int_text(target as i64)]),
                    vec![],
                    vec![],
                    vec![meta_text("operation", "search"), meta_int("target", target as i64)],
                )];
                let values = self.to_vec();
                let mut i: usize = 0;
                while i < values.len()
                    invariant
                        values@ == self@,
                        self.valid(),
                        *self == *old(self),
                        operation == Operation::Search(target),
                        i <= values@.len(),
                        forall|j: int| 0 <= j < i ==> values@[j] != target,
                    decreases values@.len() - i,
                {
                    steps.push(step(
                        join(&vec![lit("Checking node at position "), index_text(i), lit(" (value: "), int_text(values[i] as i64), lit(")")]),
                        vec![i],
                        vec![],
                        vec![],
                    ));
                    if values[i] == target {
                        steps.push(step(
                            join(&vec![lit("Found "), int_text(target as i64), lit(" at position "), index_text(i)]),
                            vec![],
                            vec![i],
                            vec![meta_flag("found", true), meta_index("index", i)],
                        ));
                        return Ok(steps);
                    }
                    i = i + 1;
                }
                let last = step(
                    join(&vec![lit("Value "), int_text(target as i64), lit(" not found in list")]),
                    vec![],
                    vec![],
                    vec![meta_flag("found", false)],
                );
                assert(last.metadata@[0].key@ == "found"@);
                steps.push(last);
                Ok(steps)
            },
            Operation::Traverse => {
                let mut steps = vec![step(lit("Starting list traversal"), vec![], vec![], vec![meta_text("operation", "traverse")])];
                let values = self.to_vec();
                let mut i: usize = 0;
                while i < values.len()
                    invariant
                        values@ == self@,
                        self.valid(),
                        *self == *old(self),
                        operation == Operation::Traverse,
                        i <= values@.len(),
                        steps@.len() == 1 + i,
                    decreases values@.len() - i,
                {
                    steps.push(step(
                        join(&vec![lit("Visiting node "), index_text(i), lit(" (value: "), int_text(values[i] as i64), lit(")")]),
                        vec![i],
                        vec![],
                        vec![meta_index("index", i), meta_int("value", values[i] as i64)],
                    ));
                    i = i + 1;
                }
                steps.push(note("Traversal complete"));
                Ok(steps)
            },
            _ => Err(DsavError::Visualization(lit("Operation not supported for linked list"))),
        }
    }

    /// One cell per node, head first, each linked to the next.
    fn render_state(&self) -> (r: RenderState)
        ensures
            r.elements@.len() == self@.len(),
            forall|i: int| 0 <= i < self@.len() ==> #[trigger] r.elements@[i].value == self@[i],
            r.connections@.len() == if self@.len() == 0 { 0 } else { self@.len() - 1 },
            forall|k: int| 0 <= k < r.connections@.len() ==> #[trigger] r.connections@[k] == (k as usize, (k + 1) as usize),
    {
        let values = self.to_vec();
        let mut elements: Vec<RenderElement> = Vec::new();
        let mut connections: Vec<(usize, usize)> = Vec::new();
        let mut i: usize = 0;
        while i < values.len()
            invariant
                values@ == self@,
                i <= values@.len(),
                elements@.len() == i,
                forall|j: int| 0 <= j < i ==> #[trigger] elements@[j].value == values@[j],
                connections@.len() == if i == 0 { 0 } else { i - 1 },
                forall|k: int| 0 <= k < connections@.len() ==> #[trigger] connections@[k] == (k as usize, (k + 1) as usize),
            decreases values@.len() - i,
        {
            let e = RenderElement::new(values[i]).with_sublabel(join(&vec![lit("Node "), index_text(i)]));
            let ghost before = elements@;
            elements.push(e);
            assert forall|j: int| 0 <= j < i + 1 implies #[trigger] elements@[j].value == values@[j] by {
                if j < i {
                    assert(elements@[j] == before[j]);
                }
            }
            if i > 0 {
                connections.push((i - 1, i));
            }
            i = i + 1;
        }
        RenderState { elements, connections }
    }
}


impl Default for VisualizableLinkedList {
    fn default() -> (r: Self)
        ensures
            r.valid(),
            r@ == Seq::<i32>::empty(),
    {
        Self::new()
    }
}

} // verus!
