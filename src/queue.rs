//! A bounded first-in, first-out queue of `i32` values.

use vstd::prelude::*;
use crate::error::DsavError;
use crate::state::{ElementState, RenderElement, RenderState};
use crate::text::{index_text, int_text, join, lit};
use crate::traits::{index_range, meta_index, meta_int, meta_text, step, Operation, Step, Visualizable};

verus! {

/// The capacity of a queue made by `new`.
pub const DEFAULT_CAPACITY: usize = 16;

/// A bounded first-in, first-out queue of `i32` values.
#[derive(Debug, Clone)]
pub struct VisualizableQueue {
    data: Vec<i32>,
    capacity: usize,
}

impl View for VisualizableQueue {
    type V = Seq<i32>;

    /// The values, oldest first.
    closed spec fn view(&self) -> Seq<i32> {
        self.data@
    }
}

impl VisualizableQueue {
    /// The most values the queue may hold.
    pub closed spec fn max_len(&self) -> nat {
        self.capacity as nat
    }

    /// An empty queue of capacity `DEFAULT_CAPACITY`.
    pub fn new() -> (r: Self)
        ensures
            r@ == Seq::<i32>::empty(),
            r.max_len() == DEFAULT_CAPACITY,
    {
        Self::with_capacity(DEFAULT_CAPACITY)
    }

    /// An empty queue that can hold `capacity` values.
    pub fn with_capacity(capacity: usize) -> (r: Self)
        ensures
            r@ == Seq::<i32>::empty(),
            r.max_len() == capacity,
    {
        VisualizableQueue { data: Vec::new(), capacity }
    }

    /// Adds `value` at the back; fails when the queue is full.
    pub fn enqueue(&mut self, value: i32) -> (r: Result<(), DsavError>)
        ensures
            final(self).max_len() == old(self).max_len(),
            old(self)@.len() >= old(self).max_len() ==> r == Err::<(), DsavError>(DsavError::Full { capacity: old(self).max_len() as usize })
                && final(self)@ == old(self)@,
            old(self)@.len() < old(self).max_len() ==> r is Ok && final(self)@ == old(self)@.push(value),
    {
        if self.is_full() {
            return Err(DsavError::Full { capacity: self.capacity });
        }
        self.data.push(value);
        Ok(())
    }

    /// Removes and returns the value at the front.
    pub fn dequeue(&mut self) -> (r: Result<i32, DsavError>)
        ensures
            final(self).max_len() == old(self).max_len(),
            old(self)@.len() == 0 ==> r == Err::<i32, DsavError>(DsavError::EmptyStructure) && final(self)@ == old(self)@,
            old(self)@.len() > 0 ==> r == Ok::<i32, DsavError>(old(self)@[0]) && final(self)@ == old(self)@.drop_first(),
    {
        if self.data.len() == 0 {
            return Err(DsavError::EmptyStructure);
        }
        Ok(self.data.remove(0))
    }

    /// The value at the front, left in place.
    pub fn peek(&self) -> (r: Result<i32, DsavError>)
        ensures
            self@.len() == 0 ==> r == Err::<i32, DsavError>(DsavError::EmptyStructure),
            self@.len() > 0 ==> r == Ok::<i32, DsavError>(self@[0]),
    {
        if self.data.len() == 0 {
            Err(DsavError::EmptyStructure)
        } else {
            Ok(self.data[0])
        }
    }

    pub fn is_empty(&self) -> (r: bool)
        ensures
            r == (self@.len() == 0),
    {
        self.data.len() == 0
    }

    pub fn is_full(&self) -> (r: bool)
        ensures
            r == (self@.len() >= self.max_len()),
    {
        self.data.len() >= self.capacity
    }

    pub fn len(&self) -> (r: usize)
        ensures
            r == self@.len(),
    {
        self.data.len()
    }

    pub fn size(&self) -> (r: usize)
        ensures
            r == self@.len(),
    {
        self.data.len()
    }

    pub fn capacity(&self) -> (r: usize)
        ensures
            r == self.max_len(),
    {
        self.capacity
    }

    /// Removes every value; the capacity stays.
    pub fn clear(&mut self)
        ensures
            final(self)@ == Seq::<i32>::empty(),
            final(self).max_len() == old(self).max_len(),
    {
        self.data.clear();
    }
}


impl Visualizable for VisualizableQueue {
    open spec fn well_formed(&self) -> bool {
        true
    }

    /// Enqueue and dequeue, each recorded step by step; the errors are those
    /// of `enqueue` and `dequeue`.
    fn execute_with_steps(&mut self, operation: Operation) -> (r: Result<Vec<Step>, DsavError>)
        ensures
            final(self).max_len() == old(self).max_len(),
            match operation {
                Operation::Enqueue(value) => {
                    &&& (r is Ok) == (old(self)@.len() < old(self).max_len())
                    &&& r is Ok ==> final(self)@ == old(self)@.push(value)
                    &&& r is Err ==> final(self)@ == old(self)@
                },
                Operation::Dequeue => {
                    &&& (r is Ok) == (old(self)@.len() > 0)
                    &&& r is Ok ==> final(self)@ == old(self)@.drop_first()
                    &&& r is Err ==> final(self)@ == old(self)@
                },
                _ => r is Err && final(self)@ == old(self)@,
            },
    {
        match operation {
            Operation::Enqueue(value) => {
                let mut steps = vec![step(
                    join(&vec![lit("Enqueuing "), int_text(value as i64), lit(" to back of queue")]),
                    vec![],
                    vec![],
                    vec![meta_text("operation", "enqueue"), meta_int("value", value as i64)],
                )];
                match self.enqueue(value) {
                    Err(e) => Err(e),
                    Ok(()) => {
                        let back_index = self.data.len() - 1;
                        steps.push(step(
                            join(&vec![int_text(value as i64), lit(" added to back, queue size now "), index_text(self.len())]),
                            vec![],
                            vec![back_index],
                            vec![meta_index("back_index", back_index)],
                        ));
                        Ok(steps)
                    },
                }
            },
            Operation::Dequeue => {
                let value = match self.peek() {
                    Err(e) => return Err(e),
                    Ok(v) => v,
                };
                let mut steps = vec![step(
                    join(&vec![lit("Dequeuing "), int_text(value as i64), lit(" from front of queue")]),
                    vec![0],
                    vec![],
                    vec![meta_int("value", value as i64)],
                )];
                let _ = self.dequeue();
                if !self.is_empty() {
                    steps.push(step(lit("Shifting remaining elements forward"), index_range(0, self.len()), vec![], vec![]));
                }
                steps.push(step(
                    join(&vec![lit("Removed "), int_text(value as i64), lit(", queue size now "), index_text(self.size())]),
                    vec![],
                    vec![],
                    vec![],
                ));
                Ok(steps)
            },
            _ => Err(DsavError::InvalidState { reason: lit("Operation not supported for queues") }),
        }
    }

    /// One cell per value, front first; the front is highlighted and the back
    /// marked active.
    fn render_state(&self) -> (r: RenderState)
        ensures
            r.elements@.len() == self@.len(),
            forall|i: int| 0 <= i < self@.len() ==> #[trigger] r.elements@[i].value == self@[i],
            forall|i: int| 0 <= i < self@.len() ==> #[trigger] r.elements@[i].state == if i == 0 {
                ElementState::Highlighted
            } else if i == self@.len() - 1 {
                ElementState::Active
            } else {
                ElementState::Normal
            },
            r.connections@.len() == 0,
    {
        let mut elements: Vec<RenderElement> = Vec::new();
        let n = self.data.len();
        let mut i: usize = 0;
        while i < n
            invariant
                n == self.data@.len(),
                i <= n,
                elements@.len() == i,
                forall|j: int| 0 <= j < i ==> #[trigger] elements@[j].value == self.data@[j],
                forall|j: int| 0 <= j < i ==> #[trigger] elements@[j].state == if j == 0 {
                    ElementState::Highlighted
                } else if j == n - 1 {
                    ElementState::Active
                } else {
                    ElementState::Normal
                },
            decreases n - i,
        {
            let value = self.data[i];
            let is_front = i == 0;
            let is_back = i == n - 1;
            let e = RenderElement::new(value).with_label(int_text(value as i64));
            let e = e.with_sublabel(if is_front { lit("FRONT") } else if is_back { lit("BACK") } else { String::new() });
            let state = if is_front {
                ElementState::Highlighted
            } else if is_back {
                ElementState::Active
            } else {
                ElementState::Normal
            };
            let e = e.with_state(state);
            let ghost before = elements@;
            elements.push(e);
            assert(elements@[i as int] == e);
            assert forall|j: int| 0 <= j < i implies #[trigger] elements@[j] == before[j] by {}
            i = i + 1;
        }
        RenderState { elements, connections: Vec::new() }
    }
}


impl Default for VisualizableQueue {
    fn default() -> (r: Self)
        ensures
            r@ == Seq::<i32>::empty(),
            r.max_len() == DEFAULT_CAPACITY,
    {
        Self::new()
    }
}

} // verus!
