//! A bounded last-in, first-out stack of `i32` values.

use vstd::prelude::*;
use crate::error::DsavError;
use crate::state::{ElementState, RenderElement, RenderState};
use crate::text::{index_text, int_text, join, lit};
use crate::traits::{meta_index, meta_int, meta_text, step, Operation, Step, Visualizable};

verus! {

/// The capacity of a stack made by `new`.
pub const DEFAULT_CAPACITY: usize = 16;

/// A bounded last-in, first-out stack of `i32` values.
#[derive(Debug, Clone)]
pub struct VisualizableStack {
    data: Vec<i32>,
    capacity: usize,
}

impl View for VisualizableStack {
    type V = Seq<i32>;

    /// The values, oldest first.
    closed spec fn view(&self) -> Seq<i32> {
        self.data@
    }
}

impl VisualizableStack {
    /// The most values the stack may hold.
    pub closed spec fn max_len(&self) -> nat {
        self.capacity as nat
    }

    /// An empty stack of capacity `DEFAULT_CAPACITY`.
    pub fn new() -> (r: Self)
        ensures
            r@ == Seq::<i32>::empty(),
            r.max_len() == DEFAULT_CAPACITY,
    {
        Self::with_capacity(DEFAULT_CAPACITY)
    }

    /// An empty stack that can hold `capacity` values.
    pub fn with_capacity(capacity: usize) -> (r: Self)
        ensures
            r@ == Seq::<i32>::empty(),
            r.max_len() == capacity,
    {
        VisualizableStack { data: Vec::new(), capacity }
    }

    /// Pushes `value` on top; fails when the stack is full.
    pub fn push(&mut self, value: i32) -> (r: Result<(), DsavError>)
        ensures
            final(self).max_len() == old(self).max_len(),
            old(self)@.len() >= old(self).max_len() ==> r == Err::<(), DsavError>(DsavError::Full { capacity: old(self).max_len() as usize })
                && final(self)@ == old(self)@,
            old(self)@.len() < old(self).max_len() ==> r is Ok && final(self)@ == old(self)@.push(value),
    {
        if self.is_full() {
            return Err(DsavError::Full { capacity: self.capacity });
        }
        self.data.push(value);
        Ok(())
    }

    /// Removes and returns the value on top.
    pub fn pop(&mut self) -> (r: Result<i32, DsavError>)
        ensures
            final(self).max_len() == old(self).max_len(),
            old(self)@.len() == 0 ==> r == Err::<i32, DsavError>(DsavError::EmptyStructure) && final(self)@ == old(self)@,
            old(self)@.len() > 0 ==> r == Ok::<i32, DsavError>(old(self)@.last()) && final(self)@ == old(self)@.drop_last(),
    {
        match self.data.pop() {
            Some(v) => Ok(v),
            None => Err(DsavError::EmptyStructure),
        }
    }

    /// The value on top, left in place.
    pub fn peek(&self) -> (r: Result<i32, DsavError>)
        ensures
            self@.len() == 0 ==> r == Err::<i32, DsavError>(DsavError::EmptyStructure),
            self@.len() > 0 ==> r == Ok::<i32, DsavError>(self@.last()),
    {
        let n = self.data.len();
        if n == 0 {
            Err(DsavError::EmptyStructure)
        } else {
            Ok(self.data[n - 1])
        }
    }

    pub fn is_empty(&self) -> (r: bool)
        ensures
            r == (self@.len() == 0),
    {
        self.data.len() == 0
    }

    pub fn is_full(&self) -> (r: bool)
        ensures
            r == (self@.len() >= self.max_len()),
    {
        self.data.len() >= self.capacity
    }

    pub fn len(&self) -> (r: usize)
        ensures
            r == self@.len(),
    {
        self.data.len()
    }

    pub fn size(&self) -> (r: usize)
        ensures
            r == self@.len(),
    {
        self.data.len()
    }

    pub fn capacity(&self) -> (r: usize)
        ensures
            r == self.max_len(),
    {
        self.capacity
    }

    /// Removes every value; the capacity stays.
    pub fn clear(&mut self)
        ensures
            final(self)@ == Seq::<i32>::empty(),
            final(self).max_len() == old(self).max_len(),
    {
        self.data.clear();
    }
}


impl Visualizable for VisualizableStack {
    open spec fn well_formed(&self) -> bool {
        true
    }

    /// Push and pop, each recorded step by step; the errors are those of
    /// `push` and `pop`.
    fn execute_with_steps(&mut self, operation: Operation) -> (r: Result<Vec<Step>, DsavError>)
        ensures
            final(self).max_len() == old(self).max_len(),
            match operation {
                Operation::Push(value) => {
                    &&& (r is Ok) == (old(self)@.len() < old(self).max_len())
                    &&& r is Ok ==> final(self)@ == old(self)@.push(value)
                    &&& r is Err ==> final(self)@ == old(self)@
                },
                Operation::Pop => {
                    &&& (r is Ok) == (old(self)@.len() > 0)
                    &&& r is Ok ==> final(self)@ == old(self)@.drop_last()
                    &&& r is Err ==> final(self)@ == old(self)@
                },
                _ => r is Err && final(self)@ == old(self)@,
            },
    {
        match operation {
            Operation::Push(value) => {
                let mut steps = vec![step(
                    join(&vec![lit("Pushing "), int_text(value as i64), lit(" onto stack")]),
                    vec![],
                    vec![],
                    vec![meta_text("operation", "push"), meta_int("value", value as i64)],
                )];
                match self.push(value) {
                    Err(e) => Err(e),
                    Ok(()) => {
                        let top_index = self.data.len() - 1;
                        steps.push(step(
                            join(&vec![int_text(value as i64), lit(" is now on top of stack")]),
                            vec![],
                            vec![top_index],
                            vec![meta_index("top_index", top_index)],
                        ));
                        Ok(steps)
                    },
                }
            },
            Operation::Pop => {
                let value = match self.peek() {
                    Err(e) => return Err(e),
                    Ok(v) => v,
                };
                let top_index = self.data.len() - 1;
                let mut steps = vec![step(
                    join(&vec![lit("Popping "), int_text(value as i64), lit(" from stack")]),
                    vec![top_index],
                    vec![],
                    vec![meta_int("value", value as i64)],
                )];
                let _ = self.pop();
                steps.push(step(
                    join(&vec![lit("Removed "), int_text(value as i64), lit(", stack size now "), index_text(self.size())]),
                    vec![],
                    vec![],
                    vec![],
                ));
                Ok(steps)
            },
            _ => Err(DsavError::InvalidState { reason: lit("Operation not supported for stacks") }),
        }
    }

    /// One cell per value, bottom first; the top is highlighted and labelled.
    fn render_state(&self) -> (r: RenderState)
        ensures
            r.elements@.len() == self@.len(),
            forall|i: int| 0 <= i < self@.len() ==> #[trigger] r.elements@[i].value == self@[i],
            forall|i: int| 0 <= i < self@.len() ==> #[trigger] r.elements@[i].state
                == if i == self@.len() - 1 { ElementState::Highlighted } else { ElementState::Normal },
            r.connections@.len() == 0,
    {
        let mut elements: Vec<RenderElement> = Vec::new();
        let n = self.data.len();
        let mut i: usize = 0;
        while i < n
            invariant
                n == self.data@.len(),
                i <= n,
                elements@.len() == i,
                forall|j: int| 0 <= j < i ==> #[trigger] elements@[j].value == self.data@[j],
                forall|j: int| 0 <= j < i ==> #[trigger] elements@[j].state
                    == if j == n - 1 { ElementState::Highlighted } else { ElementState::Normal },
            decreases n - i,
        {
            let value = self.data[i];
            let is_top = i == n - 1;
            let e = RenderElement::new(value).with_label(int_text(value as i64));
            let e = e.with_sublabel(if is_top { lit("TOP") } else { String::new() });
            let e = e.with_state(if is_top { ElementState::Highlighted } else { ElementState::Normal });
            let ghost before = elements@;
            elements.push(e);
            assert(elements@[i as int] == e);
            assert forall|j: int| 0 <= j < i implies #[trigger] elements@[j] == before[j] by {}
            i = i + 1;
        }
        RenderState { elements, connections: Vec::new() }
    }
}


impl Default for VisualizableStack {
    fn default() -> (r: Self)
        ensures
            r@ == Seq::<i32>::empty(),
            r.max_len() == DEFAULT_CAPACITY,
    {
        Self::new()
    }
}

} // verus!
