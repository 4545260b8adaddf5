//! A fixed-capacity array of `i32` values.

use vstd::prelude::*;
use crate::error::DsavError;
use crate::state::{RenderElement, RenderState};
use crate::text::{index_text, int_text, join, lit};
use crate::sorting::{binary_search_with_steps, bubble_sort_with_steps, insertion_sort_with_steps, merge_sort_with_steps, permutes, quick_sort_with_steps, selection_sort_with_steps, sorted};
use crate::traits::{flagged, index_range, meta_flag, meta_index, meta_int, meta_text, note, step, Operation, Step, Visualizable};

verus! {

/// An array that holds at most `capacity` values.
#[derive(Debug, Clone)]
pub struct VisualizableArray {
    elements: Vec<i32>,
    capacity: usize,
}

impl View for VisualizableArray {
    type V = Seq<i32>;

    closed spec fn view(&self) -> Seq<i32> {
        self.elements@
    }
}

impl VisualizableArray {
    /// The most values the array may hold.
    pub closed spec fn max_len(&self) -> nat {
        self.capacity as nat
    }

    /// An empty array that can hold `capacity` values.
    pub fn new(capacity: usize) -> (r: Self)
        ensures
            r@ == Seq::<i32>::empty(),
            r.max_len() == capacity,
    {
        VisualizableArray { elements: Vec::new(), capacity }
    }

    /// Inserts `value` at `index`, shifting later values right. Fails when
    /// the array is full, or when `index` is past the end.
    pub fn insert(&mut self, index: usize, value: i32) -> (r: Result<(), DsavError>)
        ensures
            final(self).max_len() == old(self).max_len(),
            old(self)@.len() >= old(self).max_len() ==> r == Err::<(), DsavError>(DsavError::Full { capacity: old(self).max_len() as usize })
                && final(self)@ == old(self)@,
            old(self)@.len() < old(self).max_len() && index > old(self)@.len()
                ==> r == Err::<(), DsavError>(DsavError::IndexOutOfBounds { index, size: old(self)@.len() as usize })
                && final(self)@ == old(self)@,
            old(self)@.len() < old(self).max_len() && index <= old(self)@.len()
                ==> r is Ok && final(self)@ == old(self)@.insert(index as int, value),
    {
        if self.elements.len() >= self.capacity {
            return Err(DsavError::Full { capacity: self.capacity });
        }
        if index > self.elements.len() {
            return Err(DsavError::IndexOutOfBounds { index, size: self.elements.len() });
        }
        self.elements.insert(index, value);
        Ok(())
    }

    /// Removes and returns the value at `index`, shifting later values left.
    pub fn delete(&mut self, index: usize) -> (r: Result<i32, DsavError>)
        ensures
            final(self).max_len() == old(self).max_len(),
            index >= old(self)@.len() ==> r == Err::<i32, DsavError>(DsavError::IndexOutOfBounds { index, size: old(self)@.len() as usize })
                && final(self)@ == old(self)@,
            index < old(self)@.len() ==> r == Ok::<i32, DsavError>(old(self)@[index as int])
                && final(self)@ == old(self)@.remove(index as int),
    {
        if index >= self.elements.len() {
            return Err(DsavError::IndexOutOfBounds { index, size: self.elements.len() });
        }
        Ok(self.elements.remove(index))
    }

    /// Replaces the value at `index`, returning the one it held.
    pub fn update(&mut self, index: usize, value: i32) -> (r: Result<i32, DsavError>)
        ensures
            final(self).max_len() == old(self).max_len(),
            index >= old(self)@.len() ==> r == Err::<i32, DsavError>(DsavError::IndexOutOfBounds { index, size: old(self)@.len() as usize })
                && final(self)@ == old(self)@,
            index < old(self)@.len() ==> r == Ok::<i32, DsavError>(old(self)@[index as int])
                && final(self)@ == old(self)@.update(index as int, value),
    {
        if index >= self.elements.len() {
            return Err(DsavError::IndexOutOfBounds { index, size: self.elements.len() });
        }
        let old_value = self.elements[index];
        self.elements.set(index, value);
        Ok(old_value)
    }

    /// The value at `index`.
    pub fn get(&self, index: usize) -> (r: Result<i32, DsavError>)
        ensures
            index >= self@.len() ==> r == Err::<i32, DsavError>(DsavError::IndexOutOfBounds { index, size: self@.len() as usize }),
            index < self@.len() ==> r == Ok::<i32, DsavError>(self@[index as int]),
    {
        if index < self.elements.len() {
            Ok(self.elements[index])
        } else {
            Err(DsavError::IndexOutOfBounds { index, size: self.elements.len() })
        }
    }

    /// The first index holding `value`, if any.
    pub fn search(&self, value: i32) -> (r: Option<usize>)
        ensures
            match r {
                Some(i) => i < self@.len() && self@[i as int] == value
                    && forall|j: int| 0 <= j < i ==> self@[j] != value,
                None => !self@.contains(value),
            },
    {
        let mut i: usize = 0;
        while i < self.elements.len()
            invariant
                i <= self.elements@.len(),
                forall|j: int| 0 <= j < i ==> self.elements@[j] != value,
            decreases self.elements@.len() - i,
        {
            if self.elements[i] == value {
                return Some(i);
            }
            i = i + 1;
        }
        None
    }

    pub fn len(&self) -> (r: usize)
        ensures
            r == self@.len(),
    {
        self.elements.len()
    }

    pub fn is_empty(&self) -> (r: bool)
        ensures
            r == (self@.len() == 0),
    {
        self.elements.len() == 0
    }

    pub fn capacity(&self) -> (r: usize)
        ensures
            r == self.max_len(),
    {
        self.capacity
    }
}


impl Visualizable for VisualizableArray {
    open spec fn well_formed(&self) -> bool {
        true
    }

    /// Insert, delete and linear search, each recorded step by step; the
    /// insert and delete errors are those of `insert` and `delete`.
    fn execute_with_steps(&mut self, operation: Operation) -> (r: Result<Vec<Step>, DsavError>)
        ensures
            final(self).max_len() == old(self).max_len(),
            match operation {
                Operation::Insert(index, value) => {
                    &&& (r is Ok) == (old(self)@.len() < old(self).max_len() && index <= old(self)@.len())
                    &&& r is Ok ==> final(self)@ == old(self)@.insert(index as int, value)
                    &&& r is Err ==> final(self)@ == old(self)@
                },
                Operation::Delete(index) => {
                    &&& (r is Ok) == (index < old(self)@.len())
                    &&& r is Ok ==> final(self)@ == old(self)@.remove(index as int)
                    &&& r is Err ==> final(self)@ == old(self)@
                },
                Operation::Search(target) => {
                    &&& r is Ok
                    &&& final(self)@ == old(self)@
                    &&& !old(self)@.contains(target) ==> flagged(r->Ok_0@.last(), "found"@, false)
                },
                Operation::Update(index, value) => {
                    &&& (r is Ok) == (index < old(self)@.len())
                    &&& r is Ok ==> final(self)@ == old(self)@.update(index as int, value)
                    &&& r is Err ==> final(self)@ == old(self)@
                },
                Operation::BubbleSort | Operation::InsertionSort | Operation::QuickSort | Operation::SelectionSort
                | Operation::MergeSort => r is Ok && sorted(final(self)@) && permutes(final(self)@, old(self)@),
                Operation::BinarySearch(target) => {
                    &&& r is Ok
                    &&& final(self)@ == old(self)@
                    &&& !old(self)@.contains(target) ==> flagged(r->Ok_0@.last(), "found"@, false)
                    &&& sorted(old(self)@) && old(self)@.contains(target) ==> flagged(r->Ok_0@.last(), "found"@, true)
                },
                _ => r is Err && final(self)@ == old(self)@,
            },
    {
        match operation {
            Operation::BubbleSort => bubble_sort_with_steps(&mut self.elements),
            Operation::InsertionSort => insertion_sort_with_steps(&mut self.elements),
            Operation::QuickSort => quick_sort_with_steps(&mut self.elements),
            Operation::SelectionSort => selection_sort_with_steps(&mut self.elements),
            Operation::MergeSort => merge_sort_with_steps(&mut self.elements),
            Operation::BinarySearch(target) => binary_search_with_steps(&self.elements, target),
            Operation::Update(index, value) => {
                let old_value = match self.get(index) {
                    Err(e) => return Err(e),
                    Ok(v) => v,
                };
                let mut steps = vec![step(
                    join(&vec![
                        lit("Updating index "), index_text(index), lit(" from "), int_text(old_value as i64),
                        lit(" to "), int_text(value as i64),
                    ]),
                    vec![index],
                    vec![],
                    vec![
                        meta_text("operation", "update"), meta_index("index", index),
                        meta_int("old_value", old_value as i64), meta_int("new_value", value as i64),
                    ],
                )];
                let _ = self.update(index, value);
                steps.push(step(
                    join(&vec![lit("Updated index "), index_text(index), lit(" to "), int_text(value as i64)]),
                    vec![],
                    vec![index],
                    vec![],
                ));
                Ok(steps)
            },
            Operation::Insert(index, value) => {
                let mut steps = vec![step(
                    join(&vec![lit("Inserting "), int_text(value as i64), lit(" at index "), index_text(index)]),
                    vec![index],
                    vec![],
                    vec![meta_text("operation", "insert"), meta_int("value", value as i64), meta_index("index", index)],
                )];
                if index < self.elements.len() {
                    steps.push(step(lit("Shifting elements to make room"), index_range(index, self.elements.len()), vec![], vec![]));
                }
                match self.insert(index, value) {
                    Err(e) => Err(e),
                    Ok(()) => {
                        steps.push(step(lit("Insertion complete"), vec![], vec![index], vec![]));
                        Ok(steps)
                    },
                }
            },
            Operation::Delete(index) => {
                let value = match self.get(index) {
                    Err(e) => return Err(e),
                    Ok(v) => v,
                };
                let mut steps = vec![step(
                    join(&vec![lit("Deleting element "), int_text(value as i64), lit(" at index "), index_text(index)]),
                    vec![index],
                    vec![],
                    vec![],
                )];
                let _ = self.delete(index);
                if index < self.elements.len() {
                    steps.push(step(lit("Shifting elements to fill gap"), index_range(index, self.elements.len()), vec![], vec![]));
                }
                steps.push(note("Deletion complete"));
                Ok(steps)
            },
            Operation::Search(target) => {
                let mut steps: Vec<Step> = Vec::new();
                let mut i: usize = 0;
                while i < self.elements.len()
                    invariant
                        *self == *old(self),
                        operation == Operation::Search(target),
                        i <= self.elements@.len(),
                        forall|j: int| 0 <= j < i ==> self.elements@[j] != target,
                    decreases self.elements@.len() - i,
                {
                    let value = self.elements[i];
                    steps.push(step(
                        join(&vec![lit("Checking index "), index_text(i), lit(": "), int_text(value as i64)]),
                        vec![i],
                        vec![],
                        vec![meta_int("checking", value as i64), meta_int("target", target as i64)],
                    ));
                    if value == target {
                        steps.push(step(
                            join(&vec![lit("Found "), int_text(target as i64), lit(" at index "), index_text(i)]),
                            vec![],
                            vec![i],
                            vec![meta_flag("found", true)],
                        ));
                        return Ok(steps);
                    }
                    i = i + 1;
                }
                let last = step(
                    join(&vec![lit("Value "), int_text(target as i64), lit(" not found")]),
                    vec![],
                    vec![],
                    vec![meta_flag("found", false)],
                );
                assert(last.metadata@[0].key@ == "found"@);
                steps.push(last);
                Ok(steps)
            },
            _ => Err(DsavError::InvalidState { reason: lit("Operation not supported for arrays") }),
        }
    }

    /// One cell per value, labelled with its index.
    fn render_state(&self) -> (r: RenderState)
        ensures
            r.elements@.len() == self@.len(),
            forall|i: int| 0 <= i < self@.len() ==> #[trigger] r.elements@[i].value == self@[i],
            r.connections@.len() == 0,
    {
        let mut elements: Vec<RenderElement> = Vec::new();
        let mut i: usize = 0;
        while i < self.elements.len()
            invariant
                i <= self.elements@.len(),
                elements@.len() == i,
                forall|j: int| 0 <= j < i ==> #[trigger] elements@[j].value == self.elements@[j],
            decreases self.elements@.len() - i,
        {
            let value = self.elements[i];
            let e = RenderElement::new(value).with_label(int_text(value as i64));
            elements.push(e.with_sublabel(join(&vec![lit("["), index_text(i), lit("]")])));
            i = i + 1;
        }
        RenderState { elements, connections: Vec::new() }
    }
}

} // verus!
