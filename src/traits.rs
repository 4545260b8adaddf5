//! The step record, the operations a structure can be asked to perform, and
//! the capability every instrumented structure offers.

use vstd::prelude::*;
use crate::error::DsavError;
use crate::state::RenderState;
use crate::text::lit;

verus! {

/// One value of a step's metadata.
#[derive(Debug, Clone)]
pub enum MetaValue {
    Int(i64),
    Index(usize),
    Flag(bool),
    Text(String),
    Ints(Vec<i64>),
    Texts(Vec<String>),
}

/// A named value of a step's metadata.
#[derive(Debug, Clone)]
pub struct MetaEntry {
    pub key: String,
    pub value: MetaValue,
}

/// One atomic change or observation, recorded for replay.
#[derive(Debug, Clone)]
pub struct Step {
    pub description: String,
    pub highlight_indices: Vec<usize>,
    pub active_indices: Vec<usize>,
    pub metadata: Vec<MetaEntry>,
}

/// A request a structure can be asked to perform.
#[derive(Debug, Clone, Copy, PartialEq, Eq, Structural)]
pub enum Operation {
    Insert(usize, i32),
    Delete(usize),
    Search(i32),
    BinarySearch(i32),
    Traverse,
    PreOrderTraverse,
    PostOrderTraverse,
    LevelOrderTraverse,
    Push(i32),
    Pop,
    Enqueue(i32),
    Dequeue,
    BubbleSort,
    InsertionSort,
    QuickSort,
    Update(usize, i32),
    SelectionSort,
    MergeSort,
}

/// Whether `e` is the entry `key` holding the text `v`.
pub open spec fn text_entry(e: MetaEntry, key: Seq<char>, v: Seq<char>) -> bool {
    e.key@ == key && e.value is Text && e.value->Text_0@ == v
}

/// Whether `step`'s metadata holds the flag `key` set to `b`.
pub open spec fn flagged(step: Step, key: Seq<char>, b: bool) -> bool {
    exists|i: int|
        0 <= i < step.metadata@.len() && step.metadata@[i].key@ == key
            && step.metadata@[i].value == MetaValue::Flag(b)
}

pub(crate) fn meta_int(key: &str, v: i64) -> (r: MetaEntry)
    ensures
        r.key@ == key@,
        r.value == MetaValue::Int(v),
{
    MetaEntry { key: lit(key), value: MetaValue::Int(v) }
}

pub(crate) fn meta_index(key: &str, i: usize) -> (r: MetaEntry)
    ensures
        r.key@ == key@,
        r.value == MetaValue::Index(i),
{
    MetaEntry { key: lit(key), value: MetaValue::Index(i) }
}

pub(crate) fn meta_flag(key: &str, b: bool) -> (r: MetaEntry)
    ensures
        r.key@ == key@,
        r.value == MetaValue::Flag(b),
{
    MetaEntry { key: lit(key), value: MetaValue::Flag(b) }
}

pub(crate) fn meta_text(key: &str, v: &str) -> (r: MetaEntry)
    ensures
        r.key@ == key@,
        r.value is Text && r.value->Text_0@ == v@,
{
    MetaEntry { key: lit(key), value: MetaValue::Text(lit(v)) }
}

pub(crate) fn meta_ints(key: &str, v: Vec<i64>) -> (r: MetaEntry)
    ensures
        r.key@ == key@,
        r.value == MetaValue::Ints(v),
{
    MetaEntry { key: lit(key), value: MetaValue::Ints(v) }
}

pub(crate) fn meta_texts(key: &str, v: Vec<String>) -> (r: MetaEntry)
    ensures
        r.key@ == key@,
        r.value == MetaValue::Texts(v),
{
    MetaEntry { key: lit(key), value: MetaValue::Texts(v) }
}

/// The indices `from..to`, in order.
pub(crate) fn index_range(from: usize, to: usize) -> (r: Vec<usize>)
    ensures
        r@.len() == if from <= to { to - from } else { 0 },
        forall|k: int| 0 <= k < r@.len() ==> r@[k] == from + k,
{
    let mut r: Vec<usize> = Vec::new();
    let mut i = from;
    while i < to
        invariant
            from <= i <= to || (from > to && i == from),
            r@.len() == i - from,
            forall|k: int| 0 <= k < r@.len() ==> r@[k] == from + k,
        decreases to - i,
    {
        r.push(i);
        i = i + 1;
    }
    r
}

/// A step with a description and nothing else.
pub(crate) fn note(text: &str) -> (r: Step)
    ensures
        r.description@ == text@,
        r.highlight_indices@.len() == 0,
        r.active_indices@.len() == 0,
        r.metadata@.len() == 0,
{
    Step { description: lit(text), highlight_indices: Vec::new(), active_indices: Vec::new(), metadata: Vec::new() }
}

/// A step built from its four parts.
pub(crate) fn step(description: String, highlight: Vec<usize>, active: Vec<usize>, metadata: Vec<MetaEntry>) -> (r: Step)
    ensures
        r.description == description,
        r.highlight_indices == highlight,
        r.active_indices == active,
        r.metadata == metadata,
{
    Step { description, highlight_indices: highlight, active_indices: active, metadata }
}

/// An instrumented structure: it performs an operation while recording each
/// change as a step, and projects its state for display.
pub trait Visualizable {
    /// The structure's internal invariant.
    spec fn well_formed(&self) -> bool;

    /// Performs `operation`, returning the steps that describe it in order,
    /// or an error naming why the structure cannot perform it.
    fn execute_with_steps(&mut self, operation: Operation) -> (r: Result<Vec<Step>, DsavError>)
        requires
            old(self).well_formed(),
        ensures
            final(self).well_formed(),
    ;

    /// A snapshot of the current state, for display.
    fn render_state(&self) -> RenderState
        requires
            self.well_formed(),
    ;
}

} // verus!
