//! Render projection types: a flat, indexed snapshot of a structure.

use vstd::prelude::*;
use crate::text::int_text;

verus! {

/// A snapshot of a structure for a presentation layer.
#[derive(Debug, Clone)]
pub struct RenderState {
    pub elements: Vec<RenderElement>,
    pub connections: Vec<(usize, usize)>,
}

/// One cell of a snapshot.
#[derive(Debug, Clone)]
pub struct RenderElement {
    pub value: i32,
    pub state: ElementState,
    pub label: String,
    pub sublabel: String,
}

/// How a cell is drawn.
#[derive(Debug, Clone, Copy, PartialEq, Eq, Structural)]
pub enum ElementState {
    Normal,
    Highlighted,
    Active,
    Sorted,
    Comparing,
    Swapping,
}

impl RenderElement {
    /// A plain cell labelled with its value.
    pub fn new(value: i32) -> (r: Self)
        ensures
            r.value == value,
            r.state == ElementState::Normal,
            r.label@ == crate::text::decimal(value as int),
            r.sublabel@ == Seq::<char>::empty(),
    {
        RenderElement { value, state: ElementState::Normal, label: int_text(value as i64), sublabel: String::new() }
    }

    pub fn with_label(self, label: String) -> (r: Self)
        ensures
            r.value == self.value,
            r.state == self.state,
            r.label == label,
            r.sublabel == self.sublabel,
    {
        let mut s = self;
        s.label = label;
        s
    }

    pub fn with_sublabel(self, sublabel: String) -> (r: Self)
        ensures
            r.value == self.value,
            r.state == self.state,
            r.label == self.label,
            r.sublabel == sublabel,
    {
        let mut s = self;
        s.sublabel = sublabel;
        s
    }

    pub fn with_state(self, state: ElementState) -> (r: Self)
        ensures
            r.value == self.value,
            r.state == state,
            r.label == self.label,
            r.sublabel == self.sublabel,
    {
        let mut s = self;
        s.state = state;
        s
    }
}

} // verus!
