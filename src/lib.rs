//! Instrumented data structures whose every mutation is recorded as a
//! replayable step, centred on a red-black tree engine.

pub mod array;
pub mod bst;
pub mod error;
pub mod linked_list;
pub mod queue;
pub mod rb_tree;
pub mod sorting;
pub mod stack;
pub mod state;
pub mod text;
pub mod theme;
pub mod traits;

pub use array::VisualizableArray;
pub use bst::VisualizableBST;
pub use error::DsavError;
pub use linked_list::VisualizableLinkedList;
pub use queue::VisualizableQueue;
pub use rb_tree::{Color, VisualizableRBTree};
pub use sorting::{
    binary_search_with_steps, bubble_sort_with_steps, insertion_sort_with_steps, merge_sort_with_steps,
    quick_sort_with_steps, selection_sort_with_steps,
};
pub use stack::VisualizableStack;
pub use state::{ElementState, RenderElement, RenderState};
pub use theme::Theme;
pub use traits::{MetaEntry, MetaValue, Operation, Step, Visualizable};
