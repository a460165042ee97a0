//! Sorting algorithms that record, step by step, the operations they perform, so that
//! the operations can be replayed on the input (for instance to animate the sort), and
//! the state machine of a viewer that shows such a replay one operation per tick.
//!
//! - `key`: the element types that can be sorted and the order on them;
//! - `operation`: the operations, what replaying them does, and the laws of replay;
//! - `order`: sortedness, permutations and the facts about them that the sorts use;
//! - `exchange`, `selection`, `insertion`, `merge`, `quick`, `heap`: the algorithms;
//! - `algorithm`: the choice of algorithm;
//! - `visualizer`: the viewer's state and its transitions;
//! - `random`: shuffling.

pub mod algorithm;
pub mod exchange;
pub mod heap;
pub mod insertion;
pub mod key;
pub mod merge;
pub mod operation;
pub mod order;
pub mod quick;
mod random;
pub mod selection;
pub mod visualizer;

pub use algorithm::Algorithm;
pub use key::SortKey;
pub use operation::Operation;
