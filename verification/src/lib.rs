//! An incremental parser-combinator engine: parsers are values that consume
//! input delivered in fragments and may suspend when a fragment runs out.
//!
//! A parser is started on a fragment with `init`, which declines, is done,
//! or suspends with a state; the state is resumed on each further fragment
//! with `more`, and finished with `done` when no input is left. What each
//! parser may do is stated as a relation between the fragment it is handed,
//! the result it hands back and what it leaves of the fragment, and every
//! parser is proved to yield, over an input cut into fragments, nothing that
//! it could not yield over the same input in one piece.

pub mod contract;
pub mod stream;
pub mod adapt;
pub mod leaf;
pub mod transform;
pub mod choice;
pub mod sequence;
pub mod repeat;
pub mod buffer;
pub mod erase;
pub mod fragments;
