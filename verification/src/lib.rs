//! A directory tree with aggregated sizes: its model, a traversal that
//! builds it one filesystem read at a time, and a renderer that draws it as
//! indented text.
//!
//! The library reads nothing itself. A [`walk::Walk`] says which read it
//! needs next and takes the answer; the caller performs the reads. What the
//! traversal does with each answer is given in [`plan`] as a state machine
//! over mathematical models, and [`rebuild`] proves that a traversal of a
//! filesystem that looks like a given tree ends with exactly that tree.

pub mod described;
pub mod entry;
pub mod listing;
pub mod path;
pub mod plan;
pub mod rebuild;
pub mod render;
pub mod text;
pub mod walk;
