//! A persistent ordered map backed by a balanced multiway search tree.
//!
//! The map offers two update disciplines over one structure: a functional
//! path that returns a new version and leaves every prior version
//! observably unchanged (untouched subtrees are shared by reference), and
//! an in-place path that reuses exclusively owned nodes and clones shared
//! ones before writing (copy-on-write).

use vstd::prelude::*;

pub mod node;
pub mod rawmap;
pub mod seqmap;

verus! {

pub use node::Node;
pub use rawmap::RawMap;

} // verus!
