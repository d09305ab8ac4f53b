//! Navigation core of an interactive disk-usage browser.
//!
//! The filesystem tree is a directed graph of entries, built and grown by an
//! external scanner; this crate only reads it. On top of that tree it offers
//! a deterministic sorted view of a node's children and a small state machine
//! that moves a cursor through the tree (drill up, drill down, move the
//! selection, toggle the sort order, quit).
use vstd::prelude::*;

pub mod interactive;
pub mod sort;
pub mod traverse;

pub use sort::sorted_entries;
pub use sort::Sorting;

verus! {

/// How byte sizes are rendered by the display collaborator.
/// The navigation core only carries this value through.
#[derive(Clone, Copy, Debug, PartialEq, Eq, Structural)]
pub enum ByteFormat {
    Metric,
    Binary,
    Bytes,
}

/// Terminal colour handling, carried through to the renderer.
#[derive(Clone, Copy, Debug, PartialEq, Eq, Structural)]
pub enum Color {
    Off,
    Terminal,
}

/// Session-wide configuration for a filesystem walk and its display.
#[derive(Clone, Copy, Debug, PartialEq, Eq, Structural)]
pub struct WalkOptions {
    pub threads: usize,
    pub byte_format: ByteFormat,
    pub color: Color,
    pub sorting: Sorting,
}

/// Aggregate outcome of a session: how many entries the scan could not stat.
#[derive(Clone, Copy, Debug, PartialEq, Eq, Structural)]
pub struct WalkResult {
    pub num_errors: u64,
}

} // verus!
