use vstd::prelude::*;

verus! {

/// Why a region could not be tallied.
#[derive(Debug, PartialEq, Eq)]
pub enum SiftError {
    /// The interval is empty or inverted (`start >= end`).
    Region,
    /// The alignment source could not seek to or scan the region.
    Io(String),
    /// More reads, or more aligned pairs in one read, than the counters
    /// can take (`u32::MAX`).
    Overflow,
}

} // verus!
