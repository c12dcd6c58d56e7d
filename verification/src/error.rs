use vstd::prelude::*;

verus! {

/// Why an operation on a segment was refused.
#[derive(Clone, Copy, Debug, PartialEq, Eq, Structural)]
pub enum SegmentError {
    /// The key is empty or holds the delimiter byte.
    InvalidKey,
    /// A byte range reaches past the end of the region.
    OutOfBounds,
    /// The region may not become as long as was asked.
    GrowFailed,
    /// Fewer than eight bytes were offered as a footer.
    TruncatedFooter,
    /// The footer points outside the region, or the bytes it points at are
    /// not a well-formed snapshot.
    CorruptIndex,
    /// The region is too short to hold a footer.
    EmptySegment,
    /// The current snapshot has no entry for the key.
    KeyNotFound,
}

} // verus!
