use vstd::prelude::*;

verus! {

/// Why a recognition step could not produce its result.
#[derive(Debug, Clone, Copy, PartialEq, Eq, Structural)]
pub enum RecError {
    /// The page-number marks read as no number, or as one too large for `u32`.
    PageNumberUnreadable,
    /// The page-number marks read as page zero.
    PageNumberZero,
    /// Neither margin shows the marked number of assist marks.
    AssistColumnsMismatch,
    /// One margin misses, or has extra, more assist marks than can be aligned.
    AssistCountOff,
    /// A box reaches outside the summed-area table it is measured on.
    BoxOutsideTable,
}

} // verus!
