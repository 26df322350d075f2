//! The failure conditions of decoding annotated text.
//!
//! Every failure here is of the malformed-fixture kind: the annotated input
//! breaks an invariant of the marker grammar, the whole call is aborted, and
//! the variant says which invariant was broken.

use vstd::prelude::*;

verus! {

/// Why decoding an annotated text failed.
#[derive(Clone, Copy, Debug, PartialEq, Eq, Structural)]
pub enum MarkedTextError {
    /// A range role saw a different number of start and end markers.
    UnbalancedMarkers,
    /// A range role paired an end marker with a later start marker.
    MisorderedRange,
    /// A range-open marker appeared while another range was still pending.
    NestedOpen,
    /// A range-close marker appeared with no pending open marker.
    UnmatchedClose,
    /// A second point marker appeared inside one pending range.
    DuplicatePoint,
    /// A point marker sat strictly inside a range body, not at a boundary.
    InteriorPoint,
    /// A closed range carried no point marker although direction indication
    /// was required.
    MissingDirection,
    /// A range-open marker was never closed before the end of the input.
    UnclosedOpen,
    /// A non-degenerate range appeared where only point markers were allowed.
    NonDegenerateRange,
}

} // verus!
