//! Marker roles for the generic decoding path.
//!
//! A [`TextRangeMarker`] declares what a sentinel character (or a pair of
//! them) stands for when an annotated text is decoded: a zero-width point,
//! a forward range, or a reversed range.

use vstd::prelude::*;

verus! {

/// The caller's declaration of what a sentinel character (or pair) denotes.
#[derive(Clone, Copy, Debug, PartialEq, Eq, Hash, Structural)]
pub enum TextRangeMarker {
    /// A single character that denotes a zero-width point.
    Empty(char),
    /// A pair whose occurrences pair up positionally into forward ranges
    /// `start..end`.
    Range(char, char),
    /// The same pairing as `Range`, but each pair is emitted swapped, as
    /// `end..start`.
    ReverseRange(char, char),
}

/// The sentinel characters a role declaration refers to, in pairing order.
pub open spec fn role_chars(role: TextRangeMarker) -> Seq<char> {
    match role {
        TextRangeMarker::Empty(c) => seq![c],
        TextRangeMarker::Range(a, b) => seq![a, b],
        TextRangeMarker::ReverseRange(a, b) => seq![a, b],
    }
}

/// Whether a role declaration refers to the character `c`.
pub open spec fn role_has_char(role: TextRangeMarker, c: char) -> bool {
    match role {
        TextRangeMarker::Empty(m) => c == m,
        TextRangeMarker::Range(a, b) => c == a || c == b,
        TextRangeMarker::ReverseRange(a, b) => c == a || c == b,
    }
}

/// A role's character sequence holds exactly the characters the role
/// refers to.
pub proof fn lemma_role_chars_has(role: TextRangeMarker, c: char)
    ensures
        role_chars(role).contains(c) <==> role_has_char(role, c),
{
    if role_chars(role).contains(c) {
        let k = choose|k: int| 0 <= k < role_chars(role).len() && role_chars(role)[k] == c;
    }
    if role_has_char(role, c) {
        match role {
            TextRangeMarker::Empty(m) => {
                assert(role_chars(role)[0] == m);
            },
            TextRangeMarker::Range(a, b) => {
                assert(role_chars(role)[0] == a);
                assert(role_chars(role)[1] == b);
            },
            TextRangeMarker::ReverseRange(a, b) => {
                assert(role_chars(role)[0] == a);
                assert(role_chars(role)[1] == b);
            },
        }
    }
}

impl TextRangeMarker {
    /// The sentinel characters this role refers to.
    pub fn markers(&self) -> (chars: Vec<char>)
        ensures
            chars@ == role_chars(*self),
    {
        match self {
            Self::Empty(m) => vec![*m],
            Self::Range(l, r) => vec![*l, *r],
            Self::ReverseRange(l, r) => vec![*l, *r],
        }
    }
}

impl From<char> for TextRangeMarker {
    /// A bare character denotes a zero-width point.
    fn from(marker: char) -> (role: Self) {
        Self::Empty(marker)
    }
}

impl vstd::std_specs::convert::FromSpecImpl<char> for TextRangeMarker {
    open spec fn obeys_from_spec() -> bool {
        true
    }

    open spec fn from_spec(marker: char) -> Self {
        TextRangeMarker::Empty(marker)
    }
}

impl From<(char, char)> for TextRangeMarker {
    /// A pair of characters denotes a forward range.
    fn from(pair: (char, char)) -> (role: Self) {
        Self::Range(pair.0, pair.1)
    }
}

impl vstd::std_specs::convert::FromSpecImpl<(char, char)> for TextRangeMarker {
    open spec fn obeys_from_spec() -> bool {
        true
    }

    open spec fn from_spec(pair: (char, char)) -> Self {
        TextRangeMarker::Range(pair.0, pair.1)
    }
}

} // verus!
