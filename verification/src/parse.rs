//! The fixed-grammar cursor/range parser.
//!
//! The grammar has three sentinel characters: `«` opens a range, `»` closes
//! it, and `ˇ` marks a point.  A point met outside a pending range is a
//! standalone zero-width range; a point met inside a pending range records
//! which end of that range carries the cursor.  A range whose point sits at
//! its open boundary is emitted reversed (`start > end`); one whose point
//! sits at its close boundary is emitted forward.  All offsets count scalar
//! values of the stripped output text.

use core::ops::Range;
use vstd::prelude::*;

use crate::error::MarkedTextError;
use crate::extract::offsets_as_ints;
use crate::text::push_char;

verus! {

/// The sentinel character that opens a range.
pub const OPEN_MARKER: char = '«';

/// The sentinel character that closes a range.
pub const CLOSE_MARKER: char = '»';

/// The sentinel character that marks a point.
pub const POINT_MARKER: char = 'ˇ';

/// The three sentinel characters of the fixed grammar.
pub open spec fn grammar_markers() -> Seq<char> {
    seq![OPEN_MARKER, CLOSE_MARKER, POINT_MARKER]
}

/// The parser's state between two characters of the input: the stripped
/// text built so far, the ranges emitted so far in closing order, and the
/// pending open and point offsets, if any.
#[verifier::ext_equal]
pub struct ParseState {
    /// The stripped text accumulated so far.
    pub out: Seq<char>,
    /// The emitted ranges, each as `(start, end)` offsets into `out`.
    pub ranges: Seq<(int, int)>,
    /// The offset of the pending open marker, if one is pending.
    pub open_at: Option<int>,
    /// The offset of the point marker recorded for the pending range.
    pub point_at: Option<int>,
}

/// The state in which parsing begins: nothing stripped, nothing emitted,
/// nothing pending.
pub open spec fn initial_state() -> ParseState {
    ParseState { out: Seq::empty(), ranges: Seq::empty(), open_at: None, point_at: None }
}

/// One step of the parser: consume the character `c` in state `st`.
pub open spec fn parse_step(st: ParseState, c: char, indicate_cursors: bool) -> Result<
    ParseState,
    MarkedTextError,
> {
    let at = st.out.len() as int;
    if c == POINT_MARKER {
        match st.open_at {
            None => Ok(ParseState { ranges: st.ranges.push((at, at)), ..st }),
            Some(_) => match st.point_at {
                Some(_) => Err(MarkedTextError::DuplicatePoint),
                None => Ok(ParseState { point_at: Some(at), ..st }),
            },
        }
    } else if c == OPEN_MARKER {
        match st.open_at {
            Some(_) => Err(MarkedTextError::NestedOpen),
            None => Ok(ParseState { open_at: Some(at), ..st }),
        }
    } else if c == CLOSE_MARKER {
        match st.open_at {
            None => Err(MarkedTextError::UnmatchedClose),
            Some(start) => match st.point_at {
                Some(p) => if p == start {
                    Ok(
                        ParseState {
                            ranges: st.ranges.push((at, start)),
                            open_at: None,
                            point_at: None,
                            ..st
                        },
                    )
                } else if p == at {
                    Ok(
                        ParseState {
                            ranges: st.ranges.push((start, at)),
                            open_at: None,
                            point_at: None,
                            ..st
                        },
                    )
                } else {
                    Err(MarkedTextError::InteriorPoint)
                },
                None => if indicate_cursors {
                    Err(MarkedTextError::MissingDirection)
                } else {
                    Ok(
                        ParseState {
                            ranges: st.ranges.push((start, at)),
                            open_at: None,
                            point_at: None,
                            ..st
                        },
                    )
                },
            },
        }
    } else {
        Ok(ParseState { out: st.out.push(c), ..st })
    }
}

/// Run the parser from state `st` over the remaining text.
pub open spec fn parse_from(st: ParseState, text: Seq<char>, indicate_cursors: bool) -> Result<
    ParseState,
    MarkedTextError,
>
    decreases text.len(),
{
    if text.len() == 0 {
        Ok(st)
    } else {
        match parse_step(st, text[0], indicate_cursors) {
            Ok(st2) => parse_from(st2, text.drop_first(), indicate_cursors),
            Err(e) => Err(e),
        }
    }
}

/// What parsing an annotated text yields: the stripped text and the emitted
/// ranges, or the first failure met while scanning left to right.  A range
/// still pending at the end of the input is a failure of its own.
pub open spec fn parse_marked(text: Seq<char>, indicate_cursors: bool) -> Result<
    (Seq<char>, Seq<(int, int)>),
    MarkedTextError,
> {
    match parse_from(initial_state(), text, indicate_cursors) {
        Ok(st) => match st.open_at {
            Some(_) => Err(MarkedTextError::UnclosedOpen),
            None => Ok((st.out, st.ranges)),
        },
        Err(e) => Err(e),
    }
}

/// The emitted ranges of a machine-level range list, as `(start, end)`
/// pairs of mathematical integers.
pub open spec fn range_pairs(ranges: Seq<Range<usize>>) -> Seq<(int, int)> {
    Seq::new(ranges.len(), |i: int| (ranges[i].start as int, ranges[i].end as int))
}

/// A machine-level offset option, as a mathematical-integer option.
pub open spec fn opt_offset(offset: Option<usize>) -> Option<int> {
    match offset {
        None => None,
        Some(v) => Some(v as int),
    }
}

/// The parser state the executable scanner is in, assembled from its local
/// variables.
pub open spec fn exec_state(
    out: Seq<char>,
    ranges: Seq<Range<usize>>,
    open_at: Option<usize>,
    point_at: Option<usize>,
) -> ParseState {
    ParseState {
        out,
        ranges: range_pairs(ranges),
        open_at: opt_offset(open_at),
        point_at: opt_offset(point_at),
    }
}

/// Parse an annotated text against the fixed three-symbol grammar: strip
/// the sentinel characters and return the ranges they encode, in the order
/// the ranges were closed.
///
/// With `indicate_cursors` every closed range must carry a point marker at
/// one boundary; without it, a closed range without a point marker is
/// emitted forward.
pub fn marked_text_ranges(input_text: &str, indicate_cursors: bool) -> (res: Result<
    (String, Vec<Range<usize>>),
    MarkedTextError,
>)
    ensures
        res is Ok <==> parse_marked(input_text@, indicate_cursors) is Ok,
        res matches Ok(r) ==> parse_marked(input_text@, indicate_cursors) == Ok::<
            _,
            MarkedTextError,
        >((r.0@, range_pairs(r.1@))),
        res matches Err(e) ==> parse_marked(input_text@, indicate_cursors) == Err::<
            (Seq<char>, Seq<(int, int)>),
            _,
        >(e),
{
    let len = input_text.unicode_len();
    let mut output_text = String::new();
    let mut out_len: usize = 0;
    let mut ranges: Vec<Range<usize>> = Vec::new();
    let mut current_range_start: Option<usize> = None;
    let mut current_range_cursor: Option<usize> = None;
    let mut i: usize = 0;
    proof {
        assert(range_pairs(ranges@) =~= Seq::<(int, int)>::empty());
        assert(exec_state(output_text@, ranges@, current_range_start, current_range_cursor)
            =~= initial_state());
        assert(input_text@.skip(0) =~= input_text@);
    }
    while i < len
        invariant
            i <= len,
            len == input_text@.len(),
            out_len == output_text@.len(),
            out_len <= i,
            parse_from(initial_state(), input_text@, indicate_cursors) == parse_from(
                exec_state(output_text@, ranges@, current_range_start, current_range_cursor),
                input_text@.skip(i as int),
                indicate_cursors,
            ),
        decreases len - i,
    {
        let ghost st = exec_state(
            output_text@,
            ranges@,
            current_range_start,
            current_range_cursor,
        );
        let ch = input_text.get_char(i);
        proof {
            assert(input_text@.skip(i as int).len() > 0);
            assert(input_text@.skip(i as int)[0] == input_text@[i as int]);
            assert(input_text@.skip(i as int).drop_first() =~= input_text@.skip(i + 1));
        }
        if ch == POINT_MARKER {
            if current_range_start.is_some() {
                if current_range_cursor.is_some() {
                    return Err(MarkedTextError::DuplicatePoint);
                } else {
                    current_range_cursor = Some(out_len);
                }
            } else {
                ranges.push(Range { start: out_len, end: out_len });
                proof {
                    assert(range_pairs(ranges@) =~= st.ranges.push(
                        (out_len as int, out_len as int),
                    ));
                }
            }
        } else if ch == OPEN_MARKER {
            if current_range_start.is_some() {
                return Err(MarkedTextError::NestedOpen);
            }
            current_range_start = Some(out_len);
        } else if ch == CLOSE_MARKER {
            let start = match current_range_start {
                Some(start) => start,
                None => {
                    return Err(MarkedTextError::UnmatchedClose);
                },
            };
            current_range_start = None;
            let mut reversed = false;
            match current_range_cursor {
                Some(cursor) => {
                    current_range_cursor = None;
                    if cursor == start {
                        reversed = true;
                    } else if cursor != out_len {
                        return Err(MarkedTextError::InteriorPoint);
                    }
                },
                None => {
                    if indicate_cursors {
                        return Err(MarkedTextError::MissingDirection);
                    }
                },
            }
            if reversed {
                ranges.push(Range { start: out_len, end: start });
                proof {
                    assert(range_pairs(ranges@) =~= st.ranges.push((out_len as int, start as int)));
                }
            } else {
                ranges.push(Range { start, end: out_len });
                proof {
                    assert(range_pairs(ranges@) =~= st.ranges.push((start as int, out_len as int)));
                }
            }
        } else {
            push_char(&mut output_text, ch);
            out_len = out_len + 1;
        }
        proof {
            let st2 = exec_state(
                output_text@,
                ranges@,
                current_range_start,
                current_range_cursor,
            );
            assert(parse_step(st, input_text@[i as int], indicate_cursors) == Ok::<
                _,
                MarkedTextError,
            >(st2));
        }
        i += 1;
    }
    proof {
        assert(input_text@.skip(len as int) =~= Seq::<char>::empty());
    }
    if current_range_start.is_some() {
        return Err(MarkedTextError::UnclosedOpen);
    }
    Ok((output_text, ranges))
}

/// Every emitted range is degenerate: a zero-width point.
pub open spec fn degenerate_points(ranges: Seq<(int, int)>) -> bool {
    forall|k: int| 0 <= k < ranges.len() ==> (#[trigger] ranges[k]).0 == ranges[k].1
}

/// What parsing a points-only annotated text yields: the stripped text and
/// the point offsets, or a failure.  Any non-degenerate range is a failure.
pub open spec fn parse_points(text: Seq<char>) -> Result<(Seq<char>, Seq<int>), MarkedTextError> {
    match parse_marked(text, false) {
        Ok(r) => if degenerate_points(r.1) {
            Ok((r.0, Seq::new(r.1.len(), |k: int| r.1[k].0)))
        } else {
            Err(MarkedTextError::NonDegenerateRange)
        },
        Err(e) => Err(e),
    }
}

/// Parse an annotated text that may only carry point markers: strip the
/// sentinel characters and return the point offsets in order of appearance.
pub fn marked_text_offsets(marked_text: &str) -> (res: Result<
    (String, Vec<usize>),
    MarkedTextError,
>)
    ensures
        res is Ok <==> parse_points(marked_text@) is Ok,
        res matches Ok(r) ==> parse_points(marked_text@) == Ok::<_, MarkedTextError>(
            (r.0@, offsets_as_ints(r.1@)),
        ),
        res matches Err(e) ==> parse_points(marked_text@) == Err::<(Seq<char>, Seq<int>), _>(e),
{
    let (text, ranges) = match marked_text_ranges(marked_text, false) {
        Ok(r) => r,
        Err(e) => {
            return Err(e);
        },
    };
    let mut offsets: Vec<usize> = Vec::new();
    let mut k: usize = 0;
    while k < ranges.len()
        invariant
            k <= ranges@.len(),
            parse_marked(marked_text@, false) matches Ok(r) && r.0 == text@ && r.1 == range_pairs(
                ranges@,
            ),
            forall|j: int|
                0 <= j < k ==> (#[trigger] ranges@[j]).start == ranges@[j].end,
            offsets@.len() == k,
            forall|j: int| 0 <= j < k ==> (#[trigger] offsets@[j]) == ranges@[j].start,
        decreases ranges@.len() - k,
    {
        let r = &ranges[k];
        if r.start != r.end {
            proof {
                assert(!degenerate_points(range_pairs(ranges@))) by {
                    assert((range_pairs(ranges@)[k as int]).0 != range_pairs(ranges@)[k as int].1);
                }
            }
            return Err(MarkedTextError::NonDegenerateRange);
        }
        offsets.push(r.start);
        k += 1;
    }
    proof {
        assert forall|j: int| 0 <= j < range_pairs(ranges@).len() implies (#[trigger] range_pairs(
            ranges@,
        )[j]).0 == range_pairs(ranges@)[j].1 by {
            assert(ranges@[j].start == ranges@[j].end);
        }
        assert(degenerate_points(range_pairs(ranges@)));
        assert(offsets_as_ints(offsets@) =~= Seq::new(
            range_pairs(ranges@).len(),
            |j: int| range_pairs(ranges@)[j].0,
        ));
    }
    Ok((text, offsets))
}

} // verus!
