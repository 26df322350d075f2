//! The laws the codec obeys, stated and proved over the specification
//! functions of the other modules.

use vstd::prelude::*;

use crate::extract::char_offsets;
use crate::extract::stripped;
use crate::marker::TextRangeMarker;
use crate::parse::initial_state;
use crate::parse::parse_from;
use crate::parse::parse_marked;
use crate::parse::parse_step;
use crate::parse::ParseState;
use crate::parse::CLOSE_MARKER;
use crate::parse::OPEN_MARKER;
use crate::parse::POINT_MARKER;
use crate::render::insert_range_markers;
use crate::render::lemma_rendered_append;
use crate::render::lemma_rendered_push;
use crate::render::rendered;
use crate::roles::avail_offsets;
use crate::roles::first_role_error;
use crate::roles::role_ends;
use crate::roles::role_error;
use crate::roles::role_starts;
use crate::roles::roles_chars;

verus! {

/// How many characters of the text are marker characters.
pub open spec fn marker_count(text: Seq<char>, markers: Seq<char>) -> nat
    decreases text.len(),
{
    if text.len() == 0 {
        0
    } else {
        marker_count(text.drop_last(), markers) + if markers.contains(text.last()) {
            1nat
        } else {
            0nat
        }
    }
}

/// How often the character `c` occurs in the text.
pub open spec fn char_count(text: Seq<char>, c: char) -> nat
    decreases text.len(),
{
    if text.len() == 0 {
        0
    } else {
        char_count(text.drop_last(), c) + if text.last() == c {
            1nat
        } else {
            0nat
        }
    }
}

/// Offset locality of the extractor: the stripped text is shorter than the
/// input by exactly the number of marker occurrences, and every recorded
/// offset indexes into the stripped text.
pub proof fn lemma_offset_locality(text: Seq<char>, markers: Seq<char>, c: char)
    ensures
        stripped(text, markers).len() + marker_count(text, markers) == text.len(),
        forall|k: int|
            0 <= k < char_offsets(text, markers, c).len() ==> 0 <= #[trigger] char_offsets(
                text,
                markers,
                c,
            )[k] <= stripped(text, markers).len(),
    decreases text.len(),
{
    if text.len() > 0 {
        lemma_offset_locality(text.drop_last(), markers, c);
        let rest = char_offsets(text.drop_last(), markers, c);
        let here = char_offsets(text, markers, c);
        assert forall|k: int| 0 <= k < here.len() implies 0 <= #[trigger] here[k] <= stripped(
            text,
            markers,
        ).len() by {
            if k < rest.len() {
                assert(here[k] == rest[k]);
            } else {
                assert(here[k] == stripped(text.drop_last(), markers).len());
            }
        }
    }
}

/// A marker records one offset per occurrence.
pub proof fn lemma_char_offsets_count(text: Seq<char>, markers: Seq<char>, c: char)
    requires
        markers.contains(c),
    ensures
        char_offsets(text, markers, c).len() == char_count(text, c),
    decreases text.len(),
{
    if text.len() > 0 {
        lemma_char_offsets_count(text.drop_last(), markers, c);
    }
}

/// The stripped text holds no marker character.
proof fn lemma_stripped_marker_free(text: Seq<char>, markers: Seq<char>)
    ensures
        forall|k: int|
            0 <= k < stripped(text, markers).len() ==> !markers.contains(
                #[trigger] stripped(text, markers)[k],
            ),
    decreases text.len(),
{
    if text.len() > 0 {
        lemma_stripped_marker_free(text.drop_last(), markers);
        let rest = stripped(text.drop_last(), markers);
        let here = stripped(text, markers);
        assert forall|k: int| 0 <= k < here.len() implies !markers.contains(
            #[trigger] here[k],
        ) by {
            if k < rest.len() {
                assert(here[k] == rest[k]);
            } else {
                assert(here[k] == text.last());
            }
        }
    }
}

/// Stripping a marker-free text changes nothing and records nothing.
proof fn lemma_strip_marker_free(text: Seq<char>, markers: Seq<char>, c: char)
    requires
        forall|k: int| 0 <= k < text.len() ==> !markers.contains(#[trigger] text[k]),
    ensures
        stripped(text, markers) == text,
        char_offsets(text, markers, c) == Seq::<int>::empty(),
    decreases text.len(),
{
    if text.len() == 0 {
        assert(stripped(text, markers) =~= text);
    } else {
        assert(forall|k: int|
            0 <= k < text.drop_last().len() ==> (#[trigger] text.drop_last()[k]) == text[k]);
        lemma_strip_marker_free(text.drop_last(), markers, c);
        assert(!markers.contains(text.last()));
        assert(stripped(text, markers) =~= text);
    }
}

/// Stripping is idempotent: stripping an already-stripped text with the
/// same markers neither changes it nor records any offset.
pub proof fn lemma_stripping_idempotent(text: Seq<char>, markers: Seq<char>)
    ensures
        stripped(stripped(text, markers), markers) == stripped(text, markers),
        forall|c: char|
            #[trigger] char_offsets(stripped(text, markers), markers, c) == Seq::<int>::empty(),
{
    lemma_stripped_marker_free(text, markers);
    assert forall|c: char| #[trigger] char_offsets(stripped(text, markers), markers, c) == Seq::<
        int,
    >::empty() by {
        lemma_strip_marker_free(stripped(text, markers), markers, c);
    }
    lemma_strip_marker_free(stripped(text, markers), markers, POINT_MARKER);
}

/// A failing role makes the whole decoding fail.
proof fn lemma_role_error_fails(text: Seq<char>, roles: Seq<TextRangeMarker>, i: int)
    requires
        0 <= i < roles.len(),
        role_error(text, roles, i) is Some,
    ensures
        first_role_error(text, roles, 0) is Some,
{
    lemma_role_error_fails_from(text, roles, 0, i);
}

/// A failing role makes every run that covers it fail.
proof fn lemma_role_error_fails_from(text: Seq<char>, roles: Seq<TextRangeMarker>, j: int, i: int)
    requires
        0 <= j <= i < roles.len(),
        role_error(text, roles, i) is Some,
    ensures
        first_role_error(text, roles, j) is Some,
    decreases i - j,
{
    if j < i {
        if role_error(text, roles, j) is None {
            lemma_role_error_fails_from(text, roles, j + 1, i);
        }
    }
}

/// Balance: a pair role over two distinct, not yet consumed characters
/// decodes only if the two occur equally often; unequal counts make the
/// decoding fail.
pub proof fn lemma_balance(
    text: Seq<char>,
    roles: Seq<TextRangeMarker>,
    i: int,
    a: char,
    b: char,
)
    requires
        0 <= i < roles.len(),
        roles[i] == TextRangeMarker::Range(a, b) || roles[i] == TextRangeMarker::ReverseRange(
            a,
            b,
        ),
        a != b,
        !roles_chars(roles.take(i)).contains(a),
        !roles_chars(roles.take(i)).contains(b),
    ensures
        first_role_error(text, roles, 0) is None ==> char_count(text, a) == char_count(text, b),
        char_count(text, a) != char_count(text, b) ==> first_role_error(text, roles, 0) is Some,
{
    crate::marker::lemma_role_chars_has(roles[i], a);
    crate::marker::lemma_role_chars_has(roles[i], b);
    crate::roles::lemma_role_chars_in_all(roles, i, a);
    crate::roles::lemma_role_chars_in_all(roles, i, b);
    lemma_char_offsets_count(text, roles_chars(roles), a);
    lemma_char_offsets_count(text, roles_chars(roles), b);
    assert(role_starts(text, roles, i) == avail_offsets(text, roles, i, a));
    assert(role_ends(text, roles, i) == avail_offsets(text, roles, i, b));
    if char_count(text, a) != char_count(text, b) {
        assert(role_error(text, roles, i) is Some);
        lemma_role_error_fails(text, roles, i);
    }
    if first_role_error(text, roles, 0) is None {
        lemma_first_none_each(text, roles, i);
    }
}

/// When nothing fails, no single role fails.
proof fn lemma_first_none_each(text: Seq<char>, roles: Seq<TextRangeMarker>, i: int)
    requires
        0 <= i < roles.len(),
        first_role_error(text, roles, 0) is None,
    ensures
        role_error(text, roles, i) is None,
    decreases roles.len() - i,
{
    lemma_first_none_from(text, roles, 0, i);
}

/// A run with no first failure has no failure at any position it covers.
proof fn lemma_first_none_from(text: Seq<char>, roles: Seq<TextRangeMarker>, j: int, i: int)
    requires
        0 <= j <= i < roles.len(),
        first_role_error(text, roles, j) is None,
    ensures
        role_error(text, roles, i) is None,
    decreases i - j,
{
    if j < i {
        lemma_first_none_from(text, roles, j + 1, i);
    }
}

/// The largest offset the parser may still emit: the pending open offset
/// while a range is pending, else the length of the stripped text so far.
pub open spec fn state_limit(st: ParseState) -> int {
    match st.open_at {
        Some(po) => po,
        None => st.out.len() as int,
    }
}

/// The parser state is well formed: every emitted offset lies within the
/// stripped text built so far, and the pending offsets are ordered.
pub open spec fn state_inv(st: ParseState) -> bool {
    &&& forall|j: int|
        0 <= j < st.ranges.len() ==> 0 <= (#[trigger] st.ranges[j]).0 <= state_limit(st) && 0 <= st.ranges[j].1 <= state_limit(st)
    &&& match st.open_at {
        Some(po) => 0 <= po <= st.out.len(),
        None => true,
    }
    &&& st.point_at is Some ==> st.open_at is Some
    &&& match (st.open_at, st.point_at) {
        (Some(po), Some(pt)) => po <= pt <= st.out.len(),
        _ => true,
    }
}

/// The annotated text a parser state stands for: its emitted ranges
/// rendered into the stripped text, followed by the pending markers and
/// the stripped text that came after them.
pub open spec fn state_render(st: ParseState) -> Seq<char> {
    match (st.open_at, st.point_at) {
        (None, _) => rendered(st.out, st.ranges, true),
        (Some(po), None) => rendered(st.out.take(po), st.ranges, true) + seq!['«'] + st.out.skip(
            po,
        ),
        (Some(po), Some(pt)) => rendered(st.out.take(po), st.ranges, true) + seq!['«']
            + st.out.subrange(po, pt) + seq!['ˇ'] + st.out.skip(pt),
    }
}

/// No range of the remaining text closes at the very offset it opened:
/// such a range holds nothing but its point marker and renders as a bare
/// point.
pub open spec fn no_empty_closed_from(
    st: ParseState,
    text: Seq<char>,
    indicate_cursors: bool,
) -> bool
    decreases text.len(),
{
    if text.len() == 0 {
        true
    } else {
        !(text[0] == CLOSE_MARKER && st.open_at == Some(st.out.len() as int)) && (
        match parse_step(st, text[0], indicate_cursors) {
            Ok(st2) => no_empty_closed_from(st2, text.drop_first(), indicate_cursors),
            Err(_) => true,
        })
    }
}

/// No range of the annotated text closes at the very offset it opened.
pub open spec fn no_empty_closed(text: Seq<char>) -> bool {
    no_empty_closed_from(initial_state(), text, true)
}

/// One parser step keeps the state well formed and extends the annotated
/// text it stands for by exactly the consumed character.
proof fn lemma_step_render(st: ParseState, c: char)
    requires
        state_inv(st),
        parse_step(st, c, true) is Ok,
        !(c == CLOSE_MARKER && st.open_at == Some(st.out.len() as int)),
    ensures
        parse_step(st, c, true) matches Ok(st2) && state_inv(st2) && state_render(st2)
            == state_render(st).push(c),
{
    let limit = st.out.len() as int;
    match parse_step(st, c, true) {
        Ok(st2) => {
            if c == POINT_MARKER {
                match st.open_at {
                    None => {
                        lemma_rendered_push(st.out, st.ranges, (limit, limit), true);
                        assert(insert_range_markers(st.out, limit, limit, true) =~= st.out
                            + seq!['ˇ']);
                        lemma_rendered_append(st.out, seq!['ˇ'], st.ranges, true);
                        assert(state_render(st2) =~= state_render(st).push(c));
                    },
                    Some(po) => {
                        assert(st.out.subrange(po, limit) =~= st.out.skip(po));
                        assert(st.out.skip(limit) =~= Seq::<char>::empty());
                        assert(state_render(st2) =~= state_render(st).push(c));
                    },
                }
            } else if c == OPEN_MARKER {
                assert(st.out.take(limit) =~= st.out);
                assert(st.out.skip(limit) =~= Seq::<char>::empty());
                assert(state_render(st2) =~= state_render(st).push(c));
            } else if c == CLOSE_MARKER {
                match (st.open_at, st.point_at) {
                    (Some(po), Some(pt)) => {
                        assert(po < limit);
                        if pt == po {
                            lemma_rendered_push(st.out, st.ranges, (limit, po), true);
                            assert(insert_range_markers(st.out, limit, po, true) =~= st.out.take(
                                po,
                            ) + (seq!['«', 'ˇ'] + st.out.skip(po) + seq!['»']));
                            lemma_rendered_append(
                                st.out.take(po),
                                seq!['«', 'ˇ'] + st.out.skip(po) + seq!['»'],
                                st.ranges,
                                true,
                            );
                            assert(st.out.subrange(po, pt) =~= Seq::<char>::empty());
                            assert(state_render(st2) =~= state_render(st).push(c));
                        } else {
                            assert(pt == limit);
                            lemma_rendered_push(st.out, st.ranges, (po, limit), true);
                            assert(insert_range_markers(st.out, po, limit, true) =~= st.out.take(
                                po,
                            ) + (seq!['«'] + st.out.skip(po) + seq!['ˇ', '»']));
                            lemma_rendered_append(
                                st.out.take(po),
                                seq!['«'] + st.out.skip(po) + seq!['ˇ', '»'],
                                st.ranges,
                                true,
                            );
                            assert(st.out.skip(pt) =~= Seq::<char>::empty());
                            assert(state_render(st2) =~= state_render(st).push(c));
                        }
                    },
                    _ => {},
                }
            } else {
                match (st.open_at, st.point_at) {
                    (None, _) => {
                        assert(st.out.push(c) =~= st.out + seq![c]);
                        lemma_rendered_append(st.out, seq![c], st.ranges, true);
                        assert(state_render(st2) =~= state_render(st).push(c));
                    },
                    (Some(po), None) => {
                        assert(st2.out.take(po) =~= st.out.take(po));
                        assert(st2.out.skip(po) =~= st.out.skip(po).push(c));
                        assert(state_render(st2) =~= state_render(st).push(c));
                    },
                    (Some(po), Some(pt)) => {
                        assert(st2.out.take(po) =~= st.out.take(po));
                        assert(st2.out.subrange(po, pt) =~= st.out.subrange(po, pt));
                        assert(st2.out.skip(pt) =~= st.out.skip(pt).push(c));
                        assert(state_render(st2) =~= state_render(st).push(c));
                    },
                }
            }
        },
        Err(_) => {},
    }
}

/// Running the parser over an error-free text extends the annotated text
/// the state stands for by exactly that text.
proof fn lemma_render_from(st: ParseState, text: Seq<char>)
    requires
        state_inv(st),
        parse_from(st, text, true) is Ok,
        no_empty_closed_from(st, text, true),
    ensures
        parse_from(st, text, true) matches Ok(stf) && state_render(stf) == state_render(st) + text,
    decreases text.len(),
{
    if text.len() == 0 {
        assert(state_render(st) + text =~= state_render(st));
    } else {
        match parse_step(st, text[0], true) {
            Ok(st2) => {
                lemma_step_render(st, text[0]);
                lemma_render_from(st2, text.drop_first());
                assert(state_render(st).push(text[0]) + text.drop_first() =~= state_render(st)
                    + text);
            },
            Err(_) => {},
        }
    }
}

/// The round-trip law: an annotated text that parses with direction
/// indication, and in which no range closes at the offset it opened,
/// renders back to itself from the parse's stripped text and ranges.
pub proof fn lemma_round_trip(text: Seq<char>)
    requires
        parse_marked(text, true) is Ok,
        no_empty_closed(text),
    ensures
        parse_marked(text, true) matches Ok(r) && rendered(r.0, r.1, true) == text,
{
    lemma_render_from(initial_state(), text);
    assert(state_render(initial_state()) =~= Seq::<char>::empty());
    match parse_from(initial_state(), text, true) {
        Ok(stf) => {
            assert(Seq::<char>::empty() + text =~= text);
        },
        Err(_) => {},
    }
}

/// Every range an accepted parse emits lies within the stripped text.
pub proof fn lemma_parse_ranges_in_stripped(text: Seq<char>, indicate_cursors: bool)
    requires
        parse_marked(text, indicate_cursors) is Ok,
    ensures
        parse_marked(text, indicate_cursors) matches Ok(r) ==> forall|j: int|
            0 <= j < r.1.len() ==> 0 <= (#[trigger] r.1[j]).0 <= r.0.len() && 0 <= r.1[j].1
                <= r.0.len(),
{
    lemma_parse_from_inv(initial_state(), text, indicate_cursors);
}

/// Every parser step keeps the state well formed.
proof fn lemma_step_inv(st: ParseState, c: char, indicate_cursors: bool)
    requires
        state_inv(st),
        parse_step(st, c, indicate_cursors) is Ok,
    ensures
        parse_step(st, c, indicate_cursors) matches Ok(st2) ==> state_inv(st2),
{
}

/// Running the parser keeps the state well formed.
proof fn lemma_parse_from_inv(st: ParseState, text: Seq<char>, indicate_cursors: bool)
    requires
        state_inv(st),
        parse_from(st, text, indicate_cursors) is Ok,
    ensures
        parse_from(st, text, indicate_cursors) matches Ok(stf) ==> state_inv(stf),
    decreases text.len(),
{
    if text.len() > 0 {
        match parse_step(st, text[0], indicate_cursors) {
            Ok(st2) => {
                lemma_step_inv(st, text[0], indicate_cursors);
                lemma_parse_from_inv(st2, text.drop_first(), indicate_cursors);
            },
            Err(_) => {},
        }
    }
}

/// Stripping looked at from the front: the first character is kept or
/// dropped, and the rest is stripped.
proof fn lemma_stripped_front(text: Seq<char>, markers: Seq<char>)
    requires
        text.len() > 0,
    ensures
        stripped(text, markers) == (if markers.contains(text[0]) {
            stripped(text.drop_first(), markers)
        } else {
            seq![text[0]] + stripped(text.drop_first(), markers)
        }),
    decreases text.len(),
{
    if text.len() == 1 {
        assert(text.drop_first() =~= Seq::<char>::empty());
        assert(text.drop_last() =~= Seq::<char>::empty());
        if !markers.contains(text[0]) {
            assert(stripped(text, markers) =~= seq![text[0]] + stripped(
                text.drop_first(),
                markers,
            ));
        }
    } else {
        lemma_stripped_front(text.drop_last(), markers);
        assert(text.drop_last()[0] == text[0]);
        assert(text.drop_first().drop_last() =~= text.drop_last().drop_first());
        assert(text.drop_first().last() == text.last());
        if !markers.contains(text[0]) {
            assert(stripped(text, markers) =~= seq![text[0]] + stripped(
                text.drop_first(),
                markers,
            ));
        }
    }
}

/// The parser appends to its stripped text exactly what stripping the
/// grammar's sentinel characters from the remaining input leaves.
proof fn lemma_parse_strips(st: ParseState, text: Seq<char>, indicate_cursors: bool)
    requires
        parse_from(st, text, indicate_cursors) is Ok,
    ensures
        parse_from(st, text, indicate_cursors) matches Ok(stf) ==> stf.out == st.out + stripped(
            text,
            crate::parse::grammar_markers(),
        ),
    decreases text.len(),
{
    let markers = crate::parse::grammar_markers();
    if text.len() == 0 {
        assert(st.out + stripped(text, markers) =~= st.out);
    } else {
        let c = text[0];
        lemma_stripped_front(text, markers);
        match parse_step(st, c, indicate_cursors) {
            Ok(st2) => {
                lemma_parse_strips(st2, text.drop_first(), indicate_cursors);
                if c == POINT_MARKER || c == OPEN_MARKER || c == CLOSE_MARKER {
                    assert(markers.contains(c)) by {
                        if c == OPEN_MARKER {
                            assert(markers[0] == c);
                        } else if c == CLOSE_MARKER {
                            assert(markers[1] == c);
                        } else {
                            assert(markers[2] == c);
                        }
                    }
                } else {
                    assert(!markers.contains(c)) by {
                        if markers.contains(c) {
                            let k = choose|k: int| 0 <= k < markers.len() && markers[k] == c;
                        }
                    }
                    assert(st2.out =~= st.out.push(c));
                    assert(st.out.push(c) + stripped(text.drop_first(), markers) =~= st.out + (
                    seq![c] + stripped(text.drop_first(), markers)));
                }
            },
            Err(_) => {},
        }
    }
}

/// Offset locality of the parser: the stripped text it returns is the
/// input with the grammar's sentinel characters removed, so it is shorter
/// than the input by exactly their number of occurrences.
pub proof fn lemma_parse_locality(text: Seq<char>, indicate_cursors: bool)
    requires
        parse_marked(text, indicate_cursors) is Ok,
    ensures
        parse_marked(text, indicate_cursors) matches Ok(r) ==> r.0 == stripped(
            text,
            crate::parse::grammar_markers(),
        ),
        parse_marked(text, indicate_cursors) matches Ok(r) ==> r.0.len() + marker_count(
            text,
            crate::parse::grammar_markers(),
        ) == text.len(),
{
    lemma_parse_strips(initial_state(), text, indicate_cursors);
    lemma_offset_locality(text, crate::parse::grammar_markers(), POINT_MARKER);
    match parse_from(initial_state(), text, indicate_cursors) {
        Ok(stf) => {
            assert(Seq::<char>::empty() + stripped(text, crate::parse::grammar_markers())
                =~= stripped(text, crate::parse::grammar_markers()));
        },
        Err(_) => {},
    }
}

/// Direction fidelity: closing a pending range whose point marker sits at
/// the open boundary emits it reversed, `start > end`; one whose point
/// marker sits at the close boundary is emitted forward, `start < end`.
pub proof fn lemma_direction_fidelity(
    st: ParseState,
    start: int,
    point: int,
    indicate_cursors: bool,
)
    requires
        st.open_at == Some(start),
        st.point_at == Some(point),
        point == start || point == st.out.len() as int,
        0 <= start < st.out.len() as int,
    ensures
        parse_step(st, CLOSE_MARKER, indicate_cursors) matches Ok(st2) && {
            &&& st2.ranges.len() == st.ranges.len() + 1
            &&& point == start ==> st2.ranges.last().0 > st2.ranges.last().1
            &&& point == st.out.len() as int ==> st2.ranges.last().0 < st2.ranges.last().1
        },
{
}

} // verus!
