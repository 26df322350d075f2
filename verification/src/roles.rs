//! The role-based range codec: decode an annotated text against a
//! caller-supplied list of marker roles.
//!
//! The union of all characters the roles refer to is stripped in one pass;
//! each role then consumes the offset lists of its characters, in role
//! order, and pairs them up into ranges.  A character consumed by an
//! earlier role is no longer available to a later one.

use core::ops::Range;
use vstd::prelude::*;

use crate::error::MarkedTextError;
use crate::extract::char_offsets;
use crate::extract::marked_text_offsets_by;
use crate::extract::offsets_as_ints;
use crate::extract::stripped;
use crate::extract::table_has_key;
use crate::extract::table_val;
use crate::extract::take_offsets;
use crate::marker::role_chars;
use crate::marker::TextRangeMarker;
use crate::parse::range_pairs;

verus! {

/// The characters all the roles refer to, in role order.
pub open spec fn roles_chars(roles: Seq<TextRangeMarker>) -> Seq<char>
    decreases roles.len(),
{
    if roles.len() == 0 {
        Seq::empty()
    } else {
        roles_chars(roles.drop_last()) + role_chars(roles.last())
    }
}

/// A concatenation holds a value exactly when one of its parts does.
proof fn lemma_concat_contains(x: Seq<char>, y: Seq<char>, c: char)
    ensures
        (x + y).contains(c) <==> x.contains(c) || y.contains(c),
{
    if (x + y).contains(c) {
        let k = choose|k: int| 0 <= k < (x + y).len() && (x + y)[k] == c;
        if k < x.len() {
            assert(x[k] == c);
        } else {
            assert(y[k - x.len()] == c);
        }
    }
    if x.contains(c) {
        let k = choose|k: int| 0 <= k < x.len() && x[k] == c;
        assert((x + y)[k] == c);
    }
    if y.contains(c) {
        let k = choose|k: int| 0 <= k < y.len() && y[k] == c;
        assert((x + y)[k + x.len()] == c);
    }
}

/// A character of one role occurs among the characters of the whole list.
pub proof fn lemma_role_chars_in_all(roles: Seq<TextRangeMarker>, i: int, c: char)
    requires
        0 <= i < roles.len(),
        role_chars(roles[i]).contains(c),
    ensures
        roles_chars(roles).contains(c),
    decreases roles.len(),
{
    lemma_concat_contains(roles_chars(roles.drop_last()), role_chars(roles.last()), c);
    if i < roles.len() - 1 {
        lemma_role_chars_in_all(roles.drop_last(), i, c);
    }
}

/// The prefix of a role list one longer refers to the characters of the
/// shorter prefix and of the added role.
proof fn lemma_consumed_step(roles: Seq<TextRangeMarker>, i: int, c: char)
    requires
        0 <= i < roles.len(),
    ensures
        roles_chars(roles.take(i + 1)).contains(c) <==> roles_chars(roles.take(i)).contains(c)
            || role_chars(roles[i]).contains(c),
{
    assert(roles.take(i + 1).drop_last() =~= roles.take(i));
    assert(roles.take(i + 1).last() == roles[i]);
    lemma_concat_contains(roles_chars(roles.take(i)), role_chars(roles[i]), c);
}

/// The offsets still available to role `i` for the character `c`: none if
/// an earlier role already consumed `c`, otherwise all of `c`'s offsets.
pub open spec fn avail_offsets(
    text: Seq<char>,
    roles: Seq<TextRangeMarker>,
    i: int,
    c: char,
) -> Seq<int> {
    if roles_chars(roles.take(i)).contains(c) {
        Seq::empty()
    } else {
        char_offsets(text, roles_chars(roles), c)
    }
}

/// The start offsets role `i` consumes.
pub open spec fn role_starts(text: Seq<char>, roles: Seq<TextRangeMarker>, i: int) -> Seq<int> {
    match roles[i] {
        TextRangeMarker::Empty(c) => avail_offsets(text, roles, i, c),
        TextRangeMarker::Range(a, _) => avail_offsets(text, roles, i, a),
        TextRangeMarker::ReverseRange(a, _) => avail_offsets(text, roles, i, a),
    }
}

/// The end offsets role `i` consumes.  A pair role whose two characters
/// coincide consumes that character's offsets as starts and is left with
/// no ends.
pub open spec fn role_ends(text: Seq<char>, roles: Seq<TextRangeMarker>, i: int) -> Seq<int> {
    match roles[i] {
        TextRangeMarker::Empty(c) => avail_offsets(text, roles, i, c),
        TextRangeMarker::Range(a, b) => if a == b {
            Seq::empty()
        } else {
            avail_offsets(text, roles, i, b)
        },
        TextRangeMarker::ReverseRange(a, b) => if a == b {
            Seq::empty()
        } else {
            avail_offsets(text, roles, i, b)
        },
    }
}

/// Why role `i` fails, if it does: a pair role with unequally many starts
/// and ends is unbalanced; one that pairs an end with a later start is
/// misordered.  A point role cannot fail.
pub open spec fn role_error(text: Seq<char>, roles: Seq<TextRangeMarker>, i: int) -> Option<
    MarkedTextError,
> {
    match roles[i] {
        TextRangeMarker::Empty(_) => None,
        _ => {
            let sa = role_starts(text, roles, i);
            let sb = role_ends(text, roles, i);
            if sa.len() != sb.len() {
                Some(MarkedTextError::UnbalancedMarkers)
            } else if exists|k: int| 0 <= k < sa.len() && (#[trigger] sb[k]) < sa[k] {
                Some(MarkedTextError::MisorderedRange)
            } else {
                None
            }
        },
    }
}

/// The first failure among the roles from `i` on, if any.
pub open spec fn first_role_error(text: Seq<char>, roles: Seq<TextRangeMarker>, i: int) -> Option<
    MarkedTextError,
>
    decreases roles.len() - i,
{
    if i >= roles.len() {
        None
    } else {
        match role_error(text, roles, i) {
            Some(e) => Some(e),
            None => first_role_error(text, roles, i + 1),
        }
    }
}

/// The first failure overall is the first failure past an error-free
/// prefix.
proof fn lemma_first_error_skip(text: Seq<char>, roles: Seq<TextRangeMarker>, i: int)
    requires
        0 <= i <= roles.len(),
        forall|j: int| 0 <= j < i ==> role_error(text, roles, j) is None,
    ensures
        first_role_error(text, roles, 0) == first_role_error(text, roles, i),
    decreases i,
{
    if i > 0 {
        lemma_first_error_skip(text, roles, i - 1);
    }
}

/// The ranges role `i` emits when it does not fail: a point role pairs
/// each offset with itself, a pair role pairs starts with ends, and a
/// reverse pair role emits each pair swapped.
pub open spec fn role_ranges(text: Seq<char>, roles: Seq<TextRangeMarker>, i: int) -> Seq<
    (int, int),
> {
    let sa = role_starts(text, roles, i);
    let sb = role_ends(text, roles, i);
    match roles[i] {
        TextRangeMarker::Empty(_) => Seq::new(sa.len(), |k: int| (sa[k], sa[k])),
        TextRangeMarker::Range(_, _) => Seq::new(sa.len(), |k: int| (sa[k], sb[k])),
        TextRangeMarker::ReverseRange(_, _) => Seq::new(sa.len(), |k: int| (sb[k], sa[k])),
    }
}

/// Decode an annotated text against a list of marker roles: strip every
/// character any role refers to, and hand each role, in order, the ranges
/// its markers encode.
///
/// The entry for each role sits at that role's position in the result.
/// Decoding fails on the first role whose markers are unbalanced or
/// misordered.
pub fn marked_text_ranges_by(marked_text: &str, markers: Vec<TextRangeMarker>) -> (res: Result<
    (String, Vec<(TextRangeMarker, Vec<Range<usize>>)>),
    MarkedTextError,
>)
    ensures
        res is Ok <==> first_role_error(marked_text@, markers@, 0) is None,
        res matches Err(e) ==> first_role_error(marked_text@, markers@, 0) == Some(e),
        res matches Ok(r) ==> {
            &&& r.0@ == stripped(marked_text@, roles_chars(markers@))
            &&& r.1@.len() == markers@.len()
            &&& forall|i: int| 0 <= i < markers@.len() ==> (#[trigger] r.1@[i]).0 == markers@[i]
            &&& forall|i: int|
                0 <= i < markers@.len() ==> range_pairs((#[trigger] r.1@[i]).1@) == role_ranges(
                    marked_text@,
                    markers@,
                    i,
                )
        },
{
    let mut all_markers: Vec<char> = Vec::new();
    let mut m: usize = 0;
    while m < markers.len()
        invariant
            m <= markers@.len(),
            all_markers@ == roles_chars(markers@.take(m as int)),
        decreases markers@.len() - m,
    {
        proof {
            assert(markers@.take(m + 1).drop_last() =~= markers@.take(m as int));
            assert(markers@.take(m + 1).last() == markers@[m as int]);
        }
        let mut role_markers = markers[m].markers();
        all_markers.append(&mut role_markers);
        m += 1;
    }
    proof {
        assert(markers@.take(markers@.len() as int) =~= markers@);
    }
    let ghost all = roles_chars(markers@);
    let (unmarked_text, mut table) = marked_text_offsets_by(marked_text, all_markers);
    proof {
        assert forall|c: char| all.contains(c) implies table_val(table@, c) == avail_offsets(
            marked_text@,
            markers@,
            0,
            c,
        ) by {
            assert(markers@.take(0) =~= Seq::<TextRangeMarker>::empty());
            lemma_initial_table_val(table@, marked_text@, all, c);
        }
    }
    let mut result: Vec<(TextRangeMarker, Vec<Range<usize>>)> = Vec::new();
    let mut i: usize = 0;
    while i < markers.len()
        invariant
            i <= markers@.len(),
            result@.len() == i,
            forall|j: int| 0 <= j < i ==> (#[trigger] result@[j]).0 == markers@[j],
            forall|j: int|
                0 <= j < i ==> range_pairs((#[trigger] result@[j]).1@) == role_ranges(
                    marked_text@,
                    markers@,
                    j,
                ),
            forall|j: int| 0 <= j < i ==> role_error(marked_text@, markers@, j) is None,
            crate::extract::table_keys_unique(table@),
            forall|c: char|
                roles_chars(markers@).contains(c) ==> table_val(table@, c) == avail_offsets(
                    marked_text@,
                    markers@,
                    i as int,
                    c,
                ),
            unmarked_text@ == stripped(marked_text@, roles_chars(markers@)),
        decreases markers@.len() - i,
    {
        let role = markers[i];
        match role {
            TextRangeMarker::Empty(c) => {
                proof {
                    crate::marker::lemma_role_chars_has(role, c);
                    lemma_role_chars_in_all(markers@, i as int, c);
                }
                let offsets = take_offsets(&mut table, c);
                proof {
                    assert(offsets_as_ints(offsets@) == role_starts(marked_text@, markers@, i as int));
                }
                let mut ranges: Vec<Range<usize>> = Vec::new();
                let mut k: usize = 0;
                while k < offsets.len()
                    invariant
                        k <= offsets@.len(),
                        ranges@.len() == k,
                        forall|j: int|
                            0 <= j < k ==> (#[trigger] ranges@[j]).start == offsets@[j]
                                && ranges@[j].end == offsets@[j],
                    decreases offsets@.len() - k,
                {
                    let o = offsets[k];
                    ranges.push(Range { start: o, end: o });
                    k += 1;
                }
                proof {
                    assert(range_pairs(ranges@) =~= role_ranges(marked_text@, markers@, i as int));
                }
                result.push((role, ranges));
            },
            TextRangeMarker::Range(a, b) => {
                let ranges = match consume_pair_role(
                    &mut table,
                    marked_text,
                    Ghost(markers@),
                    i,
                    a,
                    b,
                    false,
                ) {
                    Ok(ranges) => ranges,
                    Err(e) => {
                        proof {
                            lemma_first_error_skip(marked_text@, markers@, i as int);
                        }
                        return Err(e);
                    },
                };
                result.push((role, ranges));
            },
            TextRangeMarker::ReverseRange(a, b) => {
                let ranges = match consume_pair_role(
                    &mut table,
                    marked_text,
                    Ghost(markers@),
                    i,
                    a,
                    b,
                    true,
                ) {
                    Ok(ranges) => ranges,
                    Err(e) => {
                        proof {
                            lemma_first_error_skip(marked_text@, markers@, i as int);
                        }
                        return Err(e);
                    },
                };
                result.push((role, ranges));
            },
        }
        proof {
            assert forall|c: char| roles_chars(markers@).contains(c) implies table_val(table@, c)
                == avail_offsets(marked_text@, markers@, i + 1, c) by {
                lemma_consumed_step(markers@, i as int, c);
                crate::marker::lemma_role_chars_has(markers@[i as int], c);
            }
        }
        i += 1;
    }
    proof {
        lemma_first_error_skip(marked_text@, markers@, markers@.len() as int);
    }
    Ok((unmarked_text, result))
}

/// The table the extractor builds values every marker at all of its
/// offsets.
proof fn lemma_initial_table_val(
    table: Seq<(char, Vec<usize>)>,
    text: Seq<char>,
    all: Seq<char>,
    c: char,
)
    requires
        crate::extract::table_keys_unique(table),
        forall|j: int| 0 <= j < table.len() ==> all.contains((#[trigger] table[j]).0),
        forall|j: int|
            0 <= j < table.len() ==> offsets_as_ints((#[trigger] table[j]).1@) == char_offsets(
                text,
                all,
                table[j].0,
            ),
        forall|c2: char|
            all.contains(c2) && char_offsets(text, all, c2).len() > 0 ==> table_has_key(table, c2),
        all.contains(c),
    ensures
        table_val(table, c) == char_offsets(text, all, c),
{
    if table_has_key(table, c) {
        let j = choose|j: int| 0 <= j < table.len() && (#[trigger] table[j]).0 == c;
        assert(forall|k: int| 0 <= k < j ==> (#[trigger] table[k]).0 != c);
        crate::extract::lemma_table_val_at(table, j, c);
    } else {
        crate::extract::lemma_table_val_absent(table, c);
        assert(char_offsets(text, all, c).len() == 0);
        assert(char_offsets(text, all, c) =~= Seq::<int>::empty());
    }
}

/// Consume the two characters of a pair role and pair their offsets into
/// ranges, swapped when `reverse` is set.
fn consume_pair_role(
    table: &mut Vec<(char, Vec<usize>)>,
    marked_text: &str,
    Ghost(roles): Ghost<Seq<TextRangeMarker>>,
    i: usize,
    a: char,
    b: char,
    reverse: bool,
) -> (res: Result<Vec<Range<usize>>, MarkedTextError>)
    requires
        crate::extract::table_keys_unique(old(table)@),
        i < roles.len(),
        roles[i as int] == (if reverse {
            TextRangeMarker::ReverseRange(a, b)
        } else {
            TextRangeMarker::Range(a, b)
        }),
        forall|c: char|
            roles_chars(roles).contains(c) ==> table_val(old(table)@, c) == avail_offsets(
                marked_text@,
                roles,
                i as int,
                c,
            ),
    ensures
        crate::extract::table_keys_unique(final(table)@),
        forall|c: char|
            !role_chars(roles[i as int]).contains(c) ==> table_val(final(table)@, c) == table_val(
                old(table)@,
                c,
            ),
        forall|c: char|
            role_chars(roles[i as int]).contains(c) ==> table_val(final(table)@, c) == Seq::<
                int,
            >::empty(),
        res is Ok <==> role_error(marked_text@, roles, i as int) is None,
        res matches Err(e) ==> role_error(marked_text@, roles, i as int) == Some(e),
        res matches Ok(ranges) ==> range_pairs(ranges@) == role_ranges(marked_text@, roles, i as int),
{
    proof {
        crate::marker::lemma_role_chars_has(roles[i as int], a);
        crate::marker::lemma_role_chars_has(roles[i as int], b);
        lemma_role_chars_in_all(roles, i as int, a);
        lemma_role_chars_in_all(roles, i as int, b);
        assert forall|c: char| role_chars(roles[i as int]).contains(c) implies c == a || c
            == b by {
            crate::marker::lemma_role_chars_has(roles[i as int], c);
        }
    }
    let starts = take_offsets(table, a);
    let ends = take_offsets(table, b);
    proof {
        assert(offsets_as_ints(starts@) == role_starts(marked_text@, roles, i as int));
        assert(offsets_as_ints(ends@) == role_ends(marked_text@, roles, i as int));
    }
    if starts.len() != ends.len() {
        return Err(MarkedTextError::UnbalancedMarkers);
    }
    let mut ranges: Vec<Range<usize>> = Vec::new();
    let mut k: usize = 0;
    while k < starts.len()
        invariant
            k <= starts@.len(),
            starts@.len() == ends@.len(),
            i < roles.len(),
            roles[i as int] == (if reverse {
                TextRangeMarker::ReverseRange(a, b)
            } else {
                TextRangeMarker::Range(a, b)
            }),
            crate::extract::table_keys_unique(table@),
            forall|c: char|
                !role_chars(roles[i as int]).contains(c) ==> table_val(table@, c) == table_val(
                    old(table)@,
                    c,
                ),
            forall|c: char|
                role_chars(roles[i as int]).contains(c) ==> table_val(table@, c) == Seq::<
                    int,
                >::empty(),
            offsets_as_ints(starts@) == role_starts(marked_text@, roles, i as int),
            offsets_as_ints(ends@) == role_ends(marked_text@, roles, i as int),
            ranges@.len() == k,
            forall|j: int| 0 <= j < k ==> ends@[j] >= starts@[j],
            reverse ==> forall|j: int|
                0 <= j < k ==> (#[trigger] ranges@[j]).start == ends@[j] && ranges@[j].end
                    == starts@[j],
            !reverse ==> forall|j: int|
                0 <= j < k ==> (#[trigger] ranges@[j]).start == starts@[j] && ranges@[j].end
                    == ends@[j],
        decreases starts@.len() - k,
    {
        let start = starts[k];
        let end = ends[k];
        if end < start {
            proof {
                assert(role_ends(marked_text@, roles, i as int)[k as int] < role_starts(
                    marked_text@,
                    roles,
                    i as int,
                )[k as int]);
            }
            return Err(MarkedTextError::MisorderedRange);
        }
        if reverse {
            ranges.push(Range { start: end, end: start });
        } else {
            ranges.push(Range { start, end });
        }
        k += 1;
    }
    proof {
        assert forall|k2: int|
            0 <= k2 < role_starts(marked_text@, roles, i as int).len() implies !((
        #[trigger] role_ends(marked_text@, roles, i as int)[k2]) < role_starts(
            marked_text@,
            roles,
            i as int,
        )[k2]) by {
            assert(ends@[k2] >= starts@[k2]);
        }
        assert(range_pairs(ranges@) =~= role_ranges(marked_text@, roles, i as int));
    }
    Ok(ranges)
}

} // verus!
