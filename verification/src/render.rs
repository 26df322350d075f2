//! The inverse generator: re-insert sentinel characters into a stripped
//! text at the offsets a range list records.
//!
//! Ranges are processed from the last to the first, so an insertion never
//! shifts the offsets still to be used: the ranges are expected in the
//! order the parser emits them, with offsets that do not decrease from one
//! range to the next.

use core::ops::Range;
use vstd::prelude::*;

verus! {

/// The text with `ins` inserted at offset `at`.
pub open spec fn insert_at(text: Seq<char>, at: int, ins: Seq<char>) -> Seq<char> {
    text.take(at) + ins + text.skip(at)
}

/// The text with the sentinel characters of one range inserted.
///
/// With `indicate_cursors`, a forward range gets `«` at its start and `ˇ»`
/// at its end, a reversed range gets `«ˇ` at its end and `»` at its start,
/// and a degenerate range gets a single `ˇ`.  Without it, every range gets
/// a bare `»` at its end and `«` at its start.  The later insertion is made
/// first, so the earlier one's offset still indexes the original text.
pub open spec fn insert_range_markers(
    text: Seq<char>,
    start: int,
    end: int,
    indicate_cursors: bool,
) -> Seq<char> {
    if indicate_cursors {
        if start < end {
            insert_at(insert_at(text, end, seq!['ˇ', '»']), start, seq!['«'])
        } else if start == end {
            insert_at(text, start, seq!['ˇ'])
        } else {
            insert_at(insert_at(text, start, seq!['»']), end, seq!['«', 'ˇ'])
        }
    } else {
        insert_at(insert_at(text, end, seq!['»']), start, seq!['«'])
    }
}

/// The text with the sentinel characters of every range inserted, the last
/// range first.
pub open spec fn rendered(text: Seq<char>, ranges: Seq<(int, int)>, indicate_cursors: bool) -> Seq<
    char,
>
    decreases ranges.len(),
{
    if ranges.len() == 0 {
        text
    } else {
        insert_range_markers(
            rendered(text, ranges.drop_first(), indicate_cursors),
            ranges[0].0,
            ranges[0].1,
            indicate_cursors,
        )
    }
}

/// Rendering only inserts: the result is at least as long as the text.
pub proof fn lemma_rendered_len(text: Seq<char>, ranges: Seq<(int, int)>, indicate_cursors: bool)
    requires
        forall|j: int|
            0 <= j < ranges.len() ==> 0 <= (#[trigger] ranges[j]).0 <= text.len() && 0
                <= ranges[j].1 <= text.len(),
    ensures
        rendered(text, ranges, indicate_cursors).len() >= text.len(),
    decreases ranges.len(),
{
    if ranges.len() > 0 {
        assert(forall|j: int|
            0 <= j < ranges.drop_first().len() ==> (#[trigger] ranges.drop_first()[j])
                == ranges[j + 1]);
        lemma_rendered_len(text, ranges.drop_first(), indicate_cursors);
    }
}

/// An insertion within the first part of a concatenation leaves the second
/// part a suffix.
proof fn lemma_insert_at_append(x: Seq<char>, s: Seq<char>, at: int, ins: Seq<char>)
    requires
        0 <= at <= x.len(),
    ensures
        insert_at(x + s, at, ins) == insert_at(x, at, ins) + s,
{
    assert(insert_at(x + s, at, ins) =~= insert_at(x, at, ins) + s);
}

/// Inserting one range's markers within the first part of a concatenation
/// leaves the second part a suffix.
proof fn lemma_insert_markers_append(
    x: Seq<char>,
    s: Seq<char>,
    start: int,
    end: int,
    indicate_cursors: bool,
)
    requires
        0 <= start <= x.len(),
        0 <= end <= x.len(),
    ensures
        insert_range_markers(x + s, start, end, indicate_cursors) == insert_range_markers(
            x,
            start,
            end,
            indicate_cursors,
        ) + s,
{
    if indicate_cursors {
        if start < end {
            lemma_insert_at_append(x, s, end, seq!['ˇ', '»']);
            lemma_insert_at_append(insert_at(x, end, seq!['ˇ', '»']), s, start, seq!['«']);
        } else if start == end {
            lemma_insert_at_append(x, s, start, seq!['ˇ']);
        } else {
            lemma_insert_at_append(x, s, start, seq!['»']);
            lemma_insert_at_append(insert_at(x, start, seq!['»']), s, end, seq!['«', 'ˇ']);
        }
    } else {
        lemma_insert_at_append(x, s, end, seq!['»']);
        lemma_insert_at_append(insert_at(x, end, seq!['»']), s, start, seq!['«']);
    }
}

/// Rendering ranges that lie within the first part of a concatenation
/// leaves the second part a suffix.
pub proof fn lemma_rendered_append(
    t: Seq<char>,
    s: Seq<char>,
    ranges: Seq<(int, int)>,
    indicate_cursors: bool,
)
    requires
        forall|j: int|
            0 <= j < ranges.len() ==> 0 <= (#[trigger] ranges[j]).0 <= t.len() && 0 <= ranges[j].1
                <= t.len(),
    ensures
        rendered(t + s, ranges, indicate_cursors) == rendered(t, ranges, indicate_cursors) + s,
    decreases ranges.len(),
{
    if ranges.len() == 0 {
        assert(rendered(t + s, ranges, indicate_cursors) =~= rendered(t, ranges, indicate_cursors)
            + s);
    } else {
        assert(forall|j: int|
            0 <= j < ranges.drop_first().len() ==> (#[trigger] ranges.drop_first()[j]) == ranges[j
                + 1]);
        lemma_rendered_append(t, s, ranges.drop_first(), indicate_cursors);
        lemma_rendered_len(t, ranges.drop_first(), indicate_cursors);
        lemma_insert_markers_append(
            rendered(t, ranges.drop_first(), indicate_cursors),
            s,
            ranges[0].0,
            ranges[0].1,
            indicate_cursors,
        );
    }
}

/// Appending a range to the list renders as inserting that range's markers
/// first.
pub proof fn lemma_rendered_push(
    t: Seq<char>,
    ranges: Seq<(int, int)>,
    r: (int, int),
    indicate_cursors: bool,
)
    ensures
        rendered(t, ranges.push(r), indicate_cursors) == rendered(
            insert_range_markers(t, r.0, r.1, indicate_cursors),
            ranges,
            indicate_cursors,
        ),
    decreases ranges.len(),
{
    let pushed = ranges.push(r);
    assert(pushed.len() == ranges.len() + 1);
    assert(rendered(t, pushed, indicate_cursors) == insert_range_markers(
        rendered(t, pushed.drop_first(), indicate_cursors),
        pushed[0].0,
        pushed[0].1,
        indicate_cursors,
    ));
    if ranges.len() == 0 {
        assert(pushed.drop_first() =~= Seq::<(int, int)>::empty());
        assert(pushed[0] == r);
        assert(rendered(t, pushed.drop_first(), indicate_cursors) == t);
        assert(rendered(
            insert_range_markers(t, r.0, r.1, indicate_cursors),
            ranges,
            indicate_cursors,
        ) == insert_range_markers(t, r.0, r.1, indicate_cursors));
    } else {
        assert(pushed.drop_first() =~= ranges.drop_first().push(r));
        assert(pushed[0] == ranges[0]);
        lemma_rendered_push(t, ranges.drop_first(), r, indicate_cursors);
        assert(rendered(t, pushed.drop_first(), indicate_cursors) == rendered(
            insert_range_markers(t, r.0, r.1, indicate_cursors),
            ranges.drop_first(),
            indicate_cursors,
        ));
        assert(rendered(
            insert_range_markers(t, r.0, r.1, indicate_cursors),
            ranges,
            indicate_cursors,
        ) == insert_range_markers(
            rendered(
                insert_range_markers(t, r.0, r.1, indicate_cursors),
                ranges.drop_first(),
                indicate_cursors,
            ),
            ranges[0].0,
            ranges[0].1,
            indicate_cursors,
        ));
    }
}

/// The text with `ins` inserted at offset `at`, as a fresh string.
pub(crate) fn insert_str_at(text: &str, at: usize, ins: &str) -> (out: String)
    requires
        at <= text@.len(),
    ensures
        out@ == insert_at(text@, at as int, ins@),
{
    let len = text.unicode_len();
    let mut out = String::from_str(text.substring_char(0, at));
    out.append(ins);
    out.append(text.substring_char(at, len));
    proof {
        assert(out@ =~= insert_at(text@, at as int, ins@));
    }
    out
}

/// Render a range list back into sentinel form: insert the sentinel
/// characters into a copy of the stripped text at the recorded offsets.
///
/// The ranges are processed in reverse of their order, so that for a range
/// list in emission order every insertion lands at the offset the range
/// recorded.  Overlapping ranges are not rejected; they render to output
/// that may not parse back.
pub fn generate_marked_text(output_text: &str, ranges: &[Range<usize>], indicate_cursors: bool) -> (
    marked: String)
    requires
        forall|j: int|
            0 <= j < ranges@.len() ==> (#[trigger] ranges@[j]).start <= output_text@.len()
                && ranges@[j].end <= output_text@.len(),
    ensures
        marked@ == rendered(
            output_text@,
            crate::parse::range_pairs(ranges@),
            indicate_cursors,
        ),
{
    let ghost pairs = crate::parse::range_pairs(ranges@);
    let mut marked_text = String::from_str(output_text);
    let mut i: usize = ranges.len();
    proof {
        assert(pairs.skip(i as int) =~= Seq::<(int, int)>::empty());
        assert(forall|j: int|
            0 <= j < pairs.len() ==> 0 <= (#[trigger] pairs[j]).0 <= output_text@.len() && 0
                <= pairs[j].1 <= output_text@.len());
    }
    while i > 0
        invariant
            i <= ranges@.len(),
            pairs == crate::parse::range_pairs(ranges@),
            forall|j: int|
                0 <= j < pairs.len() ==> 0 <= (#[trigger] pairs[j]).0 <= output_text@.len() && 0
                    <= pairs[j].1 <= output_text@.len(),
            marked_text@ == rendered(output_text@, pairs.skip(i as int), indicate_cursors),
        decreases i,
    {
        i = i - 1;
        let range = &ranges[i];
        proof {
            assert(pairs.skip(i as int)[0] == pairs[i as int]);
            assert(pairs.skip(i as int).drop_first() =~= pairs.skip(i + 1));
            assert(forall|j: int|
                0 <= j < pairs.skip(i + 1).len() ==> (#[trigger] pairs.skip(i + 1)[j]) == pairs[
                    j + i + 1]);
            lemma_rendered_len(output_text@, pairs.skip(i + 1), indicate_cursors);
        }
        if indicate_cursors {
            if range.start < range.end {
                let with_close = insert_str_at(marked_text.as_str(), range.end, "ˇ»");
                marked_text = insert_str_at(with_close.as_str(), range.start, "«");
                proof {
                    reveal_strlit("ˇ»");
                    reveal_strlit("«");
                    assert("ˇ»"@ =~= seq!['ˇ', '»']);
                    assert("«"@ =~= seq!['«']);
                }
            } else if range.start == range.end {
                marked_text = insert_str_at(marked_text.as_str(), range.start, "ˇ");
                proof {
                    reveal_strlit("ˇ");
                    assert("ˇ"@ =~= seq!['ˇ']);
                }
            } else {
                let with_close = insert_str_at(marked_text.as_str(), range.start, "»");
                marked_text = insert_str_at(with_close.as_str(), range.end, "«ˇ");
                proof {
                    reveal_strlit("»");
                    reveal_strlit("«ˇ");
                    assert("»"@ =~= seq!['»']);
                    assert("«ˇ"@ =~= seq!['«', 'ˇ']);
                }
            }
        } else {
            let with_close = insert_str_at(marked_text.as_str(), range.end, "»");
            marked_text = insert_str_at(with_close.as_str(), range.start, "«");
            proof {
                reveal_strlit("»");
                reveal_strlit("«");
                assert("»"@ =~= seq!['»']);
                assert("«"@ =~= seq!['«']);
            }
        }
        proof {
            assert(marked_text@ == insert_range_markers(
                rendered(output_text@, pairs.skip(i + 1), indicate_cursors),
                pairs[i as int].0,
                pairs[i as int].1,
                indicate_cursors,
            ));
        }
    }
    proof {
        assert(pairs.skip(0) =~= pairs);
    }
    marked_text
}

} // verus!
