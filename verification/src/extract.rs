//! The marker extractor: strip a caller-supplied set of single-character
//! markers from a text and record, per marker, the stripped-text offsets at
//! which it occurred.
//!
//! Offsets count scalar values of the stripped text: an occurrence is
//! recorded at the length the stripped text had reached when the marker was
//! met, so every offset indexes into the stripped output, never into the
//! annotated input.

use vstd::prelude::*;

use crate::text::push_char;

verus! {

/// The text with every occurrence of a marker character removed.
pub open spec fn stripped(text: Seq<char>, markers: Seq<char>) -> Seq<char>
    decreases text.len(),
{
    if text.len() == 0 {
        Seq::empty()
    } else {
        let rest = stripped(text.drop_last(), markers);
        if markers.contains(text.last()) {
            rest
        } else {
            rest.push(text.last())
        }
    }
}

/// The stripped-text offsets at which the marker `c` occurs, first to last.
pub open spec fn char_offsets(text: Seq<char>, markers: Seq<char>, c: char) -> Seq<int>
    decreases text.len(),
{
    if text.len() == 0 {
        Seq::empty()
    } else {
        let rest = char_offsets(text.drop_last(), markers, c);
        if text.last() == c && markers.contains(c) {
            rest.push(stripped(text.drop_last(), markers).len() as int)
        } else {
            rest
        }
    }
}

/// A sequence of machine offsets, read as mathematical integers.
pub open spec fn offsets_as_ints(offsets: Seq<usize>) -> Seq<int> {
    Seq::new(offsets.len(), |i: int| offsets[i] as int)
}

/// No two entries of the offset table share their marker character.
pub open spec fn table_keys_unique(table: Seq<(char, Vec<usize>)>) -> bool {
    forall|i: int, j: int|
        0 <= i < j < table.len() ==> (#[trigger] table[i]).0 != (#[trigger] table[j]).0
}

/// Some entry of the offset table is for the marker character `c`.
pub open spec fn table_has_key(table: Seq<(char, Vec<usize>)>, c: char) -> bool {
    exists|i: int| 0 <= i < table.len() && (#[trigger] table[i]).0 == c
}

/// The offsets the table records for the marker `c`: those of its first
/// entry for `c`, or the empty sequence if it has none.
pub open spec fn table_val(table: Seq<(char, Vec<usize>)>, c: char) -> Seq<int>
    decreases table.len(),
{
    if table.len() == 0 {
        Seq::empty()
    } else if table[0].0 == c {
        offsets_as_ints(table[0].1@)
    } else {
        table_val(table.drop_first(), c)
    }
}

/// The table's value for a key is read off its entry for that key.
pub proof fn lemma_table_val_at(table: Seq<(char, Vec<usize>)>, j: int, c: char)
    requires
        0 <= j < table.len(),
        table[j].0 == c,
        forall|k: int| 0 <= k < j ==> (#[trigger] table[k]).0 != c,
    ensures
        table_has_key(table, c),
        table_val(table, c) == offsets_as_ints(table[j].1@),
    decreases j,
{
    if j > 0 {
        lemma_table_val_at(table.drop_first(), j - 1, c);
    }
}

/// A key with no entry has the empty value.
pub proof fn lemma_table_val_absent(table: Seq<(char, Vec<usize>)>, c: char)
    requires
        !table_has_key(table, c),
    ensures
        table_val(table, c) == Seq::<int>::empty(),
    decreases table.len(),
{
    if table.len() > 0 {
        assert(forall|k: int|
            0 <= k < table.drop_first().len() ==> (#[trigger] table.drop_first()[k]) == table[k
                + 1]);
        assert(!table_has_key(table.drop_first(), c));
        lemma_table_val_absent(table.drop_first(), c);
    }
}

/// Removing one entry leaves every other key's value and presence as they
/// were.
proof fn lemma_table_remove(table: Seq<(char, Vec<usize>)>, j: int, c2: char)
    requires
        0 <= j < table.len(),
        table[j].0 != c2,
    ensures
        table_val(table.remove(j), c2) == table_val(table, c2),
        table_has_key(table.remove(j), c2) == table_has_key(table, c2),
    decreases j,
{
    let removed = table.remove(j);
    if j == 0 {
        assert(removed =~= table.drop_first());
        if table_has_key(table.drop_first(), c2) {
            let k = choose|k: int|
                0 <= k < table.drop_first().len() && (#[trigger] table.drop_first()[k]).0 == c2;
            assert(table[k + 1].0 == c2);
        }
        if table_has_key(table, c2) {
            let k = choose|k: int| 0 <= k < table.len() && (#[trigger] table[k]).0 == c2;
            assert(table.drop_first()[k - 1].0 == c2);
        }
    } else {
        assert(removed.drop_first() =~= table.drop_first().remove(j - 1));
        lemma_table_remove(table.drop_first(), j - 1, c2);
        if table_has_key(removed, c2) {
            let k = choose|k: int| 0 <= k < removed.len() && (#[trigger] removed[k]).0 == c2;
            if k == 0 {
                assert(table[0].0 == c2);
            } else {
                assert(removed.drop_first()[k - 1].0 == c2);
            }
        }
        if table_has_key(table, c2) {
            let k = choose|k: int| 0 <= k < table.len() && (#[trigger] table[k]).0 == c2;
            if k == 0 {
                assert(removed[0].0 == c2);
            } else {
                assert(table.drop_first()[k - 1].0 == c2);
                assert(table_has_key(table.drop_first().remove(j - 1), c2));
                let k2 = choose|k2: int|
                    0 <= k2 < table.drop_first().remove(j - 1).len() && (#[trigger] table.drop_first().remove(
                        j - 1,
                    )[k2]).0 == c2;
                assert(removed[k2 + 1].0 == c2);
            }
        }
    }
}

/// Remove the table's entry for the marker `c`, handing its offsets out;
/// a marker with no entry yields the empty list.  Every other entry keeps
/// its place.
pub(crate) fn take_offsets(table: &mut Vec<(char, Vec<usize>)>, c: char) -> (offsets: Vec<usize>)
    requires
        table_keys_unique(old(table)@),
    ensures
        table_keys_unique(final(table)@),
        offsets_as_ints(offsets@) == table_val(old(table)@, c),
        !table_has_key(final(table)@, c),
        table_val(final(table)@, c) == Seq::<int>::empty(),
        forall|c2: char|
            c2 != c ==> table_val(final(table)@, c2) == table_val(old(table)@, c2)
                && table_has_key(final(table)@, c2) == table_has_key(old(table)@, c2),
{
    let ghost table0 = table@;
    let mut j: usize = 0;
    while j < table.len()
        invariant
            j <= table@.len(),
            table@ == table0,
            table0 == old(table)@,
            table_keys_unique(table0),
            forall|k: int| 0 <= k < j ==> (#[trigger] table0[k]).0 != c,
        decreases table@.len() - j,
    {
        if table[j].0 == c {
            let entry = table.remove(j);
            proof {
                table0.remove_ensures(j as int);
                lemma_table_val_at(table0, j as int, c);
                assert forall|c2: char| c2 != c implies table_val(table@, c2) == table_val(
                    table0,
                    c2,
                ) && table_has_key(table@, c2) == table_has_key(table0, c2) by {
                    lemma_table_remove(table0, j as int, c2);
                }
                assert forall|k: int| 0 <= k < table@.len() implies (#[trigger] table@[k]).0
                    != c by {
                    if k < j {
                        assert(table@[k] == table0[k]);
                    } else {
                        assert(table@[k] == table0[k + 1]);
                    }
                }
                lemma_table_val_absent(table@, c);
                assert forall|i1: int, i2: int|
                    0 <= i1 < i2 < table@.len() implies (#[trigger] table@[i1]).0 != (
                #[trigger] table@[i2]).0 by {
                    if i1 < j {
                        assert(table@[i1] == table0[i1]);
                    } else {
                        assert(table@[i1] == table0[i1 + 1]);
                    }
                    if i2 < j {
                        assert(table@[i2] == table0[i2]);
                    } else {
                        assert(table@[i2] == table0[i2 + 1]);
                    }
                }
            }
            return entry.1;
        }
        j += 1;
    }
    proof {
        assert(!table_has_key(table0, c));
        lemma_table_val_absent(table0, c);
        assert(offsets_as_ints(Seq::<usize>::empty()) =~= Seq::<int>::empty());
    }
    Vec::new()
}

/// Stripping removes no more characters than the text holds.
pub proof fn lemma_stripped_len_le(text: Seq<char>, markers: Seq<char>)
    ensures
        stripped(text, markers).len() <= text.len(),
    decreases text.len(),
{
    if text.len() > 0 {
        lemma_stripped_len_le(text.drop_last(), markers);
    }
}

/// Whether `c` occurs among the first `upto` entries of `chars`.
fn contains_char_upto(chars: &Vec<char>, upto: usize, c: char) -> (found: bool)
    requires
        upto <= chars@.len(),
    ensures
        found == chars@.take(upto as int).contains(c),
{
    let mut k: usize = 0;
    while k < upto
        invariant
            k <= upto <= chars@.len(),
            forall|j: int| 0 <= j < k ==> chars@[j] != c,
        decreases upto - k,
    {
        if chars[k] == c {
            assert(chars@.take(upto as int)[k as int] == c);
            return true;
        }
        k += 1;
    }
    assert(forall|j: int| 0 <= j < upto ==> chars@.take(upto as int)[j] != c);
    false
}

/// Whether `c` occurs in `chars`.
fn contains_char(chars: &Vec<char>, c: char) -> (found: bool)
    ensures
        found == chars@.contains(c),
{
    let found = contains_char_upto(chars, chars.len(), c);
    proof {
        assert(chars@.take(chars@.len() as int) =~= chars@);
    }
    found
}

/// The input with every marker character removed.
fn strip_text(text: &str, markers: &Vec<char>) -> (out: String)
    ensures
        out@ == stripped(text@, markers@),
{
    let len = text.unicode_len();
    let mut out = String::new();
    let mut i: usize = 0;
    while i < len
        invariant
            i <= len,
            len == text@.len(),
            out@ == stripped(text@.take(i as int), markers@),
        decreases len - i,
    {
        let ch = text.get_char(i);
        proof {
            assert(text@.take(i + 1).drop_last() =~= text@.take(i as int));
            assert(text@.take(i + 1).last() == text@[i as int]);
        }
        if !contains_char(markers, ch) {
            push_char(&mut out, ch);
        }
        i += 1;
    }
    proof {
        assert(text@.take(len as int) =~= text@);
    }
    out
}

/// The stripped-text offsets at which the marker `c` occurs in `text`.
fn scan_offsets(text: &str, markers: &Vec<char>, c: char) -> (offsets: Vec<usize>)
    requires
        markers@.contains(c),
    ensures
        offsets_as_ints(offsets@) == char_offsets(text@, markers@, c),
{
    let len = text.unicode_len();
    let mut stripped_len: usize = 0;
    let mut offsets: Vec<usize> = Vec::new();
    let mut i: usize = 0;
    while i < len
        invariant
            i <= len,
            len == text@.len(),
            markers@.contains(c),
            stripped_len == stripped(text@.take(i as int), markers@).len(),
            offsets_as_ints(offsets@) =~= char_offsets(text@.take(i as int), markers@, c),
        decreases len - i,
    {
        let ch = text.get_char(i);
        proof {
            assert(text@.take(i + 1).drop_last() =~= text@.take(i as int));
            assert(text@.take(i + 1).last() == text@[i as int]);
            lemma_stripped_len_le(text@.take(i as int), markers@);
        }
        if contains_char(markers, ch) {
            if ch == c {
                offsets.push(stripped_len);
                proof {
                    assert(offsets_as_ints(offsets@) =~= char_offsets(
                        text@.take(i + 1),
                        markers@,
                        c,
                    ));
                }
            }
        } else {
            stripped_len = stripped_len + 1;
        }
        i += 1;
    }
    proof {
        assert(text@.take(len as int) =~= text@);
        assert(offsets_as_ints(offsets@) == char_offsets(text@, markers@, c));
    }
    offsets
}

/// One step of key coverage: after looking at marker `m`, every marker among
/// the first `m + 1` with an occurrence has an entry in the table.
proof fn lemma_step_keys(
    table: Seq<(char, Vec<usize>)>,
    markers: Seq<char>,
    text: Seq<char>,
    m: int,
    c: char,
)
    requires
        0 <= m < markers.len(),
        markers[m] == c,
        forall|c2: char|
            markers.take(m).contains(c2) && char_offsets(text, markers, c2).len() > 0
                ==> table_has_key(table, c2),
        markers.take(m).contains(c) || char_offsets(text, markers, c).len() == 0
            || table_has_key(table, c),
    ensures
        forall|c2: char|
            markers.take(m + 1).contains(c2) && char_offsets(text, markers, c2).len() > 0
                ==> table_has_key(table, c2),
{
    assert forall|c2: char|
        markers.take(m + 1).contains(c2) && char_offsets(text, markers, c2).len()
            > 0 implies table_has_key(table, c2) by {
        let j = choose|j: int| 0 <= j < m + 1 && #[trigger] markers.take(m + 1)[j] == c2;
        if j < m {
            assert(markers.take(m)[j] == c2);
            assert(markers.take(m).contains(c2));
        } else {
            assert(c2 == c);
        }
    }
}

/// Strip every occurrence of the given marker characters from the text and
/// record, per marker, the stripped-text offsets at which it occurred.
///
/// The second component is an association table with one entry per marker
/// character that occurs in the text; a marker with no occurrence gets no
/// entry, and no marker gets two.
pub fn marked_text_offsets_by(marked_text: &str, markers: Vec<char>) -> (res: (
    String,
    Vec<(char, Vec<usize>)>,
))
    ensures
        res.0@ == stripped(marked_text@, markers@),
        table_keys_unique(res.1@),
        forall|j: int|
            0 <= j < res.1@.len() ==> markers@.contains((#[trigger] res.1@[j]).0),
        forall|j: int|
            0 <= j < res.1@.len() ==> offsets_as_ints((#[trigger] res.1@[j]).1@) == char_offsets(
                marked_text@,
                markers@,
                res.1@[j].0,
            ),
        forall|j: int| 0 <= j < res.1@.len() ==> (#[trigger] res.1@[j]).1@.len() > 0,
        forall|c: char|
            markers@.contains(c) && char_offsets(marked_text@, markers@, c).len() > 0
                ==> table_has_key(res.1@, c),
{
    let unmarked_text = strip_text(marked_text, &markers);
    let mut table: Vec<(char, Vec<usize>)> = Vec::new();
    let mut m: usize = 0;
    while m < markers.len()
        invariant
            m <= markers@.len(),
            table_keys_unique(table@),
            forall|j: int|
                0 <= j < table@.len() ==> markers@.take(m as int).contains(
                    (#[trigger] table@[j]).0,
                ),
            forall|j: int|
                0 <= j < table@.len() ==> offsets_as_ints((#[trigger] table@[j]).1@)
                    == char_offsets(marked_text@, markers@, table@[j].0),
            forall|j: int| 0 <= j < table@.len() ==> (#[trigger] table@[j]).1@.len() > 0,
            forall|c: char|
                markers@.take(m as int).contains(c) && char_offsets(marked_text@, markers@, c).len()
                    > 0 ==> table_has_key(table@, c),
        decreases markers@.len() - m,
    {
        let c = markers[m];
        proof {
            assert(markers@.take(m + 1)[m as int] == c);
            assert(forall|j: int|
                0 <= j < m + 1 ==> markers@.take(m + 1)[j] == markers@.take(m as int).push(c)[j]);
            assert(markers@.take(m + 1) =~= markers@.take(m as int).push(c));
        }
        let duplicate = contains_char_upto(&markers, m, c);
        if !duplicate {
            assert(markers@.contains(c)) by {
                assert(markers@[m as int] == c);
            }
            let offsets = scan_offsets(marked_text, &markers, c);
            if offsets.len() > 0 {
                let ghost old_table = table@;
                table.push((c, offsets));
                proof {
                    assert(forall|j: int|
                        0 <= j < old_table.len() ==> table@[j] == old_table[j]);
                    assert(table@[old_table.len() as int].0 == c);
                    assert forall|c2: char| table_has_key(old_table, c2) implies table_has_key(
                        table@,
                        c2,
                    ) by {
                        let i = choose|i: int|
                            0 <= i < old_table.len() && (#[trigger] old_table[i]).0 == c2;
                        assert(table@[i].0 == c2);
                    }
                    assert(table_has_key(table@, c));
                    assert forall|c2: char|
                        markers@.take(m as int).contains(c2) && char_offsets(
                            marked_text@,
                            markers@,
                            c2,
                        ).len() > 0 implies table_has_key(table@, c2) by {
                        assert(table_has_key(old_table, c2));
                    }
                    lemma_step_keys(table@, markers@, marked_text@, m as int, c);
                }
            } else {
                proof {
                    assert(char_offsets(marked_text@, markers@, c).len() == 0);
                    lemma_step_keys(table@, markers@, marked_text@, m as int, c);
                }
            }
        } else {
            proof {
                lemma_step_keys(table@, markers@, marked_text@, m as int, c);
            }
        }
        m += 1;
    }
    proof {
        assert(markers@.take(markers@.len() as int) =~= markers@);
    }
    (unmarked_text, table)
}

} // verus!
