use marked_text::generate_marked_text;
use marked_text::marked_text_offsets;
use marked_text::marked_text_offsets_by;
use marked_text::marked_text_ranges;
use marked_text::marked_text_ranges_by;
use marked_text::MarkedTextError;
use marked_text::TextRangeMarker;

#[test]
fn test_marked_text() {
    let (text, ranges) = marked_text_ranges("one «ˇtwo» «threeˇ» «ˇfour» fiveˇ six", true)
        .unwrap();

    assert_eq!(text, "one two three four five six");
    assert_eq!(ranges.len(), 4);
    assert_eq!(ranges[0], 7..4);
    assert_eq!(ranges[1], 8..13);
    assert_eq!(ranges[2], 18..14);
    assert_eq!(ranges[3], 23..23);

    assert_eq!(
        generate_marked_text(&text, &ranges, true),
        "one «ˇtwo» «threeˇ» «ˇfour» fiveˇ six"
    );
}

#[test]
fn nested_open_fails() {
    assert_eq!(
        marked_text_ranges("«« »", false).unwrap_err(),
        MarkedTextError::NestedOpen
    );
}

#[test]
fn unmatched_close_fails() {
    assert_eq!(
        marked_text_ranges("«a» b»", false).unwrap_err(),
        MarkedTextError::UnmatchedClose
    );
}

#[test]
fn duplicate_point_fails() {
    assert_eq!(
        marked_text_ranges("«ˇaˇb»", true).unwrap_err(),
        MarkedTextError::DuplicatePoint
    );
}

#[test]
fn interior_point_fails() {
    assert_eq!(
        marked_text_ranges("«aˇb»", true).unwrap_err(),
        MarkedTextError::InteriorPoint
    );
}

#[test]
fn missing_direction_fails() {
    assert_eq!(
        marked_text_ranges("«ab»", true).unwrap_err(),
        MarkedTextError::MissingDirection
    );
}

#[test]
fn unclosed_open_fails() {
    assert_eq!(
        marked_text_ranges("«ab", false).unwrap_err(),
        MarkedTextError::UnclosedOpen
    );
}

#[test]
fn ranges_without_cursors() {
    let (text, ranges) = marked_text_ranges("«ab» c «d»", false).unwrap();
    assert_eq!(text, "ab c d");
    assert_eq!(ranges, vec![0..2, 5..6]);
}

#[test]
fn direction_from_point_position() {
    let (_, reversed) = marked_text_ranges("«ˇab»", true).unwrap();
    assert_eq!(reversed, vec![2..0]);

    let (_, forward) = marked_text_ranges("«abˇ»", true).unwrap();
    assert_eq!(forward, vec![0..2]);
}

#[test]
fn point_offsets() {
    let (text, offsets) = marked_text_offsets("aˇbcˇ d").unwrap();
    assert_eq!(text, "abc d");
    assert_eq!(offsets, vec![1, 3]);
}

#[test]
fn point_offsets_reject_ranges() {
    assert_eq!(
        marked_text_offsets("«aˇ»b").unwrap_err(),
        MarkedTextError::NonDegenerateRange
    );
}

#[test]
fn offsets_by_records_each_marker() {
    let (text, table) = marked_text_offsets_by("one |two| ^three", vec!['|', '^']);
    assert_eq!(text, "one two three");
    assert_eq!(table.len(), 2);
    let bars = table.iter().find(|entry| entry.0 == '|').unwrap();
    assert_eq!(bars.1, vec![4, 7]);
    let carets = table.iter().find(|entry| entry.0 == '^').unwrap();
    assert_eq!(carets.1, vec![8]);
}

#[test]
fn offsets_by_without_markers() {
    let (text, table) = marked_text_offsets_by("plain text", vec![]);
    assert_eq!(text, "plain text");
    assert!(table.is_empty());
}

#[test]
fn offsets_by_is_idempotent() {
    let (stripped, _) = marked_text_offsets_by("a|b|c", vec!['|']);
    let (again, table) = marked_text_offsets_by(&stripped, vec!['|']);
    assert_eq!(again, stripped);
    assert!(table.is_empty());
}

#[test]
fn ranges_by_forward_role() {
    let (text, ranges_by_role) = marked_text_ranges_by(
        "«one» «two»",
        vec![TextRangeMarker::Range('«', '»')],
    )
    .unwrap();
    assert_eq!(text, "one two");
    assert_eq!(ranges_by_role.len(), 1);
    assert_eq!(ranges_by_role[0].0, TextRangeMarker::Range('«', '»'));
    assert_eq!(ranges_by_role[0].1, vec![0..3, 4..7]);
}

#[test]
fn ranges_by_reverse_role() {
    let (text, ranges_by_role) = marked_text_ranges_by(
        "«one» «two»",
        vec![TextRangeMarker::ReverseRange('«', '»')],
    )
    .unwrap();
    assert_eq!(text, "one two");
    assert_eq!(ranges_by_role[0].1, vec![3..0, 7..4]);
}

#[test]
fn ranges_by_empty_role() {
    let (text, ranges_by_role) = marked_text_ranges_by(
        "aˇbˇ",
        vec![TextRangeMarker::Empty('ˇ')],
    )
    .unwrap();
    assert_eq!(text, "ab");
    assert_eq!(ranges_by_role[0].1, vec![1..1, 2..2]);
}

#[test]
fn ranges_by_mixed_roles() {
    let (text, ranges_by_role) = marked_text_ranges_by(
        "ˇ[ab)",
        vec![TextRangeMarker::Empty('ˇ'), TextRangeMarker::Range('[', ')')],
    )
    .unwrap();
    assert_eq!(text, "ab");
    assert_eq!(ranges_by_role.len(), 2);
    assert_eq!(ranges_by_role[0].1, vec![0..0]);
    assert_eq!(ranges_by_role[1].1, vec![0..2]);
}

#[test]
fn ranges_by_unbalanced_fails() {
    assert_eq!(
        marked_text_ranges_by("«a", vec![TextRangeMarker::Range('«', '»')]).unwrap_err(),
        MarkedTextError::UnbalancedMarkers
    );
}

#[test]
fn ranges_by_misordered_fails() {
    assert_eq!(
        marked_text_ranges_by("»a«", vec![TextRangeMarker::Range('«', '»')]).unwrap_err(),
        MarkedTextError::MisorderedRange
    );
}

#[test]
fn generate_without_cursors() {
    assert_eq!(generate_marked_text("abc", &[1..2], false), "a«b»c");
}

#[test]
fn generate_point_and_reversed() {
    assert_eq!(generate_marked_text("abc", &[1..1], true), "aˇbc");
    assert_eq!(generate_marked_text("abc", &[2..1], true), "a«ˇb»c");
}

#[test]
fn empty_input() {
    let (text, ranges) = marked_text_ranges("", true).unwrap();
    assert_eq!(text, "");
    assert!(ranges.is_empty());
}

#[test]
fn empty_range_without_cursors() {
    let (text, ranges) = marked_text_ranges("a«»b", false).unwrap();
    assert_eq!(text, "ab");
    assert_eq!(ranges, vec![1..1]);
}

#[test]
fn marker_roles_from_chars() {
    assert_eq!(TextRangeMarker::from('|'), TextRangeMarker::Empty('|'));
    assert_eq!(
        TextRangeMarker::from(('<', '>')),
        TextRangeMarker::Range('<', '>')
    );
    assert_eq!(
        TextRangeMarker::Range('<', '>').markers(),
        vec!['<', '>']
    );
    assert_eq!(TextRangeMarker::Empty('|').markers(), vec!['|']);
}
