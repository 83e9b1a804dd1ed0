use joie::highlight::{collapse_overlapped_ranges, highlight_by_ranges};
use joie::keywords::KeywordHighlighter;
use joie::sentence::{CopyableRange, SentencePart};

fn r(start: usize, end: usize) -> CopyableRange {
    CopyableRange { start, end }
}

#[test]
fn collapse_merges_overlaps() {
    let out = collapse_overlapped_ranges(&[r(0, 5), r(3, 7), r(10, 12)]);
    assert_eq!(out, vec![r(0, 7), r(10, 12)]);
}

#[test]
fn collapse_is_idempotent_on_example() {
    let once = collapse_overlapped_ranges(&[r(0, 5), r(3, 7), r(6, 9), r(10, 12), r(11, 11)]);
    let twice = collapse_overlapped_ranges(&once);
    assert_eq!(once, twice);
    assert_eq!(once, vec![r(0, 9), r(10, 12)]);
}

#[test]
fn collapse_keeps_touching_ranges_apart() {
    assert_eq!(collapse_overlapped_ranges(&[r(0, 5), r(5, 7)]), vec![r(0, 5), r(5, 7)]);
}

#[test]
fn collapse_empty() {
    assert_eq!(collapse_overlapped_ranges(&[]), vec![]);
}

#[test]
fn collapse_contained_range() {
    assert_eq!(collapse_overlapped_ranges(&[r(0, 10), r(2, 3)]), vec![r(0, 10)]);
}

#[test]
fn highlight_splits_text() {
    let parts = highlight_by_ranges(&[r(4, 9), r(16, 19)], "the quick brown fox");
    assert_eq!(
        parts,
        vec![
            SentencePart::Normal(r(0, 4)),
            SentencePart::Highlight(r(4, 9)),
            SentencePart::Normal(r(9, 16)),
            SentencePart::Highlight(r(16, 19)),
        ]
    );
}

#[test]
fn highlight_no_ranges() {
    assert_eq!(highlight_by_ranges(&[], "abc"), vec![SentencePart::Normal(r(0, 3))]);
    assert_eq!(highlight_by_ranges(&[], ""), vec![]);
}

#[test]
fn keyword_highlighter_keeps_keywords() {
    let h = KeywordHighlighter::new(&[3, 1]);
    assert_eq!(h.keywords, vec![3, 1]);
}

#[test]
fn collapse_empty_first_range_not_duplicated() {
    let once = collapse_overlapped_ranges(&[r(3, 3)]);
    assert_eq!(once, vec![r(3, 3)]);
    assert_eq!(collapse_overlapped_ranges(&once), once);
    let out = collapse_overlapped_ranges(&[r(3, 3), r(3, 5)]);
    assert_eq!(out, vec![r(3, 3), r(3, 5)]);
    assert_eq!(collapse_overlapped_ranges(&out), out);
}
