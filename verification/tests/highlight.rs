use rust_macos_gui::highlight::{highlight_ranges, select_marked_ranges, TextRange};
use std::collections::HashMap;

fn utf16_len(s: &str) -> usize {
    s.encode_utf16().count()
}

fn r(location: usize, length: usize) -> TextRange {
    TextRange { location, length }
}

#[test]
fn every_fifth_word_from_the_third() {
    let text = "w0 w1 w2 w3 w4 w5 w6 w7 w8 w9 w10 w11 w12";
    let ranges = highlight_ranges(text, utf16_len(text));
    assert_eq!(ranges, vec![r(6, 2), r(21, 2), r(38, 3)]);
}

#[test]
fn too_few_words() {
    let text = "only two";
    assert_eq!(highlight_ranges(text, utf16_len(text)), vec![]);
    assert_eq!(highlight_ranges("", 0), vec![]);
}

#[test]
fn ranges_use_utf16_units() {
    // The emoji takes two UTF-16 units and four bytes.
    let text = "😀 ab cd éf";
    let ranges = highlight_ranges(text, utf16_len(text));
    assert_eq!(ranges, vec![r(9, 2)]);
}

#[test]
fn ranges_outside_the_reported_length_are_dropped() {
    let text = "a b ccc d e f g hhh";
    assert_eq!(highlight_ranges(text, utf16_len(text)), vec![r(4, 3), r(16, 3)]);
    assert_eq!(highlight_ranges(text, 18), vec![r(4, 3)]);
    assert_eq!(highlight_ranges(text, 6), vec![]);
    assert_eq!(highlight_ranges(text, 0), vec![]);
}

#[test]
fn selection_follows_the_offset_table() {
    let words = vec![(0, 1), (2, 3), (4, 7), (8, 9), (10, 11), (12, 13), (14, 15), (16, 20)];
    let mut offsets: HashMap<usize, usize> = HashMap::new();
    offsets.insert(4, 3);
    offsets.insert(7, 5);
    offsets.insert(16, 10);
    // Word 2 maps to 3..5; word 7 has no end in the table and runs to the end.
    assert_eq!(select_marked_ranges(&words, &offsets, 12), vec![r(3, 2), r(10, 2)]);
    // A start missing from the table drops the word.
    offsets.remove(&4);
    assert_eq!(select_marked_ranges(&words, &offsets, 12), vec![r(10, 2)]);
    // An empty or backwards range is dropped.
    offsets.insert(4, 6);
    assert_eq!(select_marked_ranges(&words, &offsets, 12), vec![r(10, 2)]);
    // The end of the text lies before the start.
    assert_eq!(select_marked_ranges(&words, &offsets, 10), vec![]);
}

#[test]
fn marks_are_ordered_and_disjoint() {
    let text = "The quick brown fox jumps over the lazy dog, again and again and again 123 é😀ü.";
    let ranges = highlight_ranges(text, utf16_len(text));
    assert_eq!(ranges.len(), 3);
    for w in ranges.windows(2) {
        assert!(w[0].location + w[0].length < w[1].location);
    }
    for x in &ranges {
        assert!(x.length > 0);
        assert!(x.location + x.length <= utf16_len(text));
    }
}
