use rust_macos_gui::text_offsets::{byte_length, char_len_utf16, char_len_utf8, utf8_to_utf16_offsets};
use rust_macos_gui::words::{find_words, word_byte_spans, word_char_flags};

#[test]
fn flags_mark_letters_and_digits() {
    assert_eq!(word_char_flags("a1 é-"), vec![true, true, false, true, false]);
    assert_eq!(word_char_flags("京٣ ½!"), vec![true, true, false, true, false]);
    assert_eq!(word_char_flags(""), Vec::<bool>::new());
}

#[test]
fn words_in_ascii_text() {
    assert_eq!(find_words("Hello, world! 42 times"), vec![(0, 5), (7, 12), (14, 16), (17, 22)]);
    assert_eq!(find_words("   "), vec![]);
    assert_eq!(find_words(""), vec![]);
    assert_eq!(find_words("word"), vec![(0, 4)]);
    assert_eq!(find_words("-a-b-"), vec![(1, 2), (3, 4)]);
}

#[test]
fn words_use_byte_offsets() {
    // 'é' and 'ö' take two bytes each.
    assert_eq!(find_words("héllo wörld"), vec![(0, 6), (7, 13)]);
    // The emoji is no word character and takes four bytes.
    assert_eq!(find_words("a😀b"), vec![(0, 1), (5, 6)]);
}

#[test]
fn words_follow_the_given_flags() {
    assert_eq!(word_byte_spans("abcd", &vec![true, false, true, true]), vec![(0, 1), (2, 4)]);
    assert_eq!(word_byte_spans("aé", &vec![false, true]), vec![(1, 3)]);
}

#[test]
fn words_are_maximal_runs() {
    let text = "one two,three  4five é";
    let flags = word_char_flags(text);
    let bytes: Vec<usize> = text.char_indices().map(|(b, _)| b).chain([text.len()]).collect();
    let spans = find_words(text);
    for w in spans.windows(2) {
        assert!(w[0].1 < w[1].0);
    }
    for &(a, b) in &spans {
        let i = bytes.iter().position(|&x| x == a).unwrap();
        let j = bytes.iter().position(|&x| x == b).unwrap();
        assert!(i < j);
        assert!(flags[i..j].iter().all(|f| *f));
        assert!(i == 0 || !flags[i - 1]);
        assert!(j == flags.len() || !flags[j]);
    }
}

#[test]
fn char_widths_match_std() {
    for c in ['a', '\n', 'é', 'ß', '€', '京', '😀', '\u{10FFFF}', '\u{7F}', '\u{80}', '\u{7FF}', '\u{800}', '\u{FFFF}', '\u{10000}'] {
        assert_eq!(char_len_utf8(c), c.len_utf8());
        assert_eq!(char_len_utf16(c), c.len_utf16());
    }
}

#[test]
fn byte_length_is_str_len() {
    assert_eq!(byte_length(""), 0);
    assert_eq!(byte_length("héllo😀"), "héllo😀".len());
}

#[test]
fn offsets_map_every_boundary() {
    let m = utf8_to_utf16_offsets("a😀bé");
    assert_eq!(m.len(), 5);
    assert_eq!(m.get(&0), Some(&0));
    assert_eq!(m.get(&1), Some(&1));
    assert_eq!(m.get(&5), Some(&3));
    assert_eq!(m.get(&6), Some(&4));
    assert_eq!(m.get(&8), Some(&5));
    assert_eq!(m.get(&2), None);
    let e = utf8_to_utf16_offsets("");
    assert_eq!(e.len(), 1);
    assert_eq!(e.get(&0), Some(&0));
}

#[test]
fn utf16_offsets_never_exceed_byte_offsets() {
    let m = utf8_to_utf16_offsets("xé京😀y");
    for (b, u) in &m {
        assert!(u <= b);
    }
}
