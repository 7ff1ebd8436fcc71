//! Which words get marked, and where, in the text view's UTF-16 coordinates:
//! every fifth word, starting with the third, stands out like a spelling mark.

use crate::text_offsets::{
    boundary_map, lemma_end_offset_is_byte_length, lemma_offsets_monotonic, utf16_length,
    utf16_offset, utf8_offset, utf8_to_utf16_offsets,
};
use crate::words::{
    byte_span, byte_spans, find_words, lemma_words_are_maximal_runs, word_flags, word_spans,
};
use std::collections::HashMap;
use vstd::prelude::*;
use vstd::utf8::encode_utf8;

verus! {

broadcast use vstd::std_specs::hash::group_hash_axioms;

/// A range of a text in UTF-16 units, as an `NSRange` holds it.
#[derive(Clone, Copy, Debug, PartialEq, Eq, Structural)]
pub struct TextRange {
    pub location: usize,
    pub length: usize,
}

/// Whether the word at position `index` (counting from zero) is one that
/// gets marked: the third, the eighth, the thirteenth, and so on.
pub open spec fn is_marked_index(index: int) -> bool {
    index % 5 == 2
}

/// The UTF-16 range of a word given by byte offsets, looked up in `offsets`
/// (byte offset to UTF-16 offset). There is none when the start is not in
/// the table, when the range is empty, or when it does not lie inside a
/// text of `utf16_len` units; an end missing from the table stands for the
/// end of the text.
pub open spec fn word_range(word: (usize, usize), offsets: Map<usize, usize>, utf16_len: usize) -> Option<
    TextRange,
> {
    if !offsets.contains_key(word.0) {
        None
    } else {
        let start = offsets[word.0];
        let end = if offsets.contains_key(word.1) {
            offsets[word.1]
        } else {
            utf16_len
        };
        if end <= start || start >= utf16_len || end > utf16_len {
            None
        } else {
            Some(TextRange { location: start, length: (end - start) as usize })
        }
    }
}

/// The ranges to mark among `words`: those of the words at a marked
/// position whose range exists, in order.
pub open spec fn marked_ranges(
    words: Seq<(usize, usize)>,
    offsets: Map<usize, usize>,
    utf16_len: usize,
) -> Seq<TextRange>
    decreases words.len(),
{
    if words.len() == 0 {
        seq![]
    } else {
        let before = marked_ranges(words.drop_last(), offsets, utf16_len);
        let r = word_range(words.last(), offsets, utf16_len);
        if is_marked_index(words.len() - 1) && r is Some {
            before.push(r->0)
        } else {
            before
        }
    }
}

/// Picks the words to mark (positions 2, 7, 12, ...) and turns each into a
/// UTF-16 range through `offsets`, skipping a word whose range cannot be
/// formed or does not fit in a text of `utf16_len` units.
pub fn select_marked_ranges(
    words: &Vec<(usize, usize)>,
    offsets: &HashMap<usize, usize>,
    utf16_len: usize,
) -> (r: Vec<TextRange>)
    ensures
        r@ == marked_ranges(words@, offsets@, utf16_len),
{
    let mut ranges: Vec<TextRange> = Vec::new();
    let n = words.len();
    for idx in 0..n
        invariant
            n == words@.len(),
            ranges@ == marked_ranges(words@.take(idx as int), offsets@, utf16_len),
    {
        let ghost t = words@.take(idx + 1);
        assert(t.drop_last() =~= words@.take(idx as int));
        assert(t.last() == words@[idx as int]);
        if idx % 5 == 2 {
            let (start_byte, end_byte) = words[idx];
            match offsets.get(&start_byte) {
                Some(start) => {
                    let start_utf16 = *start;
                    let end_utf16 = match offsets.get(&end_byte) {
                        Some(end) => *end,
                        None => utf16_len,
                    };
                    if end_utf16 > start_utf16 {
                        let word_len = end_utf16 - start_utf16;
                        if !(start_utf16 >= utf16_len || start_utf16 + word_len > utf16_len) {
                            ranges.push(TextRange { location: start_utf16, length: word_len });
                        }
                    }
                },
                None => {},
            }
        }
    }
    assert(words@.take(n as int) =~= words@);
    ranges
}

/// The ranges to mark in `text`, whose `NSString` holds `utf16_len` UTF-16
/// units: the words of the text (maximal runs of letters and digits) at
/// positions 2, 7, 12, ..., each as a UTF-16 range, leaving out any that
/// does not fit in `utf16_len` units.
pub fn highlight_ranges(text: &str, utf16_len: usize) -> (r: Vec<TextRange>)
    ensures
        r@ == marked_ranges(byte_spans(text@, word_flags(text@)), boundary_map(text@), utf16_len),
{
    let words = find_words(text);
    let offsets = utf8_to_utf16_offsets(text);
    select_marked_ranges(&words, &offsets, utf16_len)
}

/// The UTF-16 range of the word spanning characters `w.0 .. w.1` of `s`.
pub open spec fn utf16_word_range(s: Seq<char>, w: (int, int)) -> TextRange {
    TextRange {
        location: utf16_offset(s, w.0) as usize,
        length: (utf16_offset(s, w.1) - utf16_offset(s, w.0)) as usize,
    }
}

/// The UTF-16 ranges of the words at marked positions among `words`.
pub open spec fn marked_words(s: Seq<char>, words: Seq<(int, int)>) -> Seq<TextRange>
    decreases words.len(),
{
    if words.len() == 0 {
        seq![]
    } else {
        let before = marked_words(s, words.drop_last());
        if is_marked_index(words.len() - 1) {
            before.push(utf16_word_range(s, words.last()))
        } else {
            before
        }
    }
}

/// A range lies inside a text of `utf16_len` UTF-16 units.
pub open spec fn fits_in(r: TextRange, utf16_len: usize) -> bool {
    r.location < utf16_len && r.location + r.length <= utf16_len
}

/// Looking up the byte offset of a character boundary gives its UTF-16 offset.
proof fn lemma_boundary_lookup(s: Seq<char>, i: int)
    requires
        0 <= i <= s.len(),
        encode_utf8(s).len() <= usize::MAX,
    ensures
        boundary_map(s).contains_key(utf8_offset(s, i) as usize),
        boundary_map(s)[utf8_offset(s, i) as usize] == utf16_offset(s, i) as usize,
        utf8_offset(s, i) <= usize::MAX,
{
    lemma_end_offset_is_byte_length(s);
    lemma_offsets_monotonic(s, i, s.len() as int);
    lemma_offsets_monotonic(s, 0, i);
    let k = utf8_offset(s, i) as usize;
    assert(0 <= i <= s.len() && k == utf8_offset(s, i));
    let j = choose|j: int| 0 <= j <= s.len() && k == utf8_offset(s, j);
    if i < j {
        lemma_offsets_monotonic(s, i, j);
    } else if j < i {
        lemma_offsets_monotonic(s, j, i);
    }
}

proof fn lemma_marked_ranges_of_spans(s: Seq<char>, ws: Seq<(int, int)>, u: usize)
    requires
        encode_utf8(s).len() <= usize::MAX,
        forall|k: int| 0 <= k < ws.len() ==> 0 <= (#[trigger] ws[k]).0 < ws[k].1 <= s.len(),
    ensures
        marked_ranges(ws.map_values(|w: (int, int)| byte_span(s, w)), boundary_map(s), u)
            == marked_words(s, ws).filter(|r: TextRange| fits_in(r, u)),
    decreases ws.len(),
{
    let p = |r: TextRange| fits_in(r, u);
    let bw = ws.map_values(|w: (int, int)| byte_span(s, w));
    if ws.len() == 0 {
        reveal_with_fuel(Seq::<_>::filter, 1);
    } else {
        let prev = ws.drop_last();
        lemma_marked_ranges_of_spans(s, prev, u);
        assert(bw.drop_last() =~= prev.map_values(|w: (int, int)| byte_span(s, w)));
        let (a, b) = ws.last();
        assert(0 <= a < b <= s.len());
        lemma_boundary_lookup(s, a);
        lemma_boundary_lookup(s, b);
        lemma_offsets_monotonic(s, a, b);
        lemma_offsets_monotonic(s, b, s.len() as int);
        assert(bw.last() == byte_span(s, (a, b)));
        let mw = marked_words(s, ws);
        let before = marked_words(s, prev);
        if is_marked_index(ws.len() - 1) {
            let r = utf16_word_range(s, (a, b));
            assert(mw == before.push(r));
            assert(mw.drop_last() =~= before);
            reveal_with_fuel(Seq::<_>::filter, 1);
            if fits_in(r, u) {
                assert(word_range(bw.last(), boundary_map(s), u) == Some(r));
            } else {
                assert(word_range(bw.last(), boundary_map(s), u) is None);
            }
        }
    }
}

/// The ranges marked in a text are the UTF-16 ranges of its words at
/// positions 2, 7, 12, ..., less those that do not fit in the length that the
/// text view reports; when that length is the text's own UTF-16 length,
/// every such word is marked.
pub proof fn lemma_highlights_are_marked_words(s: Seq<char>, flags: Seq<bool>, utf16_len: usize)
    requires
        flags.len() == s.len(),
        encode_utf8(s).len() <= usize::MAX,
    ensures
        marked_ranges(byte_spans(s, flags), boundary_map(s), utf16_len) == marked_words(
            s,
            word_spans(flags),
        ).filter(|r: TextRange| fits_in(r, utf16_len)),
        utf16_len == utf16_length(s) ==> marked_ranges(
            byte_spans(s, flags),
            boundary_map(s),
            utf16_len,
        ) == marked_words(s, word_spans(flags)),
{
    let ws = word_spans(flags);
    lemma_words_are_maximal_runs(flags);
    assert forall|k: int| 0 <= k < ws.len() implies 0 <= (#[trigger] ws[k]).0 < ws[k].1
        <= s.len() by {}
    lemma_marked_ranges_of_spans(s, ws, utf16_len);
    if utf16_len == utf16_length(s) {
        lemma_marked_words_closed_form(s, ws);
        let mw = marked_words(s, ws);
        assert forall|k: int| 0 <= k < mw.len() implies fits_in(
            mw[k],
            utf16_len,
        ) by {
            let w = ws[5 * k + 2];
            lemma_offsets_monotonic(s, w.0, w.1);
            lemma_offsets_monotonic(s, w.1, s.len() as int);
        }
        crate::thousands::lemma_filter_keeps_all(mw, |r: TextRange| fits_in(r, utf16_len));
    }
}

/// The marked words are those at positions 2, 7, 12, ...: there are
/// `(n + 2) / 5` of them among `n` words.
pub proof fn lemma_marked_words_closed_form(s: Seq<char>, ws: Seq<(int, int)>)
    ensures
        marked_words(s, ws).len() == (ws.len() + 2) / 5,
        forall|k: int|
            0 <= k < marked_words(s, ws).len() ==> #[trigger] marked_words(s, ws)[k]
                == utf16_word_range(s, ws[5 * k + 2]),
    decreases ws.len(),
{
    if ws.len() > 0 {
        let prev = ws.drop_last();
        lemma_marked_words_closed_form(s, prev);
        let n = ws.len() as int;
        let mw = marked_words(s, ws);
        let before = marked_words(s, prev);
        assert forall|k: int| 0 <= k < before.len() implies #[trigger] before[k] == mw[k] by {}
        if is_marked_index(n - 1) {
            assert(mw == before.push(utf16_word_range(s, ws.last())));
            assert(5 * ((n + 1) / 5) + 2 == n - 1);
        }
    }
}

/// Of two marked ranges, the earlier one ends before the later one starts:
/// marks never overlap or touch, and they come in text order.
pub proof fn lemma_marked_words_in_order(s: Seq<char>, flags: Seq<bool>)
    requires
        flags.len() == s.len(),
        encode_utf8(s).len() <= usize::MAX,
    ensures
        forall|k: int, l: int|
            0 <= k < l < marked_words(s, word_spans(flags)).len() ==> (#[trigger] marked_words(
                s,
                word_spans(flags),
            )[k]).location + marked_words(s, word_spans(flags))[k].length < (
            #[trigger] marked_words(s, word_spans(flags))[l]).location,
        forall|k: int|
            0 <= k < marked_words(s, word_spans(flags)).len() ==> (#[trigger] marked_words(
                s,
                word_spans(flags),
            )[k]).length > 0,
{
    let ws = word_spans(flags);
    let mw = marked_words(s, ws);
    lemma_words_are_maximal_runs(flags);
    lemma_marked_words_closed_form(s, ws);
    lemma_end_offset_is_byte_length(s);
    assert forall|k: int, l: int| 0 <= k < l < mw.len() implies (#[trigger] mw[k]).location
        + mw[k].length < (#[trigger] mw[l]).location by {
        assert(5 * l + 2 < ws.len());
        let wk = ws[5 * k + 2];
        let wl = ws[5 * l + 2];
        assert(wk.1 < wl.0);
        lemma_offsets_monotonic(s, wk.0, wk.1);
        lemma_offsets_monotonic(s, wk.1, wl.0);
        lemma_offsets_monotonic(s, wl.0, wl.1);
        lemma_offsets_monotonic(s, wl.1, s.len() as int);
    }
    assert forall|k: int| 0 <= k < mw.len() implies (#[trigger] mw[k]).length > 0 by {
        assert(5 * k + 2 < ws.len());
        let wk = ws[5 * k + 2];
        lemma_offsets_monotonic(s, wk.0, wk.1);
        lemma_offsets_monotonic(s, wk.1, s.len() as int);
    }
}

} // verus!
