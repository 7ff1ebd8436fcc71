//! Words of a text: maximal runs of letters and digits.

use crate::text_offsets::{
    byte_length, char_len_utf8, lemma_end_offset_is_byte_length, lemma_offsets_monotonic, utf8_offset,
};
use vstd::prelude::*;
use vstd::utf8::encode_utf8;

verus! {

/// Whether `char::is_alphabetic` holds of `c` (the Unicode `Alphabetic`
/// property).
pub uninterp spec fn char_is_alphabetic(c: char) -> bool;

/// Whether `char::is_numeric` holds of `c` (a Unicode number category).
pub uninterp spec fn char_is_numeric(c: char) -> bool;

/// Calls `char::is_alphabetic`. The contract only names its result: the
/// Unicode tables behind it are not written out here.
#[verifier::external_body]
fn is_alphabetic(c: char) -> (r: bool)
    ensures
        r == char_is_alphabetic(c),
{
    c.is_alphabetic()
}

/// Calls `char::is_numeric`. The contract only names its result: the
/// Unicode tables behind it are not written out here.
#[verifier::external_body]
fn is_numeric(c: char) -> (r: bool)
    ensures
        r == char_is_numeric(c),
{
    c.is_numeric()
}

/// A character that belongs to a word: a letter or a digit.
pub open spec fn is_word_char(c: char) -> bool {
    char_is_alphabetic(c) || char_is_numeric(c)
}

/// The words of a text whose characters are classified by `flags`
/// (`true` for a word character), as `(start, end)` character indices,
/// left to right: each word is a maximal run of word characters.
pub open spec fn word_spans(flags: Seq<bool>) -> Seq<(int, int)>
    decreases flags.len(),
{
    if flags.len() == 0 {
        seq![]
    } else {
        let before = word_spans(flags.drop_last());
        let i = flags.len() - 1;
        if !flags.last() {
            before
        } else if i > 0 && flags[i - 1] {
            before.update(before.len() - 1, (before.last().0, i + 1))
        } else {
            before.push((i, i + 1))
        }
    }
}

/// A word given by character indices, turned into UTF-8 byte offsets in `s`.
pub open spec fn byte_span(s: Seq<char>, w: (int, int)) -> (usize, usize) {
    (utf8_offset(s, w.0) as usize, utf8_offset(s, w.1) as usize)
}

/// The words of `s` under the classification `flags`, as byte ranges.
pub open spec fn byte_spans(s: Seq<char>, flags: Seq<bool>) -> Seq<(usize, usize)> {
    word_spans(flags).map_values(|w: (int, int)| byte_span(s, w))
}

/// Which characters of `s` are word characters.
pub open spec fn word_flags(s: Seq<char>) -> Seq<bool> {
    s.map_values(|c: char| is_word_char(c))
}

/// When the text continues with a word character right after a word
/// character, the last word goes on; the words found so far end no later
/// than the text.
proof fn lemma_word_spans_shape(flags: Seq<bool>)
    ensures
        flags.len() > 0 && flags.last() ==> word_spans(flags).len() > 0
            && word_spans(flags).last().1 == flags.len(),
        forall|k: int|
            0 <= k < word_spans(flags).len() ==> 0 <= (#[trigger] word_spans(flags)[k]).0
                < word_spans(flags)[k].1 <= flags.len(),
    decreases flags.len(),
{
    if flags.len() > 0 {
        lemma_word_spans_shape(flags.drop_last());
        let i = flags.len() - 1;
        if flags.last() && i > 0 && flags[i - 1] {
            assert(flags.drop_last().last() == flags[i - 1]);
        }
    }
}

/// Classifies each character of `text` as a word character (letter or
/// digit) or not.
pub fn word_char_flags(text: &str) -> (r: Vec<bool>)
    ensures
        r@ == word_flags(text@),
{
    let ghost s = text@;
    let mut flags: Vec<bool> = Vec::new();
    for c in it: text.chars()
        invariant
            it.seq() == s,
            flags@ == word_flags(s.take(it.index())),
    {
        let ghost i = it.index();
        let w = is_alphabetic(c) || is_numeric(c);
        flags.push(w);
        assert(flags@ =~= word_flags(s.take(i + 1)));
    }
    assert(s.take(s.len() as int) =~= s);
    flags
}

/// Finds the words of `text` under the classification `is_word` (one flag
/// per character) and returns them as UTF-8 byte ranges `(start, end)`.
pub fn word_byte_spans(text: &str, is_word: &Vec<bool>) -> (r: Vec<(usize, usize)>)
    requires
        is_word@.len() == text@.len(),
    ensures
        r@ == byte_spans(text@, is_word@),
{
    let ghost s = text@;
    let _ = byte_length(text);
    let ghost f = is_word@;
    proof {
        lemma_end_offset_is_byte_length(s);
    }
    let mut words: Vec<(usize, usize)> = Vec::new();
    let mut in_word = false;
    let mut word_start: usize = 0;
    let mut pos: usize = 0;
    let mut idx: usize = 0;
    for c in it: text.chars()
        invariant
            it.seq() == s,
            idx == it.index(),
            f == is_word@,
            f.len() == s.len(),
            utf8_offset(s, s.len() as int) <= usize::MAX,
            pos == utf8_offset(s, it.index()),
            in_word == (it.index() > 0 && f[it.index() - 1]),
            in_word ==> word_spans(f.take(it.index())).len() > 0 && words@ =~= byte_spans(
                s,
                f.take(it.index()),
            ).drop_last() && word_start == utf8_offset(
                s,
                word_spans(f.take(it.index())).last().0,
            ) && word_spans(f.take(it.index())).last().1 == it.index(),
            !in_word ==> words@ =~= byte_spans(s, f.take(it.index())),
    {
        let ghost i = it.index();
        let ghost t = f.take(i + 1);
        proof {
            lemma_offsets_monotonic(s, i + 1, s.len() as int);
            lemma_offsets_monotonic(s, 0, i + 1);
            assert(t.drop_last() =~= f.take(i));
            assert(t.last() == f[i]);
            if i > 0 {
                assert(t[i - 1] == f[i - 1]);
            }
            lemma_word_spans_shape(f.take(i));
            lemma_word_spans_shape(t);
        }
        if is_word[idx] {
            if !in_word {
                word_start = pos;
                in_word = true;
                assert(byte_spans(s, t) =~= byte_spans(s, f.take(i)).push(byte_span(s, (i, i + 1))));
            } else {
                assert(byte_spans(s, t).drop_last() =~= byte_spans(s, f.take(i)).drop_last());
            }
        } else {
            if in_word {
                words.push((word_start, pos));
                in_word = false;
            }
        }
        pos = pos + char_len_utf8(c);
        idx = idx + 1;
    }
    if in_word {
        words.push((word_start, pos));
    }
    assert(f.take(s.len() as int) =~= f);
    words
}

/// Finds the words of `text` (maximal runs of letters and digits) and
/// returns them as UTF-8 byte ranges `(start, end)`, left to right.
pub fn find_words(text: &str) -> (r: Vec<(usize, usize)>)
    ensures
        r@ == byte_spans(text@, word_flags(text@)),
{
    let flags = word_char_flags(text);
    word_byte_spans(text, &flags)
}

/// A span is a word of `flags`: a non-empty run of word characters that
/// cannot be extended on either side.
pub open spec fn is_maximal_run(flags: Seq<bool>, w: (int, int)) -> bool {
    &&& 0 <= w.0 < w.1 <= flags.len()
    &&& forall|j: int| w.0 <= j < w.1 ==> #[trigger] flags[j]
    &&& w.0 == 0 || !flags[w.0 - 1]
    &&& w.1 == flags.len() || !flags[w.1]
}

/// The words are exactly the maximal runs of word characters, in text
/// order and apart from each other, and every word character lies in one of them.
pub proof fn lemma_words_are_maximal_runs(flags: Seq<bool>)
    ensures
        forall|k: int|
            0 <= k < word_spans(flags).len() ==> is_maximal_run(flags, #[trigger] word_spans(flags)[k]),
        forall|k: int, l: int|
            0 <= k < l < word_spans(flags).len() ==> (#[trigger] word_spans(flags)[k]).1
                < (#[trigger] word_spans(flags)[l]).0,
        forall|j: int|
            0 <= j < flags.len() && #[trigger] flags[j] ==> exists|k: int|
                0 <= k < word_spans(flags).len() && (#[trigger] word_spans(flags)[k]).0 <= j
                    < word_spans(flags)[k].1,
    decreases flags.len(),
{
    if flags.len() > 0 {
        let p = flags.drop_last();
        let n = flags.len() as int;
        let i = n - 1;
        lemma_words_are_maximal_runs(p);
        lemma_word_spans_shape(p);
        let v = word_spans(p);
        let w = word_spans(flags);
        assert forall|j: int| 0 <= j < p.len() implies p[j] == flags[j] by {}
        assert forall|k: int| 0 <= k < v.len() implies v[k].1 <= i && (v[k].1 < i || flags[i
            - 1]) by {
            assert(is_maximal_run(p, v[k]));
            if v[k].1 == i {
                assert(p[i - 1]);
            }
        }
        if !flags.last() {
            assert(w == v);
            assert forall|k: int| 0 <= k < w.len() implies is_maximal_run(
                flags,
                #[trigger] w[k],
            ) by {
                assert(is_maximal_run(p, v[k]));
            }
            assert forall|j: int| 0 <= j < flags.len() && #[trigger] flags[j] implies exists|k: int|
                0 <= k < w.len() && (#[trigger] w[k]).0 <= j < w[k].1 by {
                assert(j < i);
                assert(p[j]);
            }
        } else if i > 0 && flags[i - 1] {
            assert(p.last() == flags[i - 1]);
            let last = v.len() - 1;
            assert(w == v.update(last, (v[last].0, n)));
            assert(is_maximal_run(p, v[last]));
            assert forall|k: int| 0 <= k < w.len() implies is_maximal_run(
                flags,
                #[trigger] w[k],
            ) by {
                assert(is_maximal_run(p, v[k]));
                if k == last {
                    assert forall|j: int| w[k].0 <= j < w[k].1 implies #[trigger] flags[j] by {
                        if j < i {
                            assert(p[j]);
                        }
                    }
                } else {
                    assert(v[k].1 < v[last].0);
                }
            }
            assert forall|k: int, l: int| 0 <= k < l < w.len() implies (#[trigger] w[k]).1
                < (#[trigger] w[l]).0 by {
                assert(v[k].1 < v[l].0);
            }
            assert forall|j: int| 0 <= j < flags.len() && #[trigger] flags[j] implies exists|k: int|
                0 <= k < w.len() && (#[trigger] w[k]).0 <= j < w[k].1 by {
                if j < i {
                    assert(p[j]);
                    let k = choose|k: int| 0 <= k < v.len() && (#[trigger] v[k]).0 <= j < v[k].1;
                    assert(w[k].0 <= j < w[k].1);
                } else {
                    assert(w[last].0 <= j < w[last].1);
                }
            }
        } else {
            assert(w == v.push((i, n)));
            assert forall|k: int| 0 <= k < w.len() implies is_maximal_run(
                flags,
                #[trigger] w[k],
            ) by {
                if k < v.len() {
                    assert(is_maximal_run(p, v[k]));
                    assert(v[k].1 < i);
                }
            }
            assert forall|k: int, l: int| 0 <= k < l < w.len() implies (#[trigger] w[k]).1
                < (#[trigger] w[l]).0 by {
                if l < v.len() {
                    assert(v[k].1 < v[l].0);
                } else {
                    assert(v[k].1 < i);
                }
            }
            assert forall|j: int| 0 <= j < flags.len() && #[trigger] flags[j] implies exists|k: int|
                0 <= k < w.len() && (#[trigger] w[k]).0 <= j < w[k].1 by {
                if j < i {
                    assert(p[j]);
                    let k = choose|k: int| 0 <= k < v.len() && (#[trigger] v[k]).0 <= j < v[k].1;
                    assert(w[k] == v[k]);
                } else {
                    assert(w[v.len() as int].0 <= j < w[v.len() as int].1);
                }
            }
        }
    }
}

/// A character is a word character exactly when `char::is_alphabetic` or
/// `char::is_numeric` holds of it; so every word consists of such
/// characters, and any other character (a space, `_`, `-`, ...) always
/// separates words.
pub proof fn lemma_word_chars_are_letters_or_digits(s: Seq<char>)
    ensures
        word_flags(s).len() == s.len(),
        forall|i: int|
            0 <= i < s.len() ==> (#[trigger] word_flags(s)[i] <==> (char_is_alphabetic(s[i])
                || char_is_numeric(s[i]))),
        forall|k: int, j: int|
            0 <= k < word_spans(word_flags(s)).len() && (#[trigger] word_spans(word_flags(s))[k]).0
                <= j < word_spans(word_flags(s))[k].1 ==> 0 <= j < s.len() && (char_is_alphabetic(
                #[trigger] s[j],
            ) || char_is_numeric(s[j])),
        forall|j: int|
            0 <= j < s.len() && !char_is_alphabetic(#[trigger] s[j]) && !char_is_numeric(s[j])
                ==> forall|k: int|
                0 <= k < word_spans(word_flags(s)).len() ==> !((#[trigger] word_spans(
                word_flags(s),
            )[k]).0 <= j < word_spans(word_flags(s))[k].1),
{
    let f = word_flags(s);
    lemma_words_are_maximal_runs(f);
    assert forall|k: int, j: int|
        0 <= k < word_spans(f).len() && (#[trigger] word_spans(f)[k]).0 <= j < word_spans(f)[k].1
        implies 0 <= j < s.len() && (char_is_alphabetic(#[trigger] s[j]) || char_is_numeric(s[j])) by {
        assert(is_maximal_run(f, word_spans(f)[k]));
        assert(f[j]);
    }
    assert forall|j: int|
        0 <= j < s.len() && !char_is_alphabetic(#[trigger] s[j]) && !char_is_numeric(s[j]) implies forall|k: int|
        0 <= k < word_spans(f).len() ==> !((#[trigger] word_spans(f)[k]).0 <= j < word_spans(
        f,
    )[k].1) by {
        assert forall|k: int| 0 <= k < word_spans(f).len() implies !((#[trigger] word_spans(
            f,
        )[k]).0 <= j < word_spans(f)[k].1) by {
            assert(is_maximal_run(f, word_spans(f)[k]));
            if word_spans(f)[k].0 <= j < word_spans(f)[k].1 {
                assert(f[j]);
            }
        }
    }
}

} // verus!
