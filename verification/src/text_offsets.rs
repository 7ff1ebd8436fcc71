//! Byte (UTF-8) and UTF-16 positions of the characters of a text.

use std::collections::HashMap;
use vstd::prelude::*;
use vstd::utf8::*;

verus! {

broadcast use vstd::std_specs::hash::group_hash_axioms;

/// Number of bytes in the UTF-8 encoding of `c`.
pub open spec fn utf8_width(c: char) -> nat {
    encode_scalar(c as u32).len()
}

/// Number of 16-bit units in the UTF-16 encoding of `c`: characters above
/// the Basic Multilingual Plane take a surrogate pair.
pub open spec fn utf16_width(c: char) -> nat {
    if (c as u32) < 0x10000 {
        1
    } else {
        2
    }
}

/// Byte offset, in the UTF-8 encoding of `s`, of the character at index `i`
/// (of the end of the text when `i == s.len()`).
pub open spec fn utf8_offset(s: Seq<char>, i: int) -> nat
    decreases i,
{
    if i <= 0 {
        0
    } else {
        utf8_offset(s, i - 1) + utf8_width(s[i - 1])
    }
}

/// Offset in UTF-16 units of the character at index `i` of `s`.
pub open spec fn utf16_offset(s: Seq<char>, i: int) -> nat
    decreases i,
{
    if i <= 0 {
        0
    } else {
        utf16_offset(s, i - 1) + utf16_width(s[i - 1])
    }
}

/// Number of UTF-16 units that `s` takes.
pub open spec fn utf16_length(s: Seq<char>) -> nat {
    utf16_offset(s, s.len() as int)
}

/// The UTF-8 byte offsets of the character boundaries of `s`, each mapped
/// to the UTF-16 offset of the same boundary.
pub open spec fn boundary_map(s: Seq<char>) -> Map<usize, usize> {
    Map::new(
        |k: usize| exists|i: int| 0 <= i <= s.len() && k == utf8_offset(s, i),
        |k: usize|
            utf16_offset(s, choose|i: int| 0 <= i <= s.len() && k == utf8_offset(s, i)) as usize,
    )
}

/// A character takes one to four bytes in UTF-8 and one or two units in
/// UTF-16, never more units in UTF-16 than bytes in UTF-8.
pub proof fn lemma_widths(c: char)
    ensures
        1 <= utf8_width(c) <= 4,
        1 <= utf16_width(c) <= 2,
        utf16_width(c) <= utf8_width(c),
{
    broadcast use char_is_scalar;

}

/// Offsets grow with the index, by at least one per character, and a
/// character's UTF-16 offset never exceeds its byte offset.
pub proof fn lemma_offsets_monotonic(s: Seq<char>, i: int, j: int)
    requires
        0 <= i <= j <= s.len(),
    ensures
        utf8_offset(s, j) >= utf8_offset(s, i) + (j - i),
        utf16_offset(s, j) >= utf16_offset(s, i) + (j - i),
        utf16_offset(s, j) <= utf8_offset(s, j),
        utf8_offset(s, j) - utf8_offset(s, i) >= utf16_offset(s, j) - utf16_offset(s, i),
    decreases j,
{
    if j > i {
        lemma_offsets_monotonic(s, i, j - 1);
        lemma_widths(s[j - 1]);
    } else if j > 0 {
        lemma_offsets_monotonic(s, 0, j - 1);
        lemma_widths(s[j - 1]);
    }
}

proof fn lemma_encode_push(s: Seq<char>, c: char)
    ensures
        encode_utf8(s.push(c)).len() == encode_utf8(s).len() + utf8_width(c),
    decreases s.len(),
{
    let t = s.push(c);
    if s.len() > 0 {
        lemma_encode_push(s.drop_first(), c);
        assert(t.drop_first() =~= s.drop_first().push(c));
        assert(t[0] == s[0]);
        assert(encode_utf8(t) == encode_scalar(t[0] as u32) + encode_utf8(t.drop_first()));
        assert(encode_utf8(s) == encode_scalar(s[0] as u32) + encode_utf8(s.drop_first()));
    } else {
        assert(t.drop_first() =~= Seq::<char>::empty());
        assert(encode_utf8(t) == encode_scalar(t[0] as u32) + encode_utf8(t.drop_first()));
        assert(encode_utf8(t.drop_first()).len() == 0);
        assert(encode_utf8(s).len() == 0);
    }
}

/// The byte offset of the end of a text is the length of its UTF-8
/// encoding, which is what `str::len` returns.
pub proof fn lemma_end_offset_is_byte_length(s: Seq<char>)
    ensures
        utf8_offset(s, s.len() as int) == encode_utf8(s).len(),
    decreases s.len(),
{
    if s.len() > 0 {
        let p = s.drop_last();
        lemma_end_offset_is_byte_length(p);
        assert forall|i: int| 0 <= i <= p.len() implies utf8_offset(p, i) == utf8_offset(s, i) by {
            lemma_offset_prefix(s, p, i);
        }
        lemma_encode_push(p, s.last());
        assert(p.push(s.last()) =~= s);
    }
}

proof fn lemma_offset_prefix(s: Seq<char>, p: Seq<char>, i: int)
    requires
        0 <= i <= p.len() <= s.len(),
        forall|k: int| 0 <= k < p.len() ==> p[k] == s[k],
    ensures
        utf8_offset(p, i) == utf8_offset(s, i),
        utf16_offset(p, i) == utf16_offset(s, i),
    decreases i,
{
    if i > 0 {
        lemma_offset_prefix(s, p, i - 1);
    }
}

/// The UTF-8 width of `c`, as `char::len_utf8` gives it.
pub fn char_len_utf8(c: char) -> (r: usize)
    ensures
        r == utf8_width(c),
{
    broadcast use char_is_scalar;

    let v = c as u32;
    if v < 0x80 {
        1
    } else if v < 0x800 {
        2
    } else if v < 0x10000 {
        3
    } else {
        4
    }
}

/// The UTF-16 width of `c`, as `char::len_utf16` gives it.
pub fn char_len_utf16(c: char) -> (r: usize)
    ensures
        r == utf16_width(c),
{
    if (c as u32) < 0x10000 {
        1
    } else {
        2
    }
}

/// Length of `text` in bytes, as `str::len` gives it: the size of its
/// UTF-8 encoding, which always fits in a `usize`.
pub fn byte_length(text: &str) -> (r: usize)
    ensures
        r == encode_utf8(text@).len(),
{
    broadcast use vstd::slice::group_slice_axioms;

    text.as_bytes().len()
}

/// Maps the byte offset of each character boundary of `text` (its start,
/// between two characters, and its end) to the UTF-16 offset of that
/// boundary, the position that an `NSRange` uses.
pub fn utf8_to_utf16_offsets(text: &str) -> (r: HashMap<usize, usize>)
    ensures
        encode_utf8(text@).len() <= usize::MAX,
        r@ == boundary_map(text@),
{
    let ghost s = text@;
    let _ = byte_length(text);
    proof {
        lemma_end_offset_is_byte_length(s);
        lemma_offsets_monotonic(s, 0, s.len() as int);
    }
    let mut map: HashMap<usize, usize> = HashMap::new();
    let mut byte_pos: usize = 0;
    let mut utf16_pos: usize = 0;
    map.insert(0, 0);
    for c in it: text.chars()
        invariant
            it.seq() == s,
            utf8_offset(s, s.len() as int) <= usize::MAX,
            byte_pos == utf8_offset(s, it.index()),
            utf16_pos == utf16_offset(s, it.index()),
            forall|k: usize|
                #![trigger map@.contains_key(k)]
                map@.contains_key(k) <==> exists|i: int|
                    0 <= i <= it.index() && k == utf8_offset(s, i),
            forall|i: int|
                #![trigger utf8_offset(s, i)]
                0 <= i <= it.index() ==> map@[utf8_offset(s, i) as usize] == utf16_offset(s, i),
    {
        let ghost i = it.index();
        proof {
            lemma_offsets_monotonic(s, i + 1, s.len() as int);
            lemma_offsets_monotonic(s, 0, i + 1);
        }
        utf16_pos = utf16_pos + char_len_utf16(c);
        byte_pos = byte_pos + char_len_utf8(c);
        map.insert(byte_pos, utf16_pos);
        proof {
            assert forall|j: int| 0 <= j <= i implies #[trigger] utf8_offset(s, j) < utf8_offset(s, i + 1) by {
                lemma_offsets_monotonic(s, j, i + 1);
            }
        }
    }
    proof {
        assert(map@ =~= boundary_map(s)) by {
            assert forall|k: usize| map@.contains_key(k) implies map@[k] == boundary_map(s)[k] by {
                let j = choose|j: int| 0 <= j <= s.len() && k == utf8_offset(s, j);
                let i = choose|i: int| 0 <= i <= s.len() && k == utf8_offset(s, i);
                if i < j {
                    lemma_offsets_monotonic(s, i, j);
                } else if j < i {
                    lemma_offsets_monotonic(s, j, i);
                }
            }
        }
    }
    map
}

/// A character takes two UTF-16 units (a surrogate pair) exactly when its
/// scalar value lies above `0xFFFF`, which is exactly when it takes four
/// bytes in UTF-8; every other character takes one UTF-16 unit.
pub proof fn lemma_utf16_width_is_encoding_length(c: char)
    ensures
        utf16_width(c) == 1 <==> (c as u32) <= 0xFFFF,
        utf16_width(c) == 2 <==> (c as u32) > 0xFFFF,
        utf16_width(c) == 2 <==> utf8_width(c) == 4,
        utf16_width(c) == 1 <==> utf8_width(c) <= 3,
{
    broadcast use char_is_scalar;

}

/// The UTF-16 offset of a boundary is its character index plus one for
/// each character before it that needs a surrogate pair (four UTF-8 bytes).
pub proof fn lemma_utf16_offset_counts_pairs(s: Seq<char>, i: int)
    requires
        0 <= i <= s.len(),
    ensures
        utf16_offset(s, i) == i + s.take(i).filter(|c: char| (c as u32) > 0xFFFF).len(),
    decreases i,
{
    let f = |c: char| (c as u32) > 0xFFFF;
    reveal_with_fuel(Seq::<_>::filter, 1);
    if i > 0 {
        lemma_utf16_offset_counts_pairs(s, i - 1);
        lemma_utf16_width_is_encoding_length(s[i - 1]);
        assert(s.take(i).drop_last() =~= s.take(i - 1));
        assert(s.take(i).last() == s[i - 1]);
    } else {
        assert(s.take(0) =~= Seq::<char>::empty());
    }
}

} // verus!
