//! What the viewer shows about a loaded document: its name and the byte and
//! line counts of the status bar.

use crate::thousands::{format_with_thousands, with_thousands};
use vstd::prelude::*;
use vstd::string::StrSliceExecFns;
use vstd::utf8::encode_utf8;

verus! {

/// The last component of `path`: the part after its last `/` (all of it
/// when there is none, nothing when it ends with `/`).
pub open spec fn file_name_of(path: Seq<char>) -> Seq<char>
    decreases path.len(),
{
    if path.len() == 0 {
        path
    } else if path.last() == '/' {
        seq![]
    } else {
        file_name_of(path.drop_last()).push(path.last())
    }
}

/// Number of line feeds in `s`.
pub open spec fn newline_count(s: Seq<char>) -> nat
    decreases s.len(),
{
    if s.len() == 0 {
        0
    } else {
        newline_count(s.drop_last()) + if s.last() == '\n' {
            1nat
        } else {
            0nat
        }
    }
}

/// Number of lines of `s` as `str::lines` yields them: a line ends at each
/// line feed, and a last line without one counts too; an empty text has none.
pub open spec fn line_count(s: Seq<char>) -> nat {
    newline_count(s) + if s.len() > 0 && s.last() != '\n' {
        1nat
    } else {
        0nat
    }
}

/// The name of the file at `path`, as shown in the window title and the
/// status bar: the text after the last `/`.
pub fn file_name(path: &str) -> (r: &str)
    ensures
        r@ == file_name_of(path@),
{
    let ghost s = path@;
    let n = path.unicode_len();
    let mut start: usize = 0;
    let mut idx: usize = 0;
    for c in it: path.chars()
        invariant
            it.seq() == s,
            n == s.len(),
            idx == it.index(),
            start <= idx,
            file_name_of(s.take(idx as int)) == s.subrange(start as int, idx as int),
    {
        let ghost t = s.take(idx + 1);
        assert(t.drop_last() =~= s.take(idx as int));
        assert(t.last() == c);
        if c == '/' {
            start = idx + 1;
            assert(s.subrange(start as int, idx + 1) =~= Seq::<char>::empty());
        } else {
            assert(s.subrange(start as int, idx + 1) =~= s.subrange(start as int, idx as int).push(
                c,
            ));
        }
        idx = idx + 1;
    }
    assert(s.take(s.len() as int) =~= s);
    path.substring_char(start, idx)
}

/// The number of lines of `text`, counted as `text.lines().count()` does.
pub fn count_lines(text: &str) -> (r: usize)
    ensures
        r == line_count(text@),
{
    let ghost s = text@;
    let n = text.unicode_len();
    let mut newlines: usize = 0;
    let mut last_is_newline = true;
    let mut idx: usize = 0;
    for c in it: text.chars()
        invariant
            it.seq() == s,
            idx == it.index(),
            n == s.len(),
            newlines == newline_count(s.take(idx as int)),
            newlines <= idx,
            !last_is_newline ==> newlines < idx,
            last_is_newline == (idx == 0 || s[idx - 1] == '\n'),
    {
        let ghost t = s.take(idx + 1);
        assert(t.drop_last() =~= s.take(idx as int));
        if c == '\n' {
            newlines = newlines + 1;
            last_is_newline = true;
        } else {
            last_is_newline = false;
        }
        idx = idx + 1;
    }
    assert(s.take(s.len() as int) =~= s);
    if last_is_newline {
        newlines
    } else {
        newlines + 1
    }
}

/// A status-bar text: `label` followed by `n` with thousands separators.
pub open spec fn count_label(label: Seq<char>, n: nat) -> Seq<char> {
    label + with_thousands(n)
}

/// `label` followed by `n` written with thousands separators, as in
/// `Bytes: 1,024`.
pub fn format_count_label(label: &str, n: usize) -> (r: String)
    ensures
        r@ == count_label(label@, n as nat),
{
    let mut r = label.to_owned();
    let digits = format_with_thousands(n);
    r.append(digits.as_str());
    r
}

/// The three texts of the status bar: the file's name, its size in bytes
/// and its number of lines.
pub struct StatusLabels {
    pub file: String,
    pub bytes: String,
    pub lines: String,
}

impl StatusLabels {
    /// The status bar before any file is loaded.
    pub fn initial() -> (r: StatusLabels)
        ensures
            r.file@ == "No file loaded"@,
            r.bytes@ == count_label("Bytes: "@, 0),
            r.lines@ == count_label("Lines: "@, 0),
    {
        proof {
            reveal_strlit("Bytes: 0");
            reveal_strlit("Bytes: ");
            reveal_strlit("Lines: 0");
            reveal_strlit("Lines: ");
            assert(crate::thousands::decimal_digits(0) == seq!['0']);
        }
        let r = StatusLabels {
            file: "No file loaded".to_owned(),
            bytes: "Bytes: 0".to_owned(),
            lines: "Lines: 0".to_owned(),
        };
        assert(r.bytes@ =~= count_label("Bytes: "@, 0));
        assert(r.lines@ =~= count_label("Lines: "@, 0));
        r
    }

    /// The status bar once the file at `path` is loaded with `contents`:
    /// its name, `Bytes: ` and its length in bytes, `Lines: ` and its
    /// number of lines, the numbers with thousands separators.
    pub fn for_file(path: &str, contents: &str) -> (r: StatusLabels)
        ensures
            r.file@ == file_name_of(path@),
            r.bytes@ == count_label("Bytes: "@, encode_utf8(contents@).len()),
            r.lines@ == count_label("Lines: "@, line_count(contents@)),
    {
        let name = file_name(path);
        let byte_count = crate::text_offsets::byte_length(contents);
        let line_count = count_lines(contents);
        StatusLabels {
            file: name.to_owned(),
            bytes: format_count_label("Bytes: ", byte_count),
            lines: format_count_label("Lines: ", line_count),
        }
    }
}

/// The file name is the last component of the path: a suffix of it that
/// holds no `/`, and either the whole path or what follows its last `/`.
pub proof fn lemma_file_name_is_last_component(path: Seq<char>)
    ensures
        file_name_of(path).is_suffix_of(path),
        !file_name_of(path).contains('/'),
        file_name_of(path).len() == path.len() || path[path.len() - file_name_of(path).len() - 1]
            == '/',
    decreases path.len(),
{
    if path.len() > 0 && path.last() != '/' {
        let p = path.drop_last();
        lemma_file_name_is_last_component(p);
        let f = file_name_of(p);
        let g = file_name_of(path);
        assert(g == f.push(path.last()));
        assert(g =~= path.subrange(path.len() - g.len(), path.len() as int)) by {
            assert forall|i: int| 0 <= i < g.len() implies g[i] == path[path.len() - g.len() + i] by {
                if i < f.len() {
                    assert(f[i] == p[p.len() - f.len() + i]);
                }
            }
        }
        assert forall|i: int| 0 <= i < g.len() implies g[i] != '/' by {
            if i < f.len() {
                assert(f[i] != '/');
            }
        }
        if f.len() < p.len() {
            assert(p[p.len() - f.len() - 1] == path[path.len() - g.len() - 1]);
        }
    }
}

proof fn lemma_newline_count_concat(a: Seq<char>, b: Seq<char>)
    ensures
        newline_count(a + b) == newline_count(a) + newline_count(b),
    decreases b.len(),
{
    if b.len() == 0 {
        assert(a + b =~= a);
    } else {
        lemma_newline_count_concat(a, b.drop_last());
        assert((a + b).drop_last() =~= a + b.drop_last());
        assert((a + b).last() == b.last());
    }
}

/// Lines add up: a text that ends at a line end (or is empty), followed by
/// another text, has the lines of both.
pub proof fn lemma_line_count_concat(a: Seq<char>, b: Seq<char>)
    requires
        a.len() == 0 || a.last() == '\n',
    ensures
        line_count(a + b) == line_count(a) + line_count(b),
{
    lemma_newline_count_concat(a, b);
    if b.len() == 0 {
        assert(a + b =~= a);
    } else {
        assert((a + b).last() == b.last());
    }
}

/// The final line end is optional: ending a non-empty last line with a
/// line feed does not change the number of lines.
pub proof fn lemma_final_newline_optional(s: Seq<char>)
    requires
        s.len() > 0,
        s.last() != '\n',
    ensures
        line_count(s.push('\n')) == line_count(s),
{
    assert(s.push('\n').drop_last() =~= s);
}

/// An empty file shows the same byte and line counts as the status bar
/// before any file is loaded: `Bytes: 0` and `Lines: 0`.
pub proof fn lemma_empty_file_counts_as_initial()
    ensures
        count_label("Bytes: "@, encode_utf8(Seq::<char>::empty()).len()) == count_label(
            "Bytes: "@,
            0,
        ),
        count_label("Lines: "@, line_count(Seq::<char>::empty())) == count_label("Lines: "@, 0),
{
}

/// The file extensions that the open dialog accepts: text-like formats
/// (plain text, markup, source code, RTF and PDF).
pub fn allowed_file_types() -> (r: Vec<&'static str>)
    ensures
        r@ == seq![
            "txt", "md", "markdown", "html", "htm", "xml", "css", "json", "js", "ts", "rs", "py",
            "rb", "go", "c", "h", "cpp", "java", "rtf", "pdf",
        ],
{
    vec![
        "txt", "md", "markdown", "html", "htm", "xml", "css", "json", "js", "ts", "rs", "py",
        "rb", "go", "c", "h", "cpp", "java", "rtf", "pdf",
    ]
}

/// The text after the label, with its commas taken out, reads back as `n`:
/// the label is followed by the whole count, nothing cut off.
pub proof fn lemma_count_label_reads_back(label: Seq<char>, n: nat)
    ensures
        count_label(label, n).subrange(0, label.len() as int) == label,
        crate::thousands::decimal_value(
            count_label(label, n).skip(label.len() as int).filter(|c: char| c != ','),
        ) == n,
{
    crate::thousands::lemma_thousands_round_trip(n);
    assert(count_label(label, n).subrange(0, label.len() as int) =~= label);
    assert(count_label(label, n).skip(label.len() as int) =~= with_thousands(n));
}

/// An empty text has no lines. Adding a character to a text whose last
/// line is ended (or that is empty) starts a new line; adding a character
/// to an unfinished last line leaves the count alone. This holds whether
/// the character is a line feed or not, so the count is fixed by where the
/// line feeds are.
pub proof fn lemma_line_count_steps(s: Seq<char>, c: char)
    ensures
        line_count(Seq::<char>::empty()) == 0,
        (s.len() == 0 || s.last() == '\n') ==> line_count(s.push(c)) == line_count(s) + 1,
        (s.len() > 0 && s.last() != '\n') ==> line_count(s.push(c)) == line_count(s),
{
    assert(s.push(c).drop_last() =~= s);
}

/// The number of lines is the number of line feeds, plus one for a last
/// line that does not end with one.
pub proof fn lemma_line_count_counts_line_feeds(s: Seq<char>)
    ensures
        line_count(s) == s.filter(|c: char| c == '\n').len() + if s.len() > 0 && s.last() != '\n' {
            1nat
        } else {
            0nat
        },
    decreases s.len(),
{
    reveal_with_fuel(Seq::<_>::filter, 1);
    if s.len() > 0 {
        let p = s.drop_last();
        lemma_line_count_counts_line_feeds(p);
        lemma_line_count_steps(p, s.last());
        assert(p.push(s.last()) =~= s);
    }
}

/// Replacing a character that is not a line feed by another that is not
/// one never changes the number of lines.
pub proof fn lemma_line_count_ignores_other_chars(s: Seq<char>, i: int, c: char)
    requires
        0 <= i < s.len(),
        s[i] != '\n',
        c != '\n',
    ensures
        line_count(s.update(i, c)) == line_count(s),
{
    let f = |x: char| x == '\n';
    let t = s.update(i, c);
    lemma_line_count_counts_line_feeds(s);
    lemma_line_count_counts_line_feeds(t);
    assert(s =~= s.take(i) + seq![s[i]] + s.skip(i + 1));
    assert(t =~= s.take(i) + seq![c] + s.skip(i + 1));
    assert(seq![s[i]].filter(f) =~= Seq::<char>::empty()) by {
        reveal_with_fuel(Seq::<_>::filter, 2);
    }
    assert(seq![c].filter(f) =~= Seq::<char>::empty()) by {
        reveal_with_fuel(Seq::<_>::filter, 2);
    }
    Seq::filter_distributes_over_add(s.take(i) + seq![s[i]], s.skip(i + 1), f);
    Seq::filter_distributes_over_add(s.take(i), seq![s[i]], f);
    Seq::filter_distributes_over_add(s.take(i) + seq![c], s.skip(i + 1), f);
    Seq::filter_distributes_over_add(s.take(i), seq![c], f);
    assert(t.last() == '\n' <==> s.last() == '\n');
}

} // verus!
