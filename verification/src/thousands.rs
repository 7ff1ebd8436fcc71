//! Decimal formatting with a comma between each group of three digits.

use vstd::prelude::*;

verus! {

/// The character that writes the decimal digit `d` (`d < 10`).
pub open spec fn digit_char(d: nat) -> char {
    if d == 0 {
        '0'
    } else if d == 1 {
        '1'
    } else if d == 2 {
        '2'
    } else if d == 3 {
        '3'
    } else if d == 4 {
        '4'
    } else if d == 5 {
        '5'
    } else if d == 6 {
        '6'
    } else if d == 7 {
        '7'
    } else if d == 8 {
        '8'
    } else {
        '9'
    }
}

/// The decimal digits of `n`, most significant first, with no leading zero
/// (zero itself is written `0`).
pub open spec fn decimal_digits(n: nat) -> Seq<char>
    decreases n,
{
    if n < 10 {
        seq![digit_char(n)]
    } else {
        decimal_digits(n / 10).push(digit_char(n % 10))
    }
}

/// `digits` with a comma placed before each group of three characters,
/// counting from the right.
pub open spec fn group_thousands(digits: Seq<char>) -> Seq<char>
    decreases digits.len(),
{
    if digits.len() <= 3 {
        digits
    } else {
        group_thousands(digits.subrange(0, digits.len() - 3)) + seq![','] + digits.subrange(
            digits.len() - 3,
            digits.len() as int,
        )
    }
}

/// `n` written in decimal with thousands separators, e.g. `1,234,567`.
pub open spec fn with_thousands(n: nat) -> Seq<char> {
    group_thousands(decimal_digits(n))
}

/// The one-character string that writes the digit `d`.
fn digit_str(d: usize) -> (r: &'static str)
    requires
        d < 10,
    ensures
        r@ == seq![digit_char(d as nat)],
{
    if d == 0 {
        proof { reveal_strlit("0"); }
        "0"
    } else if d == 1 {
        proof { reveal_strlit("1"); }
        "1"
    } else if d == 2 {
        proof { reveal_strlit("2"); }
        "2"
    } else if d == 3 {
        proof { reveal_strlit("3"); }
        "3"
    } else if d == 4 {
        proof { reveal_strlit("4"); }
        "4"
    } else if d == 5 {
        proof { reveal_strlit("5"); }
        "5"
    } else if d == 6 {
        proof { reveal_strlit("6"); }
        "6"
    } else if d == 7 {
        proof { reveal_strlit("7"); }
        "7"
    } else if d == 8 {
        proof { reveal_strlit("8"); }
        "8"
    } else {
        proof { reveal_strlit("9"); }
        "9"
    }
}

/// The last three digits of a number of at least four digits are those of
/// `n % 1000`, and the digits before them are those of `n / 1000`.
proof fn lemma_split_last_three(n: nat)
    requires
        n >= 1000,
    ensures
        decimal_digits(n).len() > 3,
        decimal_digits(n).subrange(0, decimal_digits(n).len() - 3) == decimal_digits(n / 1000),
        decimal_digits(n).subrange(decimal_digits(n).len() - 3, decimal_digits(n).len() as int)
            == seq![
            digit_char((n / 100) % 10),
            digit_char((n / 10) % 10),
            digit_char(n % 10),
        ],
{
    assert(n / 10 / 10 == n / 100) by {
        vstd::arithmetic::div_mod::lemma_div_denominator(n as int, 10, 10);
    }
    assert(n / 100 / 10 == n / 1000) by {
        vstd::arithmetic::div_mod::lemma_div_denominator(n as int, 100, 10);
    }
    lemma_digits_nonempty(n / 1000);
    let d = decimal_digits(n);
    assert(decimal_digits(n) == decimal_digits(n / 10).push(digit_char(n % 10)));
    assert(decimal_digits(n / 10) == decimal_digits(n / 100).push(digit_char((n / 10) % 10)));
    assert(decimal_digits(n / 100) == decimal_digits(n / 1000).push(digit_char((n / 100) % 10)));
    assert(d == decimal_digits(n / 1000).push(digit_char((n / 100) % 10)).push(
        digit_char((n / 10) % 10),
    ).push(digit_char(n % 10)));
    assert(d.subrange(0, d.len() - 3) =~= decimal_digits(n / 1000));
    assert(d.subrange(d.len() - 3, d.len() as int) =~= seq![
        digit_char((n / 100) % 10),
        digit_char((n / 10) % 10),
        digit_char(n % 10),
    ]);
}

proof fn lemma_digits_nonempty(n: nat)
    ensures
        decimal_digits(n).len() >= 1,
    decreases n,
{
    if n >= 10 {
        lemma_digits_nonempty(n / 10);
    }
}

/// Writes `n` in decimal with a comma between each group of three digits,
/// counted from the right: `1234567` gives `1,234,567`.
pub fn format_with_thousands(n: usize) -> (r: String)
    ensures
        r@ == with_thousands(n as nat),
    decreases n,
{
    if n < 10 {
        let mut r = String::new();
        r.append(digit_str(n));
        assert(r@ =~= with_thousands(n as nat));
        r
    } else if n < 100 {
        let mut r = String::new();
        r.append(digit_str(n / 10));
        r.append(digit_str(n % 10));
        assert(decimal_digits(n as nat) == decimal_digits((n / 10) as nat).push(digit_char((n % 10) as nat)));
        assert(r@ =~= with_thousands(n as nat));
        r
    } else if n < 1000 {
        let mut r = String::new();
        r.append(digit_str(n / 100));
        r.append(digit_str((n / 10) % 10));
        r.append(digit_str(n % 10));
        assert((n / 10) / 10 == n / 100) by {
            vstd::arithmetic::div_mod::lemma_div_denominator(n as int, 10, 10);
        }
        assert(decimal_digits(n as nat) == decimal_digits((n / 10) as nat).push(digit_char((n % 10) as nat)));
        assert(decimal_digits((n / 10) as nat) == decimal_digits((n / 100) as nat).push(digit_char(((n / 10) % 10) as nat)));
        assert(r@ =~= with_thousands(n as nat));
        r
    } else {
        let mut r = format_with_thousands(n / 1000);
        proof { reveal_strlit(","); }
        r.append(",");
        r.append(digit_str((n / 100) % 10));
        r.append(digit_str((n / 10) % 10));
        r.append(digit_str(n % 10));
        proof { lemma_split_last_three(n as nat); }
        assert(r@ =~= with_thousands(n as nat));
        r
    }
}

/// The value of a decimal digit character (`0` for any other character).
pub open spec fn digit_value(c: char) -> nat {
    if c == '1' {
        1
    } else if c == '2' {
        2
    } else if c == '3' {
        3
    } else if c == '4' {
        4
    } else if c == '5' {
        5
    } else if c == '6' {
        6
    } else if c == '7' {
        7
    } else if c == '8' {
        8
    } else if c == '9' {
        9
    } else {
        0
    }
}

/// The number that a string of decimal digits denotes.
pub open spec fn decimal_value(digits: Seq<char>) -> nat
    decreases digits.len(),
{
    if digits.len() == 0 {
        0
    } else {
        decimal_value(digits.drop_last()) * 10 + digit_value(digits.last())
    }
}

/// Decimal digits never hold the separator.
proof fn lemma_digits_have_no_comma(n: nat)
    ensures
        !decimal_digits(n).contains(','),
    decreases n,
{
    if n >= 10 {
        lemma_digits_have_no_comma(n / 10);
        assert(decimal_digits(n) == decimal_digits(n / 10).push(digit_char(n % 10)));
        assert forall|i: int| 0 <= i < decimal_digits(n).len() implies decimal_digits(n)[i] != ',' by {
            if i < decimal_digits(n).len() - 1 {
                assert(decimal_digits(n)[i] == decimal_digits(n / 10)[i]);
            }
        }
    }
}

proof fn lemma_group_filter(d: Seq<char>)
    requires
        !d.contains(','),
    ensures
        group_thousands(d).filter(|c: char| c != ',') == d,
    decreases d.len(),
{
    broadcast use Seq::filter_distributes_over_add;

    let f = |c: char| c != ',';
    assert forall|i: int| 0 <= i < d.len() implies f(d[i]) by {
        assert(d[i] != ',');
    }
    lemma_filter_keeps_all(d, f);
    if d.len() > 3 {
        let p = d.subrange(0, d.len() - 3);
        let t = d.subrange(d.len() - 3, d.len() as int);
        assert(!p.contains(',')) by {
            assert forall|i: int| 0 <= i < p.len() implies p[i] != ',' by {
                assert(p[i] == d[i]);
            }
        }
        lemma_group_filter(p);
        assert forall|i: int| 0 <= i < t.len() implies f(t[i]) by {
            assert(t[i] == d[d.len() - 3 + i]);
        }
        lemma_filter_keeps_all(t, f);
        assert(seq![','].filter(f) =~= Seq::<char>::empty()) by {
            reveal_with_fuel(Seq::<_>::filter, 2);
        }
        assert(group_thousands(d) == group_thousands(p) + seq![','] + t);
        assert(p + t =~= d);
    }
}

/// Filtering with a predicate that holds of every element changes nothing.
pub(crate) proof fn lemma_filter_keeps_all<A>(s: Seq<A>, f: spec_fn(A) -> bool)
    requires
        forall|i: int| 0 <= i < s.len() ==> f(s[i]),
    ensures
        s.filter(f) == s,
    decreases s.len(),
{
    reveal_with_fuel(Seq::<_>::filter, 1);
    if s.len() > 0 {
        lemma_filter_keeps_all(s.drop_last(), f);
        assert(s.drop_last().push(s.last()) =~= s);
    }
}

proof fn lemma_digits_value(n: nat)
    ensures
        decimal_value(decimal_digits(n)) == n,
    decreases n,
{
    if n < 10 {
        let d = decimal_digits(n);
        assert(d.drop_last() =~= Seq::<char>::empty());
        assert(decimal_value(d.drop_last()) == 0);
        assert(digit_value(digit_char(n)) == n);
        assert(decimal_value(d) == decimal_value(d.drop_last()) * 10 + digit_value(d.last()));
    } else {
        lemma_digits_value(n / 10);
        let d = decimal_digits(n);
        assert(d.drop_last() =~= decimal_digits(n / 10));
        assert(digit_value(digit_char(n % 10)) == n % 10);
        assert(d.last() == digit_char(n % 10));
        assert(decimal_value(d) == decimal_value(d.drop_last()) * 10 + digit_value(d.last()));
        assert((n / 10) * 10 + n % 10 == n);
    }
}

/// Taking the separators out of a formatted number leaves its decimal
/// digits, and those digits read back as the number: formatting loses nothing.
pub proof fn lemma_thousands_round_trip(n: nat)
    ensures
        with_thousands(n).filter(|c: char| c != ',') == decimal_digits(n),
        decimal_value(decimal_digits(n)) == n,
{
    lemma_digits_have_no_comma(n);
    lemma_group_filter(decimal_digits(n));
    lemma_digits_value(n);
}

proof fn lemma_group_layout(d: Seq<char>)
    requires
        d.len() >= 1,
        !d.contains(','),
    ensures
        group_thousands(d).len() >= 1,
        group_thousands(d).len() % 4 != 0,
        forall|i: int|
            0 <= i < group_thousands(d).len() ==> ((#[trigger] group_thousands(d)[i] == ',') <==> (
            group_thousands(d).len() - 1 - i) % 4 == 3),
    decreases d.len(),
{
    if d.len() <= 3 {
        assert forall|i: int| 0 <= i < d.len() implies d[i] != ',' by {}
    } else {
        let p = d.subrange(0, d.len() - 3);
        let t = d.subrange(d.len() - 3, d.len() as int);
        assert(!p.contains(',')) by {
            assert forall|i: int| 0 <= i < p.len() implies p[i] != ',' by {
                assert(p[i] == d[i]);
            }
        }
        lemma_group_layout(p);
        let gp = group_thousands(p);
        let g = group_thousands(d);
        assert(g == gp + seq![','] + t);
        assert forall|i: int| 0 <= i < g.len() implies ((#[trigger] g[i] == ',') <==> (g.len() - 1
            - i) % 4 == 3) by {
            if i < gp.len() {
                assert(g[i] == gp[i]);
                assert(g.len() - 1 - i == (gp.len() - 1 - i) + 4);
            } else if i == gp.len() {
                assert(g[i] == ',');
            } else {
                assert(g[i] == t[i - gp.len() - 1]);
                assert(t[i - gp.len() - 1] == d[d.len() - 3 + (i - gp.len() - 1)]);
            }
        }
    }
}

/// In a formatted number the commas stand exactly where a full group of
/// three digits follows, counted from the right: at the positions that have
/// 3, 7, 11, ... characters after them. So the first group has one to three
/// digits, every later group has three, and the text never starts with a comma.
pub proof fn lemma_thousands_layout(n: nat)
    ensures
        with_thousands(n).len() >= 1,
        with_thousands(n)[0] != ',',
        forall|i: int|
            0 <= i < with_thousands(n).len() ==> ((#[trigger] with_thousands(n)[i] == ',') <==> (
            with_thousands(n).len() - 1 - i) % 4 == 3),
{
    lemma_digits_have_no_comma(n);
    lemma_digits_nonempty(n);
    lemma_group_layout(decimal_digits(n));
    assert(with_thousands(n)[0] == ',' ==> (with_thousands(n).len() - 1) % 4 == 3);
}

} // verus!
