//! Numbers and numerals: what the digits are worth, and how an integer is
//! written.

use crate::grammar;
use crate::roundtrip;
use crate::text;
use vstd::prelude::*;

verus! {

/// Whether a character is the digit that is worth `v`, as a capital letter or
/// a small one from 10 on.
pub open spec fn is_digit(c: char, v: int) -> bool {
    0 <= v < 16 && (c == "0123456789ABCDEF"@[v] || c == "0123456789abcdef"@[v])
}

/// Whether a character is a digit of the radix.
pub open spec fn is_digit_of(c: char, radix: int) -> bool {
    exists|v: int| v < radix && #[trigger] is_digit(c, v)
}

/// Whether a text is a run of digits in the radix.
pub open spec fn is_digits(s: Seq<char>, radix: int) -> bool {
    &&& s.len() > 0
    &&& forall|i: int| 0 <= i < s.len() ==> is_digit_of(#[trigger] s[i], radix)
}

/// Whether a literal of the radix begins with the prefix.
pub open spec fn is_prefix(prefix: Seq<char>, radix: int) -> bool {
    ||| radix == 16 && (prefix == seq!['0', 'x'] || prefix == seq!['0', 'X'] || prefix == seq!['/'])
    ||| radix == 2 && (prefix == seq!['0', 'b'] || prefix == seq!['0', 'B'])
    ||| radix == 10 && prefix == Seq::<char>::empty()
}

/// How the digits are spelled.
proof fn lemma_digits()
    ensures
        forall|v: int|
            0 <= v < 10 ==> #[trigger] "0123456789ABCDEF"@[v] == ('0' as u32 + v) as char,
        forall|v: int|
            10 <= v < 16 ==> #[trigger] "0123456789ABCDEF"@[v] == ('A' as u32 + v - 10) as char,
        forall|v: int|
            0 <= v < 10 ==> #[trigger] "0123456789abcdef"@[v] == ('0' as u32 + v) as char,
        forall|v: int|
            10 <= v < 16 ==> #[trigger] "0123456789abcdef"@[v] == ('a' as u32 + v - 10) as char,
{
    reveal_strlit("0123456789ABCDEF");
    reveal_strlit("0123456789abcdef");
    let upper = "0123456789ABCDEF"@;
    let lower = "0123456789abcdef"@;
    assert forall|v: int| 0 <= v < 10 implies #[trigger] "0123456789ABCDEF"@[v] == ('0' as u32
        + v) as char by {
        assert(v == 0 || v == 1 || v == 2 || v == 3 || v == 4 || v == 5 || v == 6 || v == 7 || v
            == 8 || v == 9);
    }
    assert forall|v: int| 10 <= v < 16 implies #[trigger] "0123456789ABCDEF"@[v] == ('A' as u32 + v
        - 10) as char by {
        assert(v == 10 || v == 11 || v == 12 || v == 13 || v == 14 || v == 15);
    }
    assert forall|v: int| 0 <= v < 10 implies #[trigger] "0123456789abcdef"@[v] == ('0' as u32
        + v) as char by {
        assert(v == 0 || v == 1 || v == 2 || v == 3 || v == 4 || v == 5 || v == 6 || v == 7 || v
            == 8 || v == 9);
    }
    assert forall|v: int| 10 <= v < 16 implies #[trigger] "0123456789abcdef"@[v] == ('a' as u32 + v
        - 10) as char by {
        assert(v == 10 || v == 11 || v == 12 || v == 13 || v == 14 || v == 15);
    }
}

proof fn lemma_digit_value(c: char, v: int, radix: nat)
    requires
        is_digit(c, v),
        v < radix <= 16,
    ensures
        text::digit_value(c, radix) == Some(v as nat),
        !text::is_whitespace(c),
        !grammar::is_sign(c),
        c != '/',
        v < 10 ==> text::is_decimal(c),
        c != 'x' && c != 'X',
        radix <= 10 ==> c != 'b' && c != 'B',
{
    lemma_digits();
}

/// A run of digits has a value, and no white space or sign.
proof fn lemma_digits_have_value(s: Seq<char>, radix: nat)
    requires
        radix <= 16,
        forall|i: int| 0 <= i < s.len() ==> is_digit_of(#[trigger] s[i], radix as int),
    ensures
        text::digits_value(s, radix) is Some,
        forall|i: int|
            0 <= i < s.len() ==> !text::is_whitespace(#[trigger] s[i]) && !grammar::is_sign(s[i])
                && s[i] != '/' && s[i] != 'x' && s[i] != 'X',
        radix <= 10 ==> forall|i: int|
            0 <= i < s.len() ==> text::is_decimal(#[trigger] s[i]) && s[i] != 'b' && s[i] != 'B',
    decreases s.len(),
{
    assert forall|i: int| 0 <= i < s.len() implies !text::is_whitespace(#[trigger] s[i])
        && !grammar::is_sign(s[i]) && s[i] != '/' && s[i] != 'x' && s[i] != 'X' && (radix <= 10
        ==> text::is_decimal(s[i]) && s[i] != 'b' && s[i] != 'B') by {
        assert(is_digit_of(s[i], radix as int));
        let v = choose|v: int| v < radix && #[trigger] is_digit(s[i], v);
        lemma_digit_value(s[i], v, radix);
    }
    if s.len() > 0 {
        let t = s.drop_last();
        assert forall|i: int| 0 <= i < t.len() implies is_digit_of(
        #[trigger] t[i],
        radix as int,
    ) by {
            assert(t[i] == s[i]);
        }
        lemma_digits_have_value(t, radix);
        assert(is_digit_of(s[s.len() - 1], radix as int));
        let v = choose|v: int| v < radix && #[trigger] is_digit(s[s.len() - 1], v);
        lemma_digit_value(s.last(), v, radix);
    }
}

/// Digits are no signs.
pub(crate) proof fn lemma_digits_are_plain(s: Seq<char>, radix: int)
    requires
        is_digits(s, radix),
        radix <= 16,
    ensures
        forall|i: int| 0 <= i < s.len() ==> !grammar::is_sign(#[trigger] s[i]),
{
    if radix >= 0 {
        lemma_digits_have_value(s, radix as nat);
    } else {
        assert(is_digit_of(s[0], radix));
    }
}

/// A literal is worth what its digits are.
proof fn lemma_literal(prefix: Seq<char>, radix: nat, s: Seq<char>)
    requires
        is_prefix(prefix, radix as int),
        is_digits(s, radix as int),
    ensures
        text::digits_value(s, radix) matches Some(n) && grammar::number(prefix + s) == if n
            <= i64::MAX {
            Some(n as i64)
        } else {
            None
        },
{
    lemma_digits_have_value(s, radix);
    let all = prefix + s;
    assert(all.last() == s.last());
    assert(!text::is_whitespace(s[s.len() - 1]));
    assert(prefix.len() == 0 ==> all =~= s);
    assert(prefix.len() > 0 ==> all[0] == prefix[0]);
    assert(!text::is_whitespace(all[0]) && !grammar::is_sign(all[0]));
    roundtrip::lemma_trimmed(all);
    assert(all.skip(prefix.len() as int) =~= s);
    if radix == 10 {
        assert(grammar::all_decimal(all));
        if all.len() > 1 {
            assert(all[1] == s[1]);
        }
    } else {
        if prefix.len() == 2 {
            assert(all[1] == prefix[1]);
        }
    }
}

/// One digit behind a prefix is worth itself: a hexadecimal one from A to F
/// is worth 10 to 15, whether it is a capital letter or not.
pub proof fn law_first_digit(prefix: Seq<char>, radix: int, c: char, v: int)
    requires
        is_prefix(prefix, radix),
        is_digit(c, v),
        v < radix,
    ensures
        grammar::number(prefix.push(c)) == Some(v as i64),
{
    let s = seq![c];
    assert(is_digits(s, radix)) by {
        assert(is_digit(s[0], v));
        assert(is_digit_of(s[0], radix));
    }
    lemma_literal(prefix, radix as nat, s);
    lemma_digit_value(c, v, radix as nat);
    assert(s.drop_last() =~= Seq::<char>::empty());
    assert(text::digits_value(s.drop_last(), radix as nat) == Some(0nat));
    assert(prefix + s =~= prefix.push(c));
    assert(0 * (radix as nat) + v as nat == v) by (nonlinear_arith)
        requires
            0 <= v,
    ;
}

/// One digit more makes a literal worth the radix times as much, and the
/// digit: as long as 64 bits hold that, and nothing beyond.
pub proof fn law_next_digit(prefix: Seq<char>, radix: int, s: Seq<char>, c: char, v: int)
    requires
        is_prefix(prefix, radix),
        is_digits(s, radix),
        is_digit(c, v),
        v < radix,
    ensures
        match grammar::number(prefix + s) {
            Some(n) => grammar::number((prefix + s).push(c)) == if n * radix + v <= i64::MAX {
                Some((n * radix + v) as i64)
            } else {
                None
            },
            None => grammar::number((prefix + s).push(c)) is None,
        },
{
    let t = s.push(c);
    assert(is_digits(t, radix)) by {
        assert forall|i: int| 0 <= i < t.len() implies is_digit_of(
        #[trigger] t[i],
        radix as int,
    ) by {
            if i < s.len() {
                assert(t[i] == s[i]);
            } else {
                assert(is_digit(t[i], v));
            }
        }
    }
    lemma_literal(prefix, radix as nat, s);
    lemma_literal(prefix, radix as nat, t);
    lemma_digit_value(c, v, radix as nat);
    assert(t.drop_last() =~= s);
    assert(prefix + t =~= (prefix + s).push(c));
    let n = text::digits_value(s, radix as nat)->0;
    assert(n > i64::MAX ==> n * (radix as nat) + v > i64::MAX) by (nonlinear_arith)
        requires
            radix >= 2,
            v >= 0,
            n >= 0,
    ;
}

/// Hexadecimal literals that differ only in the case of their digits have the
/// same value.
pub proof fn law_digit_case(prefix: Seq<char>, a: Seq<char>, b: Seq<char>)
    requires
        is_prefix(prefix, 16),
        is_digits(a, 16),
        is_digits(b, 16),
        a.len() == b.len(),
        forall|i: int, v: int|
            0 <= i < a.len() && #[trigger] is_digit(a[i], v) ==> is_digit(b[i], v),
    ensures
        grammar::number(prefix + a) == grammar::number(prefix + b),
    decreases a.len(),
{
    let n = a.len() - 1;
    let c = a[n];
    assert(is_digit_of(a[n], 16));
    let v = choose|v: int| v < 16 && #[trigger] is_digit(a[n], v);
    assert(is_digit(a[n], v));
    assert(is_digit(b[n], v));
    if n == 0 {
        law_first_digit(prefix, 16, a[0], v);
        law_first_digit(prefix, 16, b[0], v);
        assert(prefix + a =~= prefix.push(a[0]));
        assert(prefix + b =~= prefix.push(b[0]));
    } else {
        let s = a.drop_last();
        let t = b.drop_last();
        assert forall|i: int| 0 <= i < s.len() implies is_digit_of(
        #[trigger] s[i],
        16,
    ) by {
            assert(s[i] == a[i]);
        }
        assert forall|i: int| 0 <= i < t.len() implies is_digit_of(
        #[trigger] t[i],
        16,
    ) by {
            assert(t[i] == b[i]);
        }
        assert forall|i: int, w: int|
            0 <= i < s.len() && #[trigger] is_digit(s[i], w) implies is_digit(t[i], w) by {
            assert(is_digit(a[i], w));
        }
        law_digit_case(prefix, s, t);
        law_next_digit(prefix, 16, s, a[n], v);
        law_next_digit(prefix, 16, t, b[n], v);
        assert((prefix + s).push(a[n]) =~= prefix + a);
        assert((prefix + t).push(b[n]) =~= prefix + b);
    }
}

/// A sign right behind the prefix of a literal belongs to its digits.
pub proof fn law_inner_sign(prefix: Seq<char>, radix: int, s: Seq<char>, n: i64)
    requires
        is_prefix(prefix, radix),
        radix != 10,
        is_digits(s, radix),
        grammar::number(prefix + s) == Some(n),
    ensures
        grammar::number(prefix.push('-') + s) == Some((-n) as i64),
        grammar::number(prefix.push('+') + s) == Some(n),
{
    lemma_literal(prefix, radix as nat, s);
    lemma_digits_have_value(s, radix as nat);
    lemma_signed(prefix, radix as nat, s, '-');
    lemma_signed(prefix, radix as nat, s, '+');
}

/// With a minus there, a literal reaches one further than without: down to
/// the least number that 64 bits hold.
pub proof fn law_inner_minus(prefix: Seq<char>, radix: int, s: Seq<char>, c: char, v: int)
    requires
        is_prefix(prefix, radix),
        radix != 10,
        is_digits(s, radix),
        is_digit(c, v),
        v < radix,
    ensures
        grammar::number(prefix.push('-') + s.push(c)) == match grammar::number(prefix + s) {
            Some(m) => if -(m * radix + v) >= i64::MIN {
                Some((-(m * radix + v)) as i64)
            } else {
                None
            },
            None => None,
        },
        grammar::number(prefix.push('+') + s) == grammar::number(prefix + s),
{
    let r = radix as nat;
    let t = s.push(c);
    assert forall|i: int| 0 <= i < t.len() implies is_digit_of(#[trigger] t[i], radix) by {
        if i < s.len() {
            assert(t[i] == s[i]);
        } else {
            assert(is_digit(t[i], v));
        }
    }
    lemma_literal(prefix, r, s);
    lemma_signed(prefix, r, s, '+');
    lemma_signed(prefix, r, t, '-');
    lemma_digit_value(c, v, r);
    assert(t.drop_last() =~= s);
    let m = text::digits_value(s, r).unwrap();
    assert(text::digits_value(t, r) == Some((m * r + v) as nat));
    if m > i64::MAX {
        assert(m * r >= 2 * m) by (nonlinear_arith)
            requires
                r >= 2,
        ;
    }
}

proof fn lemma_signed(prefix: Seq<char>, radix: nat, s: Seq<char>, sign: char)
    requires
        is_prefix(prefix, radix as int),
        radix != 10,
        is_digits(s, radix as int),
        grammar::is_sign(sign),
    ensures
        grammar::number(prefix.push(sign) + s) == grammar::radix_value(seq![sign] + s, radix),
        (seq![sign] + s).skip(1) == s,
{
    let all = prefix.push(sign) + s;
    lemma_digits_have_value(s, radix);
    assert(all.last() == s.last());
    assert(!text::is_whitespace(s[s.len() - 1]));
    assert(all[0] == prefix[0]);
    assert(!text::is_whitespace(all[0]) && !grammar::is_sign(all[0]));
    roundtrip::lemma_trimmed(all);
    assert(all.skip(prefix.len() as int) =~= seq![sign] + s);
    assert((seq![sign] + s).skip(1) =~= s);
    if prefix.len() == 2 {
        assert(all[1] == prefix[1]);
    } else {
        assert(all[1] == sign);
    }
}

/// What is a number, among texts without white space: behind one sign or
/// none, decimal digits, or a prefix with digits of its radix, again with a
/// sign before them or none.
pub proof fn law_number_shape(s: Seq<char>)
    requires
        grammar::number(s) is Some,
        forall|i: int| 0 <= i < s.len() ==> !text::is_whitespace(#[trigger] s[i]),
    ensures
        ({
            let body = if s[0] == '-' || s[0] == '+' {
                s.skip(1)
            } else {
                s
            };
            ||| is_digits(body, 10)
            ||| exists|prefix: Seq<char>, radix: int, digits: Seq<char>|
                radix != 10 && #[trigger] is_prefix(prefix, radix) && #[trigger] is_digits(
                    digits,
                    radix,
                ) && (body == prefix + digits || body == prefix.push('-') + digits || body
                    == prefix.push('+') + digits)
        }),
{
    let body = if s.len() > 0 && (s[0] == '-' || s[0] == '+') {
        s.skip(1)
    } else {
        s
    };
    if s.len() == 0 {
        assert(text::trim(s) =~= s);
    }
    lemma_trim_nothing(body);
    if grammar::begins(body, '0', 'x') {
        lemma_shape(body, seq!['0', 'x'], 16);
    } else if grammar::begins(body, '0', 'X') {
        lemma_shape(body, seq!['0', 'X'], 16);
    } else if body.len() > 0 && body[0] == '/' {
        lemma_shape(body, seq!['/'], 16);
    } else if grammar::begins(body, '0', 'b') {
        lemma_shape(body, seq!['0', 'b'], 2);
    } else if grammar::begins(body, '0', 'B') {
        lemma_shape(body, seq!['0', 'B'], 2);
    } else {
        lemma_all_digits(body, 10);
    }
}

proof fn lemma_trim_nothing(s: Seq<char>)
    requires
        forall|i: int| 0 <= i < s.len() ==> !text::is_whitespace(#[trigger] s[i]),
    ensures
        text::trim(s) == s,
{
    if s.len() > 0 {
        assert(!text::is_whitespace(s[0]));
        assert(!text::is_whitespace(s[s.len() - 1]));
    }
}

proof fn lemma_shape(body: Seq<char>, prefix: Seq<char>, radix: nat)
    requires
        is_prefix(prefix, radix as int),
        radix == 16 || radix == 2,
        body.len() >= prefix.len(),
        body.take(prefix.len() as int) =~= prefix,
        grammar::radix_value(body.skip(prefix.len() as int), radix) is Some,
    ensures
        exists|p: Seq<char>, r: int, digits: Seq<char>|
            r != 10 && #[trigger] is_prefix(p, r) && #[trigger] is_digits(digits, r) && (body == p
                + digits || body == p.push('-') + digits || body == p.push('+') + digits),
{
    let rest = body.skip(prefix.len() as int);
    assert(body =~= prefix + rest);
    if rest.len() > 0 && (rest[0] == '-' || rest[0] == '+') {
        let digits = rest.skip(1);
        lemma_all_digits(digits, radix);
        assert(body =~= prefix.push(rest[0]) + digits);
        assert(is_prefix(prefix, radix as int) && is_digits(digits, radix as int));
    } else {
        lemma_all_digits(rest, radix);
        assert(is_prefix(prefix, radix as int) && is_digits(rest, radix as int));
    }
}

/// What has a value is a run of digits.
proof fn lemma_all_digits(s: Seq<char>, radix: nat)
    requires
        s.len() > 0,
        radix <= 16,
        text::digits_value(s, radix) is Some,
    ensures
        is_digits(s, radix as int),
    decreases s.len(),
{
    lemma_digits();
    let t = s.drop_last();
    if t.len() > 0 {
        lemma_all_digits(t, radix);
    }
    assert forall|i: int| 0 <= i < s.len() implies is_digit_of(
        #[trigger] s[i],
        radix as int,
    ) by {
        if i < t.len() {
            assert(t[i] == s[i]);
        } else {
            let v = text::digit_value(s[i], radix)->0 as int;
            assert(is_digit(s[i], v));
        }
    }
}

/// White space around a number does not matter, nor behind its sign.
pub proof fn law_number_trims(a: Seq<char>, s: Seq<char>, b: Seq<char>)
    requires
        s.len() > 0,
        !text::is_whitespace(s[0]),
        !text::is_whitespace(s.last()),
        !grammar::is_sign(s[0]),
        forall|i: int| 0 <= i < a.len() ==> text::is_whitespace(#[trigger] a[i]),
        forall|i: int| 0 <= i < b.len() ==> text::is_whitespace(#[trigger] b[i]),
    ensures
        grammar::number(a + s + b) == grammar::number(s),
        grammar::number(seq!['-'] + (a + s + b)) == grammar::number(seq!['-'] + s),
        grammar::number(seq!['+'] + (a + s + b)) == grammar::number(seq!['+'] + s),
{
    let all = a + s + b;
    lemma_trim_around(a, s, b);
    roundtrip::lemma_trimmed(s);
    lemma_behind_sign('-', all, s);
    lemma_behind_sign('+', all, s);
    if a.len() > 0 {
        assert(all[0] == a[0]);
        assert(text::is_whitespace(a[0]));
    } else {
        assert(all[0] == s[0]);
    }
    lemma_without_sign(all, s);
}

/// Behind a sign, white space around the rest does not matter.
proof fn lemma_behind_sign(sign: char, s: Seq<char>, t: Seq<char>)
    requires
        grammar::is_sign(sign),
        text::trim(s) == text::trim(t),
    ensures
        grammar::number(seq![sign] + s) == grammar::number(seq![sign] + t),
{
    assert((seq![sign] + s).skip(1) =~= s);
    assert((seq![sign] + t).skip(1) =~= t);
}

proof fn lemma_without_sign(s: Seq<char>, t: Seq<char>)
    requires
        s.len() > 0 && !grammar::is_sign(s[0]),
        t.len() > 0 && !grammar::is_sign(t[0]),
        text::trim(s) == text::trim(t),
    ensures
        grammar::number(s) == grammar::number(t),
{
}

/// Trimming takes the white space around a text, and nothing of the text.
pub(crate) proof fn lemma_trim_around(a: Seq<char>, s: Seq<char>, b: Seq<char>)
    requires
        s.len() > 0,
        !text::is_whitespace(s[0]),
        !text::is_whitespace(s.last()),
        forall|i: int| 0 <= i < a.len() ==> text::is_whitespace(#[trigger] a[i]),
        forall|i: int| 0 <= i < b.len() ==> text::is_whitespace(#[trigger] b[i]),
    ensures
        text::trim_end(a + s + b) == a + s,
        text::trim(a + s + b) == s,
    decreases b.len(),
{
    let all = a + s + b;
    if b.len() > 0 {
        assert(all.last() == b.last());
        assert(text::is_whitespace(b[b.len() - 1]));
        assert(all.drop_last() =~= a + s + b.drop_last());
        lemma_trim_around(a, s, b.drop_last());
    } else {
        assert(all =~= a + s);
        assert(all.last() == s.last());
        let t = a + s;
        assert forall|i: int| 0 <= i < a.len() implies text::is_whitespace(#[trigger] t[i]) by {
            assert(t[i] == a[i]);
        }
        assert(t[a.len() as int] == s[0]);
        roundtrip::lemma_trim_start_to(t, a.len() as int);
        assert(t.skip(a.len() as int) =~= s);
    }
}

/// Which characters are white space: tab to carriage return, space, and those
/// beyond ASCII that Unicode counts as such.
pub proof fn law_whitespace(c: char)
    ensures
        text::is_whitespace(c) <==> (9 <= c as u32 <= 13 || c == ' ' || c as u32 == 0x85 || c as u32
            == 0xa0 || c as u32 == 0x1680 || 0x2000 <= c as u32 <= 0x200a || c as u32 == 0x2028
            || c as u32 == 0x2029 || c as u32 == 0x202f || c as u32 == 0x205f || c as u32
            == 0x3000),
        text::is_blank(c) <==> c == ' ' || c == '\t',
{
}

/// An integer in decimal: one digit is itself, a digit behind a positive
/// number makes it ten times as much and the digit, and a negative number has
/// a `-` before the numeral of its opposite.
pub proof fn law_decimal(n: int, d: int)
    requires
        0 <= d < 10,
        n > 0,
    ensures
        text::decimal(d) == seq!["0123456789ABCDEF"@[d]],
        text::decimal(10 * n + d) == text::decimal(n).push("0123456789ABCDEF"@[d]),
        text::decimal(-n) == seq!['-'] + text::decimal(n),
{
    lemma_digits();
    let m = 10 * n + d;
    assert(m / 10 == n && m % 10 == d);
}

/// An integer in hexadecimal, in small letters behind `0x`: one digit is
/// itself, and a digit behind a positive number makes it sixteen times as
/// much and the digit. A negative one is written as what its 64 bits are
/// worth without a sign.
pub proof fn law_hexadecimal(n: i64, d: int, q: i64)
    requires
        0 <= d < 16,
    ensures
        text::hexadecimal(d as i64) == seq!['0', 'x', "0123456789abcdef"@[d]],
        q > 0 && n == 16 * q + d ==> text::hexadecimal(n) == text::hexadecimal(q).push(
            "0123456789abcdef"@[d],
        ),
        n < 0 && n + 0x1_0000_0000_0000_0000 == 16 * q + d ==> text::hexadecimal(n)
            == text::hexadecimal(q).push("0123456789abcdef"@[d]),
{
    lemma_digits();
    assert(text::hexadecimal(d as i64) =~= seq!['0', 'x', "0123456789abcdef"@[d]]);
    let m = 16 * q + d;
    assert(m / 16 == q && m % 16 == d);
    if q > 0 {
        let s = text::numeral(q as nat, 16);
        assert(seq!['0', 'x'] + s.push("0123456789abcdef"@[d]) =~= (seq!['0', 'x'] + s).push(
            "0123456789abcdef"@[d],
        ));
    }
}

/// A word in hexadecimal: `0x` and its four digits, the highest first.
pub proof fn law_hex_word(a: int, b: int, c: int, d: int)
    requires
        0 <= a < 16,
        0 <= b < 16,
        0 <= c < 16,
        0 <= d < 16,
    ensures
        text::hex_word((a * 4096 + b * 256 + c * 16 + d) as u16) == seq![
            '0',
            'x',
            "0123456789abcdef"@[a],
            "0123456789abcdef"@[b],
            "0123456789abcdef"@[c],
            "0123456789abcdef"@[d],
        ],
{
    lemma_digits();
    let w = a * 4096 + b * 256 + c * 16 + d;
    assert(0 <= w < 0x1_0000);
    assert(w / 4096 == a);
    assert(w / 256 == a * 16 + b);
    assert(w / 16 == a * 256 + b * 16 + c);
    assert((w / 256) % 16 == b);
    assert((w / 16) % 16 == c);
    assert(w % 16 == d);
}

} // verus!
