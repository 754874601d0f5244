//! What an operand's text stands for.

use crate::grammar;
use crate::numbers;
use crate::parser::OperandView;
use crate::roundtrip;
use crate::text;
use crate::ErrorView;
use vstd::prelude::*;

verus! {

/// A letter, `_` or `.`.
pub open spec fn is_initial(c: char) -> bool {
    ('a' <= c && c <= 'z') || ('A' <= c && c <= 'Z') || c == '_' || c == '.'
}

/// Whether a text is a name: a letter, `_` or `.`, and then any of these and
/// decimal digits.
pub open spec fn is_name(s: Seq<char>) -> bool {
    &&& s.len() > 0
    &&& is_initial(s[0])
    &&& forall|i: int|
        0 <= i < s.len() ==> is_initial(#[trigger] s[i]) || ('0' <= s[i] && s[i] <= '9')
}

/// Whether a text is free of white space.
pub open spec fn is_solid(s: Seq<char>) -> bool {
    forall|i: int| 0 <= i < s.len() ==> !text::is_whitespace(#[trigger] s[i])
}

proof fn lemma_solid(s: Seq<char>)
    requires
        is_solid(s),
        s.len() > 0,
    ensures
        text::trim(s) == s,
{
    assert(!text::is_whitespace(s[0]));
    assert(!text::is_whitespace(s[s.len() - 1]));
}

proof fn lemma_no_offset(s: Seq<char>, last: int)
    requires
        last < s.len(),
        forall|i: int| 1 <= i < s.len() ==> !#[trigger] grammar::begins_offset(s, i),
    ensures
        grammar::split_point(s, last) == 0,
    decreases last,
{
    if last >= 1 {
        assert(!grammar::begins_offset(s, last));
        lemma_no_offset(s, last - 1);
    }
}

/// `*` alone is the location counter.
pub proof fn law_star(line: u32, col: u32)
    ensures
        grammar::operand_of(line, col, seq!['*']) == Ok::<OperandView, ErrorView>(
            OperandView::LocationCounter,
        ),
{
    let s = seq!['*'];
    lemma_solid(s);
    lemma_no_offset(s, 0);
}

/// A name is a symbol, with its letters as they are.
pub proof fn law_name_is_symbol(line: u32, col: u32, s: Seq<char>)
    requires
        is_name(s),
    ensures
        grammar::operand_of(line, col, s) == Ok::<OperandView, ErrorView>(OperandView::Symbol(s)),
{
    assert forall|i: int| 0 <= i < s.len() implies !text::is_whitespace(#[trigger] s[i])
        && !grammar::is_sign(s[i]) && s[i] != '*' && text::continues_ident(s[i]) by {
        assert(is_initial(s[i]) || ('0' <= s[i] && s[i] <= '9'));
    }
    lemma_solid(s);
    lemma_no_offset(s, s.len() - 1);
    assert(s != seq!['*']) by {
        assert(seq!['*'][0] == '*');
    }
    assert(grammar::number(s) is None) by {
        if grammar::number(s) is Some {
            assert(!text::is_decimal(s[0]));
        }
    }
}

/// No sign of a literal, of which `low` characters stand before the prefix,
/// begins an offset.
proof fn lemma_literal_signs(
    s: Seq<char>,
    low: int,
    prefix: Seq<char>,
    radix: int,
    middle: int,
    digits: Seq<char>,
    i: int,
)
    requires
        0 <= low <= 1,
        low == 1 ==> s.len() > 0 && grammar::is_sign(s[0]),
        radix != 10,
        numbers::is_prefix(prefix, radix),
        numbers::is_digits(digits, radix),
        0 <= middle <= 1,
        s.len() == low + prefix.len() + middle + digits.len(),
        forall|j: int| 0 <= j < prefix.len() ==> #[trigger] s[low + j] == prefix[j],
        forall|j: int|
            0 <= j < digits.len() ==> #[trigger] s[low + prefix.len() + middle + j] == digits[j],
        1 <= i < s.len(),
        grammar::is_sign(s[i]),
    ensures
        !grammar::takes_offset(s[i - 1]) || grammar::in_literal(s, i),
{
    let n = prefix.len() as int;
    numbers::lemma_digits_are_plain(digits, radix);
    if i >= low + n + middle {
        let j = i - low - n - middle;
        assert(s[low + n + middle + j] == digits[j]);
    }
    assert(s[low + 0] == prefix[0]);
    if n == 2 {
        assert(s[low + 1] == prefix[1]);
    }
}

/// What [`numbers::law_number_shape`] says of a number.
spec fn has_shape(body: Seq<char>) -> bool {
    ||| numbers::is_digits(body, 10)
    ||| exists|prefix: Seq<char>, radix: int, digits: Seq<char>|
        radix != 10 && #[trigger] numbers::is_prefix(prefix, radix) && #[trigger] numbers::is_digits(
            digits,
            radix,
        ) && (body == prefix + digits || body == prefix.push('-') + digits || body == prefix.push(
            '+',
        ) + digits)
}

proof fn lemma_shape_signs(s: Seq<char>, low: int, i: int)
    requires
        0 <= low <= 1,
        low == 1 ==> s.len() > 0 && grammar::is_sign(s[0]),
        low <= s.len(),
        has_shape(s.skip(low)),
        1 <= i < s.len(),
        grammar::is_sign(s[i]),
    ensures
        !grammar::takes_offset(s[i - 1]) || grammar::in_literal(s, i),
{
    let body = s.skip(low);
    if numbers::is_digits(body, 10) {
        numbers::lemma_digits_are_plain(body, 10);
        assert(s[i] == body[i - low]);
    } else {
        let (prefix, radix, digits) = choose|prefix: Seq<char>, radix: int, digits: Seq<char>|
            radix != 10 && #[trigger] numbers::is_prefix(prefix, radix)
                && #[trigger] numbers::is_digits(digits, radix) && (body == prefix + digits || body
                == prefix.push('-') + digits || body == prefix.push('+') + digits);
        let middle: int = body.len() - prefix.len() - digits.len();
        assert forall|j: int| 0 <= j < prefix.len() implies #[trigger] s[low + j] == prefix[j] by {
            assert(s[low + j] == body[j]);
        }
        assert forall|j: int| 0 <= j < digits.len() implies #[trigger] s[low + prefix.len() + middle
            + j] == digits[j] by {
            assert(s[low + prefix.len() + middle + j] == body[prefix.len() + middle + j]);
        }
        lemma_literal_signs(s, low, prefix, radix, middle, digits, i);
    }
}

proof fn lemma_number_has_shape(s: Seq<char>) -> (low: int)
    requires
        is_solid(s),
        grammar::number(s) is Some,
    ensures
        0 <= low <= 1,
        low == 1 ==> s.len() > 0 && grammar::is_sign(s[0]),
        low <= s.len(),
        has_shape(s.skip(low)),
{
    if s.len() == 0 {
        lemma_empty_is_no_number(s);
    }
    numbers::law_number_shape(s);
    if s[0] == '-' || s[0] == '+' {
        1
    } else {
        assert(s.skip(0) =~= s);
        0
    }
}

proof fn lemma_number_has_no_offset(s: Seq<char>)
    requires
        is_solid(s),
        grammar::number(s) is Some,
    ensures
        forall|i: int| 1 <= i < s.len() ==> !#[trigger] grammar::begins_offset(s, i),
{
    let low = lemma_number_has_shape(s);
    assert forall|i: int| 1 <= i < s.len() implies !#[trigger] grammar::begins_offset(s, i) by {
        if grammar::is_sign(s[i]) {
            lemma_shape_signs(s, low, i);
        }
    }
}

/// A number is itself.
pub proof fn law_number_is_number(line: u32, col: u32, s: Seq<char>, n: i64)
    requires
        is_solid(s),
        grammar::number(s) == Some(n),
    ensures
        grammar::operand_of(line, col, s) == Ok::<OperandView, ErrorView>(OperandView::Number(n)),
{
    if s.len() == 0 {
        lemma_empty_is_no_number(s);
    }
    lemma_solid(s);
    lemma_number_has_no_offset(s);
    lemma_no_offset(s, s.len() - 1);
    assert(s != seq!['*']) by {
        if s == seq!['*'] {
            assert(!text::is_decimal(s[0]));
        }
    }
}

proof fn lemma_empty_is_no_number(s: Seq<char>)
    requires
        s.len() == 0,
    ensures
        grammar::number(s) is None,
{
    assert(text::trim(s) =~= s);
}

/// A base with a signed number behind it is the base with that number added,
/// the base being read for itself: `SYM-1` has -1 for its offset. The sign of
/// the number must not belong to a literal.
pub proof fn law_base_and_offset(line: u32, col: u32, base: Seq<char>, offset: Seq<char>, d: i64)
    requires
        is_solid(base),
        base.len() > 0,
        is_initial(base.last()) || ('0' <= base.last() && base.last() <= '9') || base.last() == '*',
        !is_literal_sign(base, base.len() as int),
        is_solid(offset),
        offset.len() > 0,
        offset[0] == '+' || offset[0] == '-',
        grammar::number(offset) == Some(d),
    ensures
        grammar::operand_of(line, col, base + offset) == match grammar::operand_of(
            line,
            col,
            base,
        ) {
            Ok(op) => Ok::<OperandView, ErrorView>(
                OperandView::Offset { base: Box::new(op), delta: d },
            ),
            Err(e) => Err(e),
        },
{
    let s = base + offset;
    let n = base.len() as int;
    assert forall|i: int| 0 <= i < s.len() implies !text::is_whitespace(#[trigger] s[i]) by {
        if i < n {
            assert(s[i] == base[i]);
        } else {
            assert(s[i] == offset[i - n]);
        }
    }
    lemma_solid(s);
    assert(s.skip(n) =~= offset);
    assert(s.take(n) =~= base);
    assert(s[n] == offset[0]);
    assert(s[n - 1] == base.last());
    assert(n >= 2 ==> s[n - 2] == base[n - 2]);
    assert(n >= 3 ==> s[n - 3] == base[n - 3]);
    assert(grammar::begins_offset(s, n));
    let low = lemma_number_has_shape(offset);
    assert forall|i: int| n < i < s.len() implies !#[trigger] grammar::begins_offset(s, i) by {
        let j = i - n;
        assert(s[i] == offset[j]);
        assert(s[i - 1] == offset[j - 1]);
        if j >= 2 {
            assert(s[i - 2] == offset[j - 2]);
        }
        if j >= 3 {
            assert(s[i - 3] == offset[j - 3]);
        }
        if grammar::is_sign(offset[j]) {
            lemma_shape_signs(offset, low, j);
        }
    }
    lemma_split_at(s, n, s.len() - 1);
}

proof fn lemma_split_at(s: Seq<char>, n: int, last: int)
    requires
        1 <= n <= last < s.len(),
        grammar::begins_offset(s, n),
        forall|i: int| n < i < s.len() ==> !#[trigger] grammar::begins_offset(s, i),
    ensures
        grammar::split_point(s, last) == n,
    decreases last,
{
    if last > n {
        assert(!grammar::begins_offset(s, last));
        lemma_split_at(s, n, last - 1);
    }
}

/// White space around an operand does not matter, and an operand of nothing
/// else is refused.
pub proof fn law_operand_trims(
    line: u32,
    col: u32,
    a: Seq<char>,
    s: Seq<char>,
    b: Seq<char>,
)
    requires
        forall|i: int| 0 <= i < a.len() ==> text::is_whitespace(#[trigger] a[i]),
        forall|i: int| 0 <= i < b.len() ==> text::is_whitespace(#[trigger] b[i]),
    ensures
        s.len() > 0 && !text::is_whitespace(s[0]) && !text::is_whitespace(s.last())
            ==> grammar::operand_of(line, col, a + s + b) == grammar::operand_of(line, col, s),
        grammar::operand_of(line, col, a) == Err::<OperandView, ErrorView>(
            ErrorView { line, col, message: "empty operand"@ },
        ),
{
    if s.len() > 0 && !text::is_whitespace(s[0]) && !text::is_whitespace(s.last()) {
        numbers::lemma_trim_around(a, s, b);
        roundtrip::lemma_trimmed(s);
    }
    lemma_all_space(a);
}

proof fn lemma_all_space(s: Seq<char>)
    requires
        forall|i: int| 0 <= i < s.len() ==> text::is_whitespace(#[trigger] s[i]),
    ensures
        text::trim(s).len() == 0,
    decreases s.len(),
{
    if s.len() > 0 {
        assert(text::is_whitespace(s[s.len() - 1]));
        let t = s.drop_last();
        assert forall|i: int| 0 <= i < t.len() implies text::is_whitespace(#[trigger] t[i]) by {
            assert(t[i] == s[i]);
        }
        lemma_all_space(t);
    }
}

/// Whether the sign at place `i` stands right behind the prefix of a literal
/// that begins the text or follows another sign.
pub open spec fn is_literal_sign(s: Seq<char>, i: int) -> bool {
    &&& i >= 2
    &&& s[i - 2] == '0'
    &&& s[i - 1] == 'x' || s[i - 1] == 'X' || s[i - 1] == 'b' || s[i - 1] == 'B'
    &&& i == 2 || s[i - 3] == '+' || s[i - 3] == '-'
}

/// What is no number, no name and not `*`, and has no offset, is refused, with
/// its text in quotes. An offset is a number from a sign on that stands behind
/// a letter, a digit, `_`, `.` or `*` and belongs to no literal.
pub proof fn law_invalid_operand(line: u32, col: u32, s: Seq<char>)
    requires
        is_solid(s),
        s.len() > 0,
        grammar::number(s) is None,
        !is_name(s),
        s != seq!['*'],
        forall|i: int|
            1 <= i < s.len() && (#[trigger] s[i] == '+' || s[i] == '-') ==> grammar::number(
                s.skip(i),
            ) is None || is_literal_sign(s, i) || !(is_initial(s[i - 1]) || ('0' <= s[i - 1]
                && s[i - 1] <= '9') || s[i - 1] == '*'),
    ensures
        grammar::operand_of(line, col, s) == Err::<OperandView, ErrorView>(
            ErrorView { line, col, message: "invalid operand: "@ + text::quoted_text(s) },
        ),
{
    lemma_solid(s);
    assert forall|i: int| 1 <= i < s.len() implies !#[trigger] grammar::begins_offset(s, i) by {
        if grammar::is_sign(s[i]) {
            assert(grammar::number(s.skip(i)) is None || grammar::in_literal(s, i)
                || !grammar::takes_offset(s[i - 1]));
        }
    }
    lemma_no_offset(s, s.len() - 1);
    if grammar::is_ident(s) {
        assert forall|i: int| 0 <= i < s.len() implies is_initial(#[trigger] s[i]) || ('0' <= s[i]
            && s[i] <= '9') by {
            assert(text::continues_ident(s[i]));
        }
        assert(is_name(s));
    }
}

} // verus!
