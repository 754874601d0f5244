//! Characters, blanks, columns and numerals: the text layer that the
//! parser and the error messages are built on.

use vstd::prelude::*;
use vstd::slice::slice_subrange;

verus! {

/// `std`'s `String::push`: the character goes at the end of the text.
pub assume_specification[ String::push ](s: &mut String, c: char)
    ensures
        final(s)@ == old(s)@.push(c),
;

/// What `{:?}` prints for a text: the text in double quotes, with the
/// characters that `std` does not print as they are in escaped form.
pub uninterp spec fn quoted_text(s: Seq<char>) -> Seq<char>;

/// `std`'s `Debug` formatting of a `str`, under the name [`quoted_text`].
/// Which characters are escaped, and how, is left unsaid.
#[verifier::external_body]
pub(crate) fn quoted(s: &str) -> (r: String)
    ensures
        r@ == quoted_text(s@),
{
    format!("{:?}", s)
}

/// A space or a tab: what separates the fields of a line.
pub open spec fn is_blank(c: char) -> bool {
    c == ' ' || c == '\t'
}

/// The characters with Unicode's `White_Space` property.
pub open spec fn is_whitespace(c: char) -> bool {
    ||| 0x09 <= c as u32 <= 0x0d
    ||| c as u32 == 0x20
    ||| c as u32 == 0x85
    ||| c as u32 == 0xa0
    ||| c as u32 == 0x1680
    ||| 0x2000 <= c as u32 <= 0x200a
    ||| c as u32 == 0x2028
    ||| c as u32 == 0x2029
    ||| c as u32 == 0x202f
    ||| c as u32 == 0x205f
    ||| c as u32 == 0x3000
}

/// An ASCII letter, `_` or `.`: what an identifier may begin with.
pub open spec fn starts_ident(c: char) -> bool {
    ('a' <= c && c <= 'z') || ('A' <= c && c <= 'Z') || c == '_' || c == '.'
}

pub open spec fn is_decimal(c: char) -> bool {
    '0' <= c && c <= '9'
}

/// What an identifier may go on with.
pub open spec fn continues_ident(c: char) -> bool {
    starts_ident(c) || is_decimal(c)
}

/// The ASCII lower-case form of a character.
pub open spec fn lower_char(c: char) -> char {
    if 'A' <= c && c <= 'Z' {
        (c as u32 + 32) as char
    } else {
        c
    }
}

pub open spec fn lower(s: Seq<char>) -> Seq<char> {
    s.map_values(|c: char| lower_char(c))
}

/// `s` without the white space at its end.
pub open spec fn trim_end(s: Seq<char>) -> Seq<char>
    decreases s.len(),
{
    if s.len() > 0 && is_whitespace(s.last()) {
        trim_end(s.drop_last())
    } else {
        s
    }
}

/// `s` without the white space at its beginning.
pub open spec fn trim_start(s: Seq<char>) -> Seq<char>
    decreases s.len(),
{
    if s.len() > 0 && is_whitespace(s[0]) {
        trim_start(s.skip(1))
    } else {
        s
    }
}

pub open spec fn trim(s: Seq<char>) -> Seq<char> {
    trim_start(trim_end(s))
}

/// The first place at or after `pos` that holds `c`, or the end of `s`.
pub open spec fn find(s: Seq<char>, c: char, pos: int) -> int
    decreases s.len() - pos,
{
    if 0 <= pos < s.len() && s[pos] != c {
        find(s, c, pos + 1)
    } else {
        pos
    }
}

/// The first place at or after `pos` that holds no blank, or the end of `s`.
pub open spec fn skip_blanks(s: Seq<char>, pos: int) -> int
    decreases s.len() - pos,
{
    if 0 <= pos < s.len() && is_blank(s[pos]) {
        skip_blanks(s, pos + 1)
    } else {
        pos
    }
}

/// The number of bytes that UTF-8 gives a character.
pub open spec fn utf8_width(c: char) -> nat {
    if (c as u32) < 0x80 {
        1
    } else if (c as u32) < 0x800 {
        2
    } else if (c as u32) < 0x10000 {
        3
    } else {
        4
    }
}

/// The number of bytes that UTF-8 gives a text.
pub open spec fn byte_len(s: Seq<char>) -> nat
    decreases s.len(),
{
    if s.len() == 0 {
        0
    } else {
        byte_len(s.drop_last()) + utf8_width(s.last())
    }
}

/// A count as 32 bits hold it.
pub open spec fn wrap32(n: int) -> u32 {
    (n % 0x1_0000_0000) as u32
}

/// The 1-based column of place `pos` in a line, counted in bytes.
pub open spec fn column(s: Seq<char>, pos: int) -> u32 {
    wrap32(1 + byte_len(s.take(pos)) as int)
}

/// The lines of a text: each ends at a line feed or at the end of the text,
/// and loses one carriage return that stands right before its line feed.
pub open spec fn lines_of(s: Seq<char>) -> Seq<Seq<char>>
    decreases s.len(),
{
    if s.len() == 0 {
        seq![]
    } else {
        let end = find(s, '\n', 0);
        if end < 0 || end >= s.len() {
            seq![s]
        } else {
            seq![without_return(s.take(end))] + lines_of(s.skip(end + 1))
        }
    }
}

/// `s` without one carriage return at its end.
pub open spec fn without_return(s: Seq<char>) -> Seq<char> {
    if s.len() > 0 && s.last() == '\r' {
        s.drop_last()
    } else {
        s
    }
}

/// The digit for a value below 16, in lower case.
pub open spec fn digit_char(d: int) -> char {
    if d < 10 {
        ('0' as u32 + d) as char
    } else {
        ('a' as u32 + (d - 10)) as char
    }
}

/// The numeral of `n` in the given radix, without leading zeros.
pub open spec fn numeral(n: nat, radix: nat) -> Seq<char>
    decreases n,
{
    if n < radix || radix < 2 {
        seq![digit_char(n as int)]
    } else {
        proof {
            assert(n / radix < n) by (nonlinear_arith)
                requires
                    n >= radix,
                    radix >= 2,
            ;
        }
        numeral(n / radix, radix).push(digit_char((n % radix) as int))
    }
}

/// An integer in decimal.
pub open spec fn decimal(n: int) -> Seq<char> {
    if n < 0 {
        seq!['-'] + numeral((-n) as nat, 10)
    } else {
        numeral(n as nat, 10)
    }
}

/// A 64-bit integer in hexadecimal, as its two's complement and behind `0x`.
pub open spec fn hexadecimal(n: i64) -> Seq<char> {
    seq!['0', 'x'] + numeral(
        if n < 0 {
            (n + 0x1_0000_0000_0000_0000) as nat
        } else {
            n as nat
        },
        16,
    )
}

/// A 16-bit word as four hexadecimal digits behind `0x`.
pub open spec fn hex_word(w: u16) -> Seq<char> {
    seq![
        '0',
        'x',
        digit_char(w as int / 4096),
        digit_char((w as int / 256) % 16),
        digit_char((w as int / 16) % 16),
        digit_char(w as int % 16),
    ]
}

/// The value of a digit in a radix up to 16, if it is one.
pub open spec fn digit_value(c: char, radix: nat) -> Option<nat> {
    let d: int = if '0' <= c && c <= '9' {
        c as u32 - '0' as u32
    } else if 'a' <= c && c <= 'f' {
        c as u32 - 'a' as u32 + 10
    } else if 'A' <= c && c <= 'F' {
        c as u32 - 'A' as u32 + 10
    } else {
        16
    };
    if d < radix {
        Some(d as nat)
    } else {
        None
    }
}

/// The value of a run of digits; nothing if one of them is no digit.
pub open spec fn digits_value(s: Seq<char>, radix: nat) -> Option<nat>
    decreases s.len(),
{
    if s.len() == 0 {
        Some(0)
    } else {
        match (digits_value(s.drop_last(), radix), digit_value(s.last(), radix)) {
            (Some(high), Some(d)) => Some(high * radix + d),
            _ => None,
        }
    }
}

/// The characters of a text.
pub(crate) fn chars_of(s: &str) -> (v: Vec<char>)
    ensures
        v@ == s@,
{
    let mut v: Vec<char> = Vec::new();
    for c in it: s.chars()
        invariant
            it.seq() == s@,
            v@ == s@.take(it.index()),
    {
        v.push(c);
    }
    proof {
        assert(s@.take(s@.len() as int) =~= s@);
    }
    v
}

/// The text that a run of characters spells.
pub(crate) fn string_of(v: &[char]) -> (s: String)
    ensures
        s@ == v@,
{
    let mut s = String::new();
    let mut i: usize = 0;
    while i < v.len()
        invariant
            i <= v@.len(),
            s@ == v@.take(i as int),
        decreases v@.len() - i,
    {
        s.push(v[i]);
        i += 1;
        proof {
            assert(v@.take(i as int) =~= v@.take(i - 1).push(v@[i - 1]));
        }
    }
    proof {
        assert(v@.take(i as int) =~= v@);
    }
    s
}

/// Whether two texts are the same.
pub(crate) fn same_text(a: &str, b: &str) -> (r: bool)
    ensures
        r == (a@ == b@),
{
    a.to_owned() == b.to_owned()
}

/// Whether a character has Unicode's `White_Space` property.
pub(crate) fn whitespace(c: char) -> (r: bool)
    ensures
        r == is_whitespace(c),
{
    let n: u32 = c as u32;
    (0x09 <= n && n <= 0x0d) || n == 0x20 || n == 0x85 || n == 0xa0 || n == 0x1680 || (0x2000 <= n
        && n <= 0x200a) || n == 0x2028 || n == 0x2029 || n == 0x202f || n == 0x205f || n == 0x3000
}

/// A text without the white space at its end.
pub(crate) fn without_end(s: &[char]) -> (r: &[char])
    ensures
        r@ == trim_end(s@),
{
    let mut end: usize = s.len();
    assert(s@.take(end as int) =~= s@);
    while end > 0 && whitespace(s[end - 1])
        invariant
            end <= s@.len(),
            trim_end(s@) == trim_end(s@.take(end as int)),
        decreases end,
    {
        assert(s@.take(end as int).drop_last() =~= s@.take(end - 1));
        end -= 1;
    }
    slice_subrange(s, 0, end)
}

/// A text without the white space at its beginning.
pub(crate) fn without_start(s: &[char]) -> (r: &[char])
    ensures
        r@ == trim_start(s@),
{
    let mut start: usize = 0;
    assert(s@.skip(0) =~= s@);
    while start < s.len() && whitespace(s[start])
        invariant
            start <= s@.len(),
            trim_start(s@) == trim_start(s@.skip(start as int)),
        decreases s@.len() - start,
    {
        assert(s@.skip(start as int).skip(1) =~= s@.skip(start + 1));
        start += 1;
    }
    slice_subrange(s, start, s.len())
}

/// A text without the white space at either end.
pub(crate) fn trimmed(s: &[char]) -> (r: &[char])
    ensures
        r@ == trim(s@),
{
    without_start(without_end(s))
}

/// The first place at or after `from` that holds `c`, or the end.
pub(crate) fn position(s: &[char], c: char, from: usize) -> (end: usize)
    requires
        from <= s@.len(),
    ensures
        end == find(s@, c, from as int),
        from <= end <= s@.len(),
{
    let mut end: usize = from;
    while end < s.len() && s[end] != c
        invariant
            from <= end <= s@.len(),
            find(s@, c, from as int) == find(s@, c, end as int),
        decreases s@.len() - end,
    {
        end += 1;
    }
    end
}

proof fn lemma_find_skip(s: Seq<char>, c: char, start: int, pos: int)
    requires
        0 <= start <= pos <= s.len(),
    ensures
        find(s, c, pos) == start + find(s.skip(start), c, pos - start),
    decreases s.len() - pos,
{
    if pos < s.len() && s[pos] != c {
        lemma_find_skip(s, c, start, pos + 1);
    }
}

/// The lines of a text.
pub(crate) fn split_lines(s: &[char]) -> (v: Vec<&[char]>)
    ensures
        v@.len() == lines_of(s@).len(),
        forall|i: int| 0 <= i < v@.len() ==> (#[trigger] v@[i])@ == lines_of(s@)[i],
{
    let mut v: Vec<&[char]> = Vec::new();
    let mut start: usize = 0;
    assert(s@.skip(0) =~= s@);
    while start < s.len()
        invariant
            start <= s@.len(),
            lines_of(s@).len() == v@.len() + lines_of(s@.skip(start as int)).len(),
            forall|i: int| 0 <= i < v@.len() ==> (#[trigger] v@[i])@ == lines_of(s@)[i],
            forall|i: int|
                v@.len() <= i < lines_of(s@).len() ==> #[trigger] lines_of(s@)[i] == lines_of(
                    s@.skip(start as int),
                )[i - v@.len()],
        decreases s@.len() - start,
    {
        let ghost rest = s@.skip(start as int);
        let ghost before = v@.len() as int;
        let end = position(s, '\n', start);
        proof {
            lemma_find_skip(s@, '\n', start as int, start as int);
        }
        if end >= s.len() {
            v.push(slice_subrange(s, start, end));
            assert(s@.subrange(start as int, end as int) =~= rest);
            start = end;
            assert(lines_of(rest) =~= seq![rest]);
            assert(lines_of(s@)[before] == lines_of(rest)[0]);
        } else {
            let stop = if end > start && s[end - 1] == '\r' {
                end - 1
            } else {
                end
            };
            v.push(slice_subrange(s, start, stop));
            proof {
                let cut = rest.take(end - start);
                assert(s@.subrange(start as int, end as int) =~= cut);
                assert(s@.subrange(start as int, stop as int) =~= without_return(cut));
                assert(rest.skip(end - start + 1) =~= s@.skip(end + 1));
                assert(lines_of(s@)[before] == lines_of(rest)[0]);
                assert forall|i: int| before + 1 <= i < lines_of(s@).len() implies #[trigger] lines_of(
                    s@,
                )[i] == lines_of(s@.skip(end + 1))[i - (before + 1)] by {}
            }
            start = end + 1;
        }
    }
    v
}

/// The digit for a value below 16, in lower case.
fn digit(d: u64) -> (c: char)
    requires
        d < 16,
    ensures
        c == digit_char(d as int),
{
    if d < 10 {
        (0x30 + d as u8) as char
    } else {
        (0x61 + (d as u8 - 10)) as char
    }
}

/// Appends the numeral of `n`.
pub(crate) fn push_numeral(out: &mut String, n: u64, radix: u64)
    requires
        2 <= radix <= 16,
    ensures
        final(out)@ == old(out)@ + numeral(n as nat, radix as nat),
    decreases n,
{
    if n < radix {
        out.push(digit(n));
        assert(out@ =~= old(out)@ + numeral(n as nat, radix as nat));
    } else {
        assert(n / radix < n) by (nonlinear_arith)
            requires
                n >= radix,
                radix >= 2,
        ;
        push_numeral(out, n / radix, radix);
        out.push(digit(n % radix));
        assert(out@ =~= old(out)@ + numeral(n as nat, radix as nat));
    }
}

/// Appends an integer in decimal.
pub(crate) fn push_decimal(out: &mut String, n: i64)
    ensures
        final(out)@ == old(out)@ + decimal(n as int),
{
    if n < 0 {
        out.push('-');
        let size: u64 = if n == i64::MIN {
            0x8000_0000_0000_0000
        } else {
            (-n) as u64
        };
        push_numeral(out, size, 10);
        assert(out@ =~= old(out)@ + decimal(n as int));
    } else {
        push_numeral(out, n as u64, 10);
    }
}

/// Appends a 64-bit integer in hexadecimal.
pub(crate) fn push_hexadecimal(out: &mut String, n: i64)
    ensures
        final(out)@ == old(out)@ + hexadecimal(n),
{
    out.push('0');
    out.push('x');
    let bits: u64 = n as u64;
    assert(bits == if n < 0 { n + 0x1_0000_0000_0000_0000 } else { n as int }) by (bit_vector)
        requires
            bits == n as u64,
    ;
    push_numeral(out, bits, 16);
    assert(out@ =~= old(out)@ + hexadecimal(n));
}

/// Appends a 16-bit word as four hexadecimal digits.
pub(crate) fn push_hex_word(out: &mut String, w: u16)
    ensures
        final(out)@ == old(out)@ + hex_word(w),
{
    let n: u64 = w as u64;
    out.push('0');
    out.push('x');
    out.push(digit(n / 4096));
    out.push(digit((n / 256) % 16));
    out.push(digit((n / 16) % 16));
    out.push(digit(n % 16));
    assert(out@ =~= old(out)@ + hex_word(w));
}

} // verus!
