//! The round trip: what the disassembler writes, the assembler reads back.

use crate::disasm;
use crate::disasm::DecodedView;
use crate::encode;
use crate::encode::{Pass2, ReplyView};
use crate::grammar;
use crate::isa::{Instruction, Opcode};
use crate::laws;
use crate::layout;
use crate::parser::{BodyView, DirectiveView, InstructionView, LineView, OperandView};
use crate::symtab;
use crate::symtab::Symbols;
use crate::text;
use crate::ErrorView;
use vstd::prelude::*;

verus! {

/// Whether a text, in whatever case, is the proper mnemonic of an operation:
/// neither a branch with its condition in the name nor a shift of the pair.
pub open spec fn names(mnemonic: Seq<char>, op: Opcode) -> bool {
    let m = text::lower(mnemonic);
    &&& encode::opcode_of(m) == Some(op)
    &&& encode::alias_condition(m) is None
    &&& !encode::shifts_together(m)
}

/// Whether an instruction has a line of source: its operation has the form
/// that the instruction is in, the tag names an index register, and only an
/// operation that takes a condition mask has one.
pub open spec fn has_source(insn: Instruction, mnemonic: Seq<char>) -> bool {
    let m = text::lower(mnemonic);
    match insn {
        Instruction::Short { op, tag, disp } => {
            &&& names(mnemonic, op)
            &&& !encode::long_only(m)
            &&& tag <= 3
        },
        Instruction::Long { op, tag, indirect, mask, address } => {
            &&& names(mnemonic, op)
            &&& !encode::short_only(m)
            &&& tag <= 3
            &&& mask == 0 || (encode::takes_mask(m) && mask <= 0x7f)
        },
    }
}

/// The parsed instruction that an instruction's line stands for.
pub open spec fn parsed_form(insn: Instruction, mnemonic: Seq<char>) -> InstructionView {
    match insn {
        Instruction::Short { op, tag, disp } => InstructionView {
            mnemonic: text::lower(mnemonic),
            mnemonic_col: 9,
            long_flag: false,
            indirect_flag: false,
            tag,
            operand: Some(OperandView::Number(disp as i64)),
            mask: None,
        },
        Instruction::Long { op, tag, indirect, mask, address } => InstructionView {
            mnemonic: text::lower(mnemonic),
            mnemonic_col: 9,
            long_flag: true,
            indirect_flag: indirect,
            tag,
            operand: Some(OperandView::Number(address as i64)),
            mask: if mask == 0 {
                None
            } else {
                Some(OperandView::Number(mask as i64))
            },
        },
    }
}

/// Pass 2 builds from an instruction's parsed form the instruction itself,
/// whatever the symbols and the location are.
proof fn lemma_parsed_form_builds(
    insn: Instruction,
    mnemonic: Seq<char>,
    symbols: Symbols,
    lc: i64,
    line: u32,
)
    requires
        has_source(insn, mnemonic),
    ensures
        encode::machine_of(parsed_form(insn, mnemonic), symbols, lc, line) == Ok::<
            Instruction,
            ErrorView,
        >(insn),
{
}

pub(crate) proof fn lemma_skip_blanks_to(s: Seq<char>, pos: int, end: int)
    requires
        0 <= pos <= end <= s.len(),
        forall|i: int| pos <= i < end ==> text::is_blank(#[trigger] s[i]),
        end < s.len() ==> !text::is_blank(s[end]),
    ensures
        text::skip_blanks(s, pos) == end,
    decreases end - pos,
{
    if pos < end {
        lemma_skip_blanks_to(s, pos + 1, end);
    }
}

pub(crate) proof fn lemma_run_to(s: Seq<char>, pos: int, end: int)
    requires
        0 <= pos <= end <= s.len(),
        forall|i: int| pos <= i < end ==> text::continues_ident(#[trigger] s[i]),
        end < s.len() ==> !text::continues_ident(s[end]),
    ensures
        grammar::run_end(s, pos) == end,
    decreases end - pos,
{
    if pos < end {
        lemma_run_to(s, pos + 1, end);
    }
}

pub(crate) proof fn lemma_token_to(s: Seq<char>, pos: int, end: int)
    requires
        0 <= pos <= end <= s.len(),
        forall|i: int|
            pos <= i < end ==> !text::is_blank(#[trigger] s[i]) && s[i] != ',',
        end < s.len() ==> text::is_blank(s[end]) || s[end] == ',',
    ensures
        grammar::token_stop(s, pos) == end,
    decreases end - pos,
{
    if pos < end {
        lemma_token_to(s, pos + 1, end);
    }
}

pub(crate) proof fn lemma_find_none(s: Seq<char>, c: char, pos: int)
    requires
        0 <= pos <= s.len(),
        forall|i: int| pos <= i < s.len() ==> #[trigger] s[i] != c,
    ensures
        text::find(s, c, pos) == s.len(),
    decreases s.len() - pos,
{
    if pos < s.len() {
        lemma_find_none(s, c, pos + 1);
    }
}

/// White space before a text goes.
pub(crate) proof fn lemma_trim_start_to(s: Seq<char>, n: int)
    requires
        0 <= n < s.len(),
        forall|i: int| 0 <= i < n ==> text::is_whitespace(#[trigger] s[i]),
        !text::is_whitespace(s[n]),
    ensures
        text::trim_start(s) == s.skip(n),
    decreases n,
{
    if n > 0 {
        let t = s.skip(1);
        assert forall|i: int| 0 <= i < n - 1 implies text::is_whitespace(#[trigger] t[i]) by {
            assert(t[i] == s[i + 1]);
        }
        lemma_trim_start_to(t, n - 1);
        assert(t.skip(n - 1) =~= s.skip(n));
    } else {
        assert(s.skip(0) =~= s);
    }
}

/// A text that begins and ends with something else than white space is
/// trimmed already.
pub(crate) proof fn lemma_trimmed(s: Seq<char>)
    requires
        s.len() > 0,
        !text::is_whitespace(s[0]),
        !text::is_whitespace(s.last()),
    ensures
        text::trim(s) == s,
{
}

/// Whether a text can stand for a mnemonic: it is an identifier, and in no
/// case the name of a directive.
pub open spec fn is_word(mnemonic: Seq<char>) -> bool {
    grammar::is_ident(mnemonic) && !grammar::is_directive(text::lower(mnemonic))
}

/// The index register that an instruction names.
pub open spec fn tag_of(insn: Instruction) -> u8 {
    match insn {
        Instruction::Short { tag, .. } => tag,
        Instruction::Long { tag, .. } => tag,
    }
}

/// The columns of a line that begins with blanks are easy to count.
proof fn lemma_byte_len_blanks(s: Seq<char>)
    requires
        forall|i: int| 0 <= i < s.len() ==> #[trigger] s[i] == ' ',
    ensures
        text::byte_len(s) == s.len(),
    decreases s.len(),
{
    if s.len() > 0 {
        lemma_byte_len_blanks(s.drop_last());
    }
}

/// A line that begins with eight blanks, an identifier and a blank means
/// what stands behind the identifier.
proof fn lemma_head(line: u32, s: Seq<char>, len: int)
    requires
        1 <= len,
        8 + len < s.len(),
        forall|i: int| 0 <= i < 8 ==> #[trigger] s[i] == ' ',
        text::starts_ident(s[8]),
        forall|i: int| 8 <= i < 8 + len ==> text::continues_ident(#[trigger] s[i]),
        s[8 + len] == ' ',
        !text::is_whitespace(s.last()),
        forall|i: int| 0 <= i < s.len() ==> #[trigger] s[i] != ';',
    ensures
        grammar::line_of(line, s) == (match grammar::body_at(
            line,
            s,
            8 + len,
            text::lower(s.subrange(8, 8 + len)),
            9,
        ) {
            Err(e) => Err(e),
            Ok((body, behind)) => if text::skip_blanks(s, behind) < s.len() {
                Err(
                    ErrorView {
                        line,
                        col: text::column(s, text::skip_blanks(s, behind)),
                        message: "unexpected trailing input: "@ + text::quoted_text(
                            s.skip(text::skip_blanks(s, behind)),
                        ),
                    },
                )
            } else {
                Ok(LineView { line, label: None, body })
            },
        }),
{
    reveal(grammar::line_of);
    lemma_find_none(s, ';', 0);
    assert(s.take(s.len() as int) =~= s);
    assert(grammar::without_comment(s) == s);
    lemma_trim_start_to(s, 8);
    assert(text::trim_start(s)[0] == s[8]);
    assert(!grammar::says_nothing(s));
    lemma_skip_blanks_to(s, 0, 8);
    lemma_run_to(s, 8, 8 + len);
    lemma_skip_blanks_to(s, 8, 8);
    lemma_byte_len_blanks(s.take(8));
    assert(text::column(s, 8) == 9);
}

/// The numeral of a number is worth the number, and is made of digits.
proof fn lemma_numeral(n: nat, radix: nat)
    requires
        2 <= radix <= 16,
    ensures
        text::numeral(n, radix).len() > 0,
        text::digits_value(text::numeral(n, radix), radix) == Some(n),
        forall|i: int|
            0 <= i < text::numeral(n, radix).len() ==> text::digit_value(
                #[trigger] text::numeral(n, radix)[i],
                radix,
            ) is Some,
    decreases n,
{
    let s = text::numeral(n, radix);
    if n < radix {
        assert(s.drop_last() =~= seq![]);
        assert(text::digits_value(s.drop_last(), radix) == Some(0nat));
        assert(0 * radix + n == n);
    } else {
        assert(n / radix < n && n % radix < radix && (n / radix) * radix + n % radix == n)
            by (nonlinear_arith)
            requires
                n >= radix,
                radix >= 2,
        ;
        lemma_numeral(n / radix, radix);
        assert(s.drop_last() =~= text::numeral(n / radix, radix));
        assert forall|i: int| 0 <= i < s.len() implies text::digit_value(
            #[trigger] s[i],
            radix,
        ) is Some by {
            if i < s.len() - 1 {
                assert(s[i] == text::numeral(n / radix, radix)[i]);
            }
        }
    }
}

/// Nothing of a digit's kind is white space, a blank, a sign or a separator.
spec fn plain(c: char) -> bool {
    &&& !text::is_whitespace(c)
    &&& !text::is_blank(c)
    &&& !grammar::is_sign(c)
    &&& c != ','
    &&& c != ';'
    &&& c != '*'
    &&& c != '/'
    &&& c != '\n'
}

spec fn all_plain(s: Seq<char>) -> bool {
    forall|i: int| 0 <= i < s.len() ==> plain(#[trigger] s[i])
}

proof fn lemma_digits_plain(s: Seq<char>, radix: nat)
    requires
        radix <= 16,
        forall|i: int| 0 <= i < s.len() ==> text::digit_value(#[trigger] s[i], radix) is Some,
    ensures
        all_plain(s),
{
}

/// The numeral of a number without a sign is read as the number.
proof fn lemma_unsigned_decimal(n: nat)
    requires
        n <= i64::MAX,
    ensures
        grammar::unsigned_number(text::numeral(n, 10)) == Some(n as i64),
{
    let s = text::numeral(n, 10);
    lemma_numeral(n, 10);
    assert(text::digit_value(s[0], 10) is Some);
    if s.len() > 1 {
        assert(text::digit_value(s[1], 10) is Some);
    }
    assert(grammar::all_decimal(s)) by {
        assert forall|i: int| 0 <= i < s.len() implies text::is_decimal(#[trigger] s[i]) by {
            assert(text::digit_value(s[i], 10) is Some);
        }
    }
}

/// An integer in decimal is read as the integer.
proof fn lemma_decimal_number(v: i64)
    requires
        v != i64::MIN,
    ensures
        grammar::number(text::decimal(v as int)) == Some(v),
        text::decimal(v as int).len() > 0,
        !text::is_whitespace(text::decimal(v as int)[0]),
        text::decimal(v as int)[0] == '-' || text::is_decimal(text::decimal(v as int)[0]),
        text::decimal(v as int)[0] == '-' ==> text::decimal(v as int).len() > 1,
        all_plain(text::decimal(v as int).skip(1)),
        text::decimal(v as int)[0] != ',',
{
    let s = text::decimal(v as int);
    let size: nat = if v < 0 {
        (-v) as nat
    } else {
        v as nat
    };
    let digits = text::numeral(size, 10);
    lemma_numeral(size, 10);
    lemma_digits_plain(digits, 10);
    lemma_unsigned_decimal(size);
    lemma_trimmed(digits);
    assert(text::digit_value(digits[0], 10) is Some);
    if v < 0 {
        assert(s.skip(1) =~= digits);
    } else {
        assert forall|i: int| 0 <= i < s.skip(1).len() implies plain(#[trigger] s.skip(1)[i]) by {
            assert(s.skip(1)[i] == digits[i + 1]);
        }
    }
}

/// Hexadecimal digits behind `0x` are read as what they are worth.
proof fn lemma_hex_number(s: Seq<char>, v: nat)
    requires
        s.len() > 2,
        s[0] == '0',
        s[1] == 'x',
        text::digits_value(s.skip(2), 16) == Some(v),
        forall|i: int| 2 <= i < s.len() ==> text::digit_value(#[trigger] s[i], 16) is Some,
        v <= i64::MAX,
    ensures
        grammar::number(s) == Some(v as i64),
        all_plain(s),
{
    assert(all_plain(s)) by {
        assert forall|i: int| 0 <= i < s.len() implies plain(#[trigger] s[i]) by {
            if i >= 2 {
                assert(text::digit_value(s[i], 16) is Some);
            }
        }
    }
    lemma_trimmed(s);
    assert(text::digit_value(s[2], 16) is Some);
    assert(s.skip(2)[0] == s[2]);
}

proof fn lemma_digits_push(s: Seq<char>, value: nat, d: int, radix: nat)
    requires
        2 <= radix <= 16,
        0 <= d < radix,
        text::digits_value(s, radix) == Some(value),
    ensures
        text::digits_value(s.push(text::digit_char(d)), radix) == Some(
            (value * radix + d) as nat,
        ),
        text::digit_value(text::digit_char(d), radix) is Some,
{
    assert(s.push(text::digit_char(d)).drop_last() =~= s);
}

proof fn lemma_word_digits(w: int)
    requires
        0 <= w < 0x1_0000,
    ensures
        0 <= w / 4096 < 16,
        ((w / 4096 * 16 + (w / 256) % 16) * 16 + (w / 16) % 16) * 16 + w % 16 == w,
{
    let a = w / 16;
    let b = a / 16;
    assert(w / 256 == b);
    assert(w / 4096 == b / 16);
    assert(b / 16 * 16 + b % 16 == b);
    assert(b * 16 + a % 16 == a);
    assert(a * 16 + w % 16 == w);
}

/// A word as four hexadecimal digits is read as the word.
proof fn lemma_hex_word(w: u16)
    ensures
        grammar::number(text::hex_word(w)) == Some(w as i64),
        all_plain(text::hex_word(w)),
{
    let s = text::hex_word(w);
    let d3 = w as int / 4096;
    let d2 = (w as int / 256) % 16;
    let d1 = (w as int / 16) % 16;
    let d0 = w as int % 16;
    let none = Seq::<char>::empty();
    let t3 = none.push(text::digit_char(d3));
    let t2 = t3.push(text::digit_char(d2));
    let t1 = t2.push(text::digit_char(d1));
    let t0 = t1.push(text::digit_char(d0));
    lemma_word_digits(w as int);
    lemma_digits_push(none, 0, d3, 16);
    lemma_digits_push(t3, d3 as nat, d2, 16);
    lemma_digits_push(t2, (d3 * 16 + d2) as nat, d1, 16);
    lemma_digits_push(t1, ((d3 * 16 + d2) * 16 + d1) as nat, d0, 16);
    assert(s.skip(2) =~= t0);
    assert forall|i: int| 2 <= i < s.len() implies text::digit_value(#[trigger] s[i], 16) is Some by {
        assert(i == 2 || i == 3 || i == 4 || i == 5);
    }
    lemma_hex_number(s, w as nat);
}

/// A number in hexadecimal is read as the number.
proof fn lemma_hexadecimal(v: i64)
    requires
        v >= 0,
    ensures
        grammar::number(text::hexadecimal(v)) == Some(v),
        all_plain(text::hexadecimal(v)),
        text::hexadecimal(v).len() > 0,
{
    let s = text::hexadecimal(v);
    let digits = text::numeral(v as nat, 16);
    lemma_numeral(v as nat, 16);
    assert(s.skip(2) =~= digits);
    assert forall|i: int| 2 <= i < s.len() implies text::digit_value(#[trigger] s[i], 16) is Some by {
        assert(s[i] == digits[i - 2]);
    }
    lemma_hex_number(s, v as nat);
}

proof fn lemma_no_split(s: Seq<char>, last: int)
    requires
        last < s.len(),
        forall|i: int| 1 <= i < s.len() ==> !grammar::is_sign(#[trigger] s[i]),
    ensures
        grammar::split_point(s, last) == 0,
    decreases last,
{
    if last >= 1 {
        lemma_no_split(s, last - 1);
    }
}

/// A number without a sign inside is an operand.
proof fn lemma_number_operand(line: u32, col: u32, s: Seq<char>, v: i64)
    requires
        s.len() > 0,
        !text::is_whitespace(s[0]),
        s[0] != '*',
        all_plain(s.skip(1)),
        grammar::number(s) == Some(v),
    ensures
        grammar::operand_of(line, col, s) == Ok::<OperandView, ErrorView>(OperandView::Number(v)),
{
    assert forall|i: int| 1 <= i < s.len() implies plain(#[trigger] s[i]) by {
        assert(s[i] == s.skip(1)[i - 1]);
    }
    lemma_trimmed(s);
    lemma_no_split(s, s.len() - 1);
    assert(s != seq!['*']) by {
        assert(seq!['*'][0] == '*');
    }
}

/// A number that ends at a comma or at the end of the line is the operand
/// there.
proof fn lemma_operand_here(line: u32, s: Seq<char>, pos: int, end: int, v: i64)
    requires
        0 <= pos < end <= s.len(),
        end < s.len() ==> s[end] == ',',
        s[pos] == '-' || plain(s[pos]),
        s[pos] == '-' ==> pos + 1 < end,
        forall|i: int| pos < i < end ==> plain(#[trigger] s[i]),
        grammar::number(s.subrange(pos, end)) == Some(v),
    ensures
        grammar::operand_at(line, s, pos) == Ok::<(OperandView, int), ErrorView>(
            (OperandView::Number(v), end),
        ),
{
    let token = s.subrange(pos, end);
    if grammar::is_sign(s[pos]) {
        lemma_token_to(s, pos + 1, end);
    } else {
        lemma_token_to(s, pos, end);
    }
    assert forall|i: int| 0 <= i < token.skip(1).len() implies plain(#[trigger] token.skip(1)[i]) by {
        assert(token.skip(1)[i] == s[pos + 1 + i]);
    }
    lemma_number_operand(line, text::column(s, pos), token, v);
}

/// The name of an operation can stand for a mnemonic.
proof fn lemma_mnemonic(mnemonic: Seq<char>)
    requires
        encode::opcode_of(text::lower(mnemonic)) is Some,
    ensures
        is_word(mnemonic),
{
    let m = text::lower(mnemonic);
    encode::lemma_spellings();
    grammar::lemma_directives();
    assert(1 <= m.len() <= 4);
    assert forall|i: int| 0 <= i < mnemonic.len() implies text::starts_ident(
        #[trigger] mnemonic[i],
    ) by {
        assert(m[i] == text::lower_char(mnemonic[i]));
        assert(i == 0 || i == 1 || i == 2 || i == 3);
        assert('a' <= m[i] && m[i] <= 'z');
    }
}

/// A tag, a number and a mask are read as such.
proof fn lemma_operands_here(
    line: u32,
    s: Seq<char>,
    pos: int,
    tag: u8,
    start: int,
    end: int,
    v: i64,
    mask: Option<i64>,
)
    requires
        0 <= pos <= start < end <= s.len(),
        tag <= 3,
        tag == 0 ==> start == pos && (pos + 1 < s.len() ==> plain(s[pos + 1])),
        tag != 0 ==> start == pos + 2 && s[pos] == text::digit_char(tag as int) && s[pos + 1]
            == ',',
        s[start] == '-' || plain(s[start]),
        s[start] == '-' ==> start + 1 < end,
        forall|i: int| start < i < end ==> plain(#[trigger] s[i]),
        grammar::number(s.subrange(start, end)) == Some(v),
        match mask {
            None => end == s.len(),
            Some(m) => {
                &&& end + 1 < s.len()
                &&& s[end] == ','
                &&& forall|i: int| end < i < s.len() ==> plain(#[trigger] s[i])
                &&& grammar::number(s.subrange(end + 1, s.len() as int)) == Some(m)
            },
        },
    ensures
        grammar::operands_at(line, s, pos) == Ok::<grammar::Operands, ErrorView>(
            grammar::Operands {
                tag,
                operand: Some(OperandView::Number(v)),
                mask: match mask {
                    Some(m) => Some(OperandView::Number(m)),
                    None => None,
                },
                pos: s.len() as int,
            },
        ),
{
    lemma_skip_blanks_to(s, pos + 1, pos + 1);
    lemma_skip_blanks_to(s, start, start);
    if tag == 0 {
        assert(grammar::tag_end(s, pos) is None);
    } else {
        assert(grammar::tag_end(s, pos) == Some(start));
    }
    lemma_operand_here(line, s, start, end, v);
    lemma_skip_blanks_to(s, end, end);
    match mask {
        None => {},
        Some(m) => {
            lemma_skip_blanks_to(s, end + 1, end + 1);
            lemma_operand_here(line, s, end + 1, s.len() as int, m);
        },
    }
}

/// The tag's text is its digit and a comma.
proof fn lemma_tag_text(tag: u8)
    requires
        tag <= 3,
    ensures
        tag == 0 ==> disasm::tag_text(tag) == Seq::<char>::empty(),
        tag != 0 ==> disasm::tag_text(tag) == seq![text::digit_char(tag as int), ','],
{
    if tag != 0 {
        assert(text::decimal(tag as int) =~= seq![text::digit_char(tag as int)]);
        assert(disasm::tag_text(tag) =~= seq![text::digit_char(tag as int), ',']);
    }
}

proof fn lemma_literals()
    ensures
        "        "@.len() == 8,
        forall|i: int| 0 <= i < 8 ==> #[trigger] "        "@[i] == ' ',
        " "@.len() == 1,
        " "@[0] == ' ',
        " L"@.len() == 2,
        " L"@[0] == ' ',
        " L"@[1] == 'L',
        " I"@.len() == 2,
        " I"@[0] == ' ',
        " I"@[1] == 'I',
{
    reveal_strlit("        ");
    reveal_strlit(" ");
    reveal_strlit(" L");
    reveal_strlit(" I");
}

/// How the line of a short instruction is laid out: `pos` is the place of the
/// tag, `start` that of the displacement.
spec fn short_layout(
    s: Seq<char>,
    insn: Instruction,
    mnemonic: Seq<char>,
    pos: int,
    start: int,
) -> bool {
    let name_end: int = 8 + mnemonic.len() as int;
    let number = text::decimal(insn->disp as int);
    &&& pos == name_end + 1
    &&& start == pos + (if insn->Short_tag == 0 {
        0int
    } else {
        2
    })
    &&& start + number.len() == s.len()
    &&& forall|i: int| 0 <= i < 8 ==> #[trigger] s[i] == ' '
    &&& text::starts_ident(s[8])
    &&& forall|i: int| 8 <= i < name_end ==> text::continues_ident(#[trigger] s[i])
    &&& s.subrange(8, name_end) == mnemonic
    &&& s[name_end] == ' '
    &&& insn->Short_tag != 0 ==> s[pos] == text::digit_char(insn->Short_tag as int) && s[pos + 1]
        == ','
    &&& s.subrange(start, s.len() as int) == number
    &&& s[start] == number[0]
    &&& forall|i: int| start < i < s.len() ==> plain(#[trigger] s[i])
}

proof fn lemma_short_layout(insn: Instruction, mnemonic: Seq<char>) -> (r: (int, int))
    requires
        insn is Short,
        is_word(mnemonic),
        tag_of(insn) <= 3,
    ensures
        short_layout(disasm::rendered(insn, mnemonic), insn, mnemonic, r.0, r.1),
{
    let s = disasm::rendered(insn, mnemonic);
    let tag = insn->Short_tag;
    let number = text::decimal(insn->disp as int);
    let len = mnemonic.len() as int;
    let tagged = disasm::tag_text(tag);
    lemma_literals();
    lemma_tag_text(tag);
    lemma_decimal_number(insn->disp as i64);
    let pos = 9 + len;
    let start = pos + tagged.len();
    let end = s.len() as int;
    assert(end == start + number.len());
    assert forall|i: int| 0 <= i < 8 implies #[trigger] s[i] == ' ' by {
        assert(s[i] == "        "@[i]);
    }
    assert forall|i: int| 8 <= i < 8 + len implies text::continues_ident(
        #[trigger] s[i],
    ) by {
        assert(s[i] == mnemonic[i - 8]);
    }
    assert(s[8] == mnemonic[0]);
    assert(s.subrange(8, 8 + len) =~= mnemonic);
    assert(s.subrange(start, end) =~= number);
    assert forall|i: int| start < i < end implies plain(#[trigger] s[i]) by {
        assert(s[i] == number.skip(1)[i - start - 1]);
    }
    if tag != 0 {
        assert(s[pos] == tagged[0]);
        assert(s[pos + 1] == tagged[1]);
    }
    (pos, start)
}

/// A line with such a head, and with flags and operands that take all of it,
/// is that instruction.
proof fn lemma_whole_line(
    line: u32,
    s: Seq<char>,
    mnemonic: Seq<char>,
    flags: grammar::Flags,
    operands: grammar::Operands,
)
    requires
        is_word(mnemonic),
        8 + mnemonic.len() < s.len(),
        forall|i: int| 0 <= i < 8 ==> #[trigger] s[i] == ' ',
        s.subrange(8, 8 + mnemonic.len() as int) == mnemonic,
        text::starts_ident(s[8]),
        forall|i: int|
            8 <= i < 8 + mnemonic.len() ==> text::continues_ident(#[trigger] s[i]),
        s[8 + mnemonic.len() as int] == ' ',
        !text::is_whitespace(s.last()),
        forall|i: int| 0 <= i < s.len() ==> #[trigger] s[i] != ';',
        grammar::flags_at(
            s,
            8 + mnemonic.len() as int,
            grammar::no_operand(text::lower(mnemonic)),
            false,
            false,
        ) == flags,
        grammar::operands_at(line, s, flags.pos) == Ok::<grammar::Operands, ErrorView>(operands),
        operands.pos == s.len(),
    ensures
        grammar::line_of(line, s) == Ok::<LineView, ErrorView>(
            LineView {
                line,
                label: None,
                body: BodyView::Instruction(
                    InstructionView {
                        mnemonic: text::lower(mnemonic),
                        mnemonic_col: 9,
                        long_flag: flags.long,
                        indirect_flag: flags.indirect,
                        tag: operands.tag,
                        operand: operands.operand,
                        mask: operands.mask,
                    },
                ),
            },
        ),
{
    lemma_head(line, s, mnemonic.len() as int);
    lemma_skip_blanks_to(s, s.len() as int, s.len() as int);
}

proof fn lemma_short_read(
    line: u32,
    s: Seq<char>,
    insn: Instruction,
    mnemonic: Seq<char>,
    pos: int,
    start: int,
)
    requires
        insn is Short,
        is_word(mnemonic),
        tag_of(insn) <= 3,
        short_layout(s, insn, mnemonic, pos, start),
    ensures
        grammar::line_of(line, s) == Ok::<LineView, ErrorView>(
            LineView {
                line,
                label: None,
                body: BodyView::Instruction(parsed_form(insn, mnemonic)),
            },
        ),
        forall|i: int| 0 <= i < s.len() ==> #[trigger] s[i] != '\n' && s[i] != '\r',
{
    let len = mnemonic.len() as int;
    let end = s.len() as int;
    let bare = grammar::no_operand(text::lower(mnemonic));
    lemma_decimal_number(insn->disp as i64);
    assert forall|i: int| 0 <= i < s.len() implies #[trigger] s[i] != ';' && s[i] != '\n' && s[i]
        != '\r' by {
        if 8 <= i < 8 + len {
            assert(text::continues_ident(s[i]));
        }
        if i > start {
            assert(plain(s[i]));
        }
    }
    assert(!text::is_whitespace(s.last())) by {
        if end - 1 > start {
            assert(plain(s[end - 1]));
        }
    }
    lemma_skip_blanks_to(s, 8 + len, pos);
    let flags = grammar::Flags { long: false, indirect: false, pos };
    assert(grammar::flags_at(s, 8 + len, bare, false, false) == flags);
    lemma_operands_here(line, s, pos, insn->Short_tag, start, end, insn->disp as i64, None);
    let operands = grammar::Operands {
        tag: insn->Short_tag,
        operand: Some(OperandView::Number(insn->disp as i64)),
        mask: None,
        pos: end,
    };
    lemma_whole_line(line, s, mnemonic, flags, operands);
}

/// The line of an instruction is read as its parsed form, and is one line.
proof fn lemma_line_read(line: u32, insn: Instruction, mnemonic: Seq<char>)
    requires
        is_word(mnemonic),
        tag_of(insn) <= 3,
    ensures
        grammar::line_of(line, disasm::rendered(insn, mnemonic)) == Ok::<LineView, ErrorView>(
            LineView {
                line,
                label: None,
                body: BodyView::Instruction(parsed_form(insn, mnemonic)),
            },
        ),
        ({
            let s = disasm::rendered(insn, mnemonic);
            forall|i: int| 0 <= i < s.len() ==> #[trigger] s[i] != '\n' && s[i] != '\r'
        }),
{
    let s = disasm::rendered(insn, mnemonic);
    match insn {
        Instruction::Short { .. } => {
            let (pos, start) = lemma_short_layout(insn, mnemonic);
            lemma_short_read(line, s, insn, mnemonic, pos, start);
        },
        Instruction::Long { .. } => {
            let (pos, start, end) = lemma_long_layout(insn, mnemonic);
            lemma_long_read(line, s, insn, mnemonic, pos, start, end);
        },
    }
}

/// A flag letter between blanks is read as the flag.
proof fn lemma_flag(s: Seq<char>, pos: int, bare: bool, long: bool, indirect: bool)
    requires
        0 <= pos,
        pos + 3 < s.len(),
        s[pos] == ' ',
        s[pos + 1] == 'L' || s[pos + 1] == 'I',
        s[pos + 2] == ' ',
        !text::is_blank(s[pos + 3]),
    ensures
        grammar::flags_at(s, pos, bare, long, indirect) == grammar::flags_at(
            s,
            pos + 2,
            bare,
            long || s[pos + 1] == 'L',
            indirect || s[pos + 1] == 'I',
        ),
{
    lemma_skip_blanks_to(s, pos, pos + 1);
    lemma_run_to(s, pos + 1, pos + 2);
    lemma_skip_blanks_to(s, pos + 2, pos + 3);
    let word = text::lower(s.subrange(pos + 1, pos + 2));
    let letter = text::lower_char(s[pos + 1]);
    assert(word =~= seq![letter]);
    assert(seq!['l'][0] == 'l');
    assert(seq!['i'][0] == 'i');
    assert(word[0] == letter);
}

/// How the line of a long instruction is laid out: `pos` is the place of the
/// tag, `start` that of the address, `end` the place behind it.
spec fn long_layout(
    s: Seq<char>,
    insn: Instruction,
    mnemonic: Seq<char>,
    pos: int,
    start: int,
    end: int,
) -> bool {
    let name_end: int = 8 + mnemonic.len() as int;
    &&& pos == name_end + 3 + (if insn->indirect {
        2int
    } else {
        0
    })
    &&& start == pos + (if insn->Long_tag == 0 {
        0int
    } else {
        2
    })
    &&& end == start + 6 <= s.len()
    &&& forall|i: int| 0 <= i < 8 ==> #[trigger] s[i] == ' '
    &&& text::starts_ident(s[8])
    &&& forall|i: int| 8 <= i < name_end ==> text::continues_ident(#[trigger] s[i])
    &&& s.subrange(8, name_end) == mnemonic
    &&& s[name_end] == ' '
    &&& s[name_end + 1] == 'L'
    &&& s[name_end + 2] == ' '
    &&& insn->indirect ==> s[name_end + 3] == 'I'
    &&& s[pos - 1] == ' '
    &&& insn->Long_tag != 0 ==> s[pos] == text::digit_char(insn->Long_tag as int) && s[pos + 1]
        == ','
    &&& s[start] == '0'
    &&& s.subrange(start, end) == text::hex_word(insn->address)
    &&& forall|i: int| start <= i < end ==> plain(#[trigger] s[i])
    &&& insn->mask == 0 ==> end == s.len()
    &&& insn->mask != 0 ==> {
        &&& end + 1 < s.len()
        &&& s[end] == ','
        &&& forall|i: int| end < i < s.len() ==> plain(#[trigger] s[i])
        &&& s.subrange(end + 1, s.len() as int) == text::hexadecimal(insn->mask as i64)
    }
}

proof fn lemma_long_layout(insn: Instruction, mnemonic: Seq<char>) -> (r: (int, int, int))
    requires
        insn is Long,
        is_word(mnemonic),
        tag_of(insn) <= 3,
    ensures
        long_layout(disasm::rendered(insn, mnemonic), insn, mnemonic, r.0, r.1, r.2),
{
    let s = disasm::rendered(insn, mnemonic);
    let tag = insn->Long_tag;
    let len = mnemonic.len() as int;
    let flag = if insn->indirect {
        " I"@
    } else {
        seq![]
    };
    let tagged = disasm::tag_text(tag);
    let word = text::hex_word(insn->address);
    let masked = disasm::mask_text(insn->mask);
    lemma_literals();
    lemma_tag_text(tag);
    lemma_hex_word(insn->address);
    lemma_hexadecimal(insn->mask as i64);
    let name_end = 8 + len;
    let pos = name_end + 3 + flag.len();
    let start = pos + tagged.len();
    let end = start + 6;
    assert(s.len() == end + masked.len());
    assert forall|i: int| 0 <= i < 8 implies #[trigger] s[i] == ' ' by {
        assert(s[i] == "        "@[i]);
    }
    assert forall|i: int| 8 <= i < name_end implies text::continues_ident(
        #[trigger] s[i],
    ) by {
        assert(s[i] == mnemonic[i - 8]);
    }
    assert(s[8] == mnemonic[0]);
    assert(s[name_end] == ' ');
    assert(s[name_end + 1] == 'L');
    assert(s[pos - 1] == ' ');
    if insn->indirect {
        assert(s[name_end + 2] == flag[0]);
        assert(s[name_end + 3] == flag[1]);
    }
    if tag != 0 {
        assert(s[pos] == tagged[0]);
        assert(s[pos + 1] == tagged[1]);
    }
    assert(s.subrange(8, 8 + len) =~= mnemonic);
    assert(s.subrange(start, end) =~= word);
    assert(s[start] == word[0]);
    assert forall|i: int| start <= i < end implies plain(#[trigger] s[i]) by {
        assert(s[i] == word[i - start]);
    }
    if insn->mask != 0 {
        let digits = text::hexadecimal(insn->mask as i64);
        assert(s[end] == ',');
        assert forall|i: int| end < i < s.len() implies plain(#[trigger] s[i]) by {
            assert(s[i] == digits[i - end - 1]);
        }
        assert(s.subrange(end + 1, s.len() as int) =~= digits);
    }
    (pos, start, end)
}

/// The flags of a long instruction's line.
proof fn lemma_long_flags(
    s: Seq<char>,
    insn: Instruction,
    mnemonic: Seq<char>,
    pos: int,
    start: int,
    end: int,
    bare: bool,
)
    requires
        insn is Long,
        tag_of(insn) <= 3,
        long_layout(s, insn, mnemonic, pos, start, end),
    ensures
        grammar::flags_at(s, 8 + mnemonic.len() as int, bare, false, false) == (grammar::Flags {
            long: true,
            indirect: insn->indirect,
            pos,
        }),
{
    let name_end = 8 + mnemonic.len() as int;
    lemma_flag(s, name_end, bare, false, false);
    if insn->indirect {
        lemma_flag(s, name_end + 2, bare, true, false);
    }
    lemma_skip_blanks_to(s, pos - 1, pos);
}

proof fn lemma_long_read(
    line: u32,
    s: Seq<char>,
    insn: Instruction,
    mnemonic: Seq<char>,
    pos: int,
    start: int,
    end: int,
)
    requires
        insn is Long,
        is_word(mnemonic),
        tag_of(insn) <= 3,
        long_layout(s, insn, mnemonic, pos, start, end),
    ensures
        grammar::line_of(line, s) == Ok::<LineView, ErrorView>(
            LineView {
                line,
                label: None,
                body: BodyView::Instruction(parsed_form(insn, mnemonic)),
            },
        ),
        forall|i: int| 0 <= i < s.len() ==> #[trigger] s[i] != '\n' && s[i] != '\r',
{
    let len = mnemonic.len() as int;
    let name_end = 8 + len;
    let name = text::lower(mnemonic);
    let bare = grammar::no_operand(name);
    assert forall|i: int| 0 <= i < s.len() implies #[trigger] s[i] != ';' && s[i] != '\n' && s[i]
        != '\r' by {
        if i >= start && i != end {
            assert(plain(s[i]));
        }
        if 8 <= i < name_end {
            assert(text::continues_ident(s[i]));
        }
    }
    assert(plain(s[s.len() - 1]));
    lemma_long_flags(s, insn, mnemonic, pos, start, end, bare);
    lemma_hex_word(insn->address);
    lemma_hexadecimal(insn->mask as i64);
    let mask = if insn->mask == 0 {
        None
    } else {
        Some(insn->mask as i64)
    };
    lemma_operands_here(line, s, pos, insn->Long_tag, start, end, insn->address as i64, mask);
    let operands = grammar::Operands {
        tag: insn->Long_tag,
        operand: Some(OperandView::Number(insn->address as i64)),
        mask: match mask {
            Some(m) => Some(OperandView::Number(m)),
            None => None,
        },
        pos: s.len() as int,
    };
    lemma_whole_line(
        line,
        s,
        mnemonic,
        grammar::Flags { long: true, indirect: insn->indirect, pos },
        operands,
    );
}

/// A rendered instruction is one line, and the parser reads it as an
/// instruction with the mnemonic that was given, the same tag, and numbers
/// for its operands: in short form without flags, in long form with `L`, and
/// with `I` if it is indirect. The mask is absent where it is 0.
pub proof fn law_rendered_line_parses(line: u32, insn: Instruction, mnemonic: Seq<char>)
    requires
        is_word(mnemonic),
        tag_of(insn) <= 3,
    ensures
        grammar::line_of(line, disasm::rendered(insn, mnemonic)) == Ok::<LineView, ErrorView>(
            LineView {
                line,
                label: None,
                body: BodyView::Instruction(parsed_form(insn, mnemonic)),
            },
        ),
        text::lines_of(disasm::rendered(insn, mnemonic).push('\n')) == seq![
            disasm::rendered(insn, mnemonic),
        ],
{
    lemma_line_read(line, insn, mnemonic);
    let none = Seq::<char>::empty();
    let s = disasm::rendered(insn, mnemonic);
    lemma_lines_push(none, s);
    assert(none + s.push('\n') =~= s.push('\n'));
    assert(text::lines_of(none) =~= seq![]);
    assert(text::lines_of(s.push('\n')) =~= seq![s]);
}

/// What the disassembler writes for an instruction, the parser reads as a
/// line without label from which pass 2 builds the same instruction, whatever
/// the symbols and the location are.
pub proof fn law_line_round_trip(
    insn: Instruction,
    mnemonic: Seq<char>,
    line: u32,
    symbols: Symbols,
    lc: i64,
)
    requires
        has_source(insn, mnemonic),
    ensures
        grammar::line_of(line, disasm::rendered(insn, mnemonic)) == Ok::<LineView, ErrorView>(
            LineView {
                line,
                label: None,
                body: BodyView::Instruction(parsed_form(insn, mnemonic)),
            },
        ),
        encode::machine_of(parsed_form(insn, mnemonic), symbols, lc, line) == Ok::<
            Instruction,
            ErrorView,
        >(insn),
{
    lemma_mnemonic(mnemonic);
    lemma_line_read(line, insn, mnemonic);
    lemma_parsed_form_builds(insn, mnemonic, symbols, lc, line);
}

pub(crate) proof fn lemma_find_first(s: Seq<char>, c: char, pos: int, end: int)
    requires
        0 <= pos <= end < s.len(),
        forall|i: int| pos <= i < end ==> #[trigger] s[i] != c,
        s[end] == c,
    ensures
        text::find(s, c, pos) == end,
    decreases end - pos,
{
    if pos < end {
        lemma_find_first(s, c, pos + 1, end);
    }
}

proof fn lemma_find_spec(s: Seq<char>, c: char, pos: int)
    requires
        0 <= pos <= s.len(),
    ensures
        pos <= text::find(s, c, pos) <= s.len(),
        forall|i: int| pos <= i < text::find(s, c, pos) ==> #[trigger] s[i] != c,
        text::find(s, c, pos) < s.len() ==> s[text::find(s, c, pos)] == c,
    decreases s.len() - pos,
{
    if pos < s.len() && s[pos] != c {
        lemma_find_spec(s, c, pos + 1);
    }
}

/// One more line at the end of a text is one more of its lines.
proof fn lemma_lines_push(t: Seq<char>, r: Seq<char>)
    requires
        t.len() == 0 || t.last() == '\n',
        forall|i: int| 0 <= i < r.len() ==> #[trigger] r[i] != '\n' && r[i] != '\r',
    ensures
        text::lines_of(t + r.push('\n')) == text::lines_of(t).push(r),
    decreases t.len(),
{
    let all = t + r.push('\n');
    if t.len() == 0 {
        assert(all =~= r.push('\n'));
        lemma_find_first(all, '\n', 0, r.len() as int);
        assert(all.take(r.len() as int) =~= r);
        assert(all.skip(r.len() as int + 1) =~= seq![]);
        assert(text::without_return(r) == r) by {
            if r.len() > 0 {
                assert(r[r.len() - 1] != '\r');
            }
        }
        assert(text::lines_of(all.skip(r.len() as int + 1)) =~= seq![]);
        assert(text::lines_of(all) =~= text::lines_of(t).push(r));
    } else {
        let end = text::find(t, '\n', 0);
        lemma_find_spec(t, '\n', 0);
        if end == t.len() {
            assert(t[t.len() - 1] != '\n');
        }
        assert forall|i: int| 0 <= i < end implies #[trigger] all[i] != '\n' by {
            assert(all[i] == t[i]);
        }
        lemma_find_first(all, '\n', 0, end);
        let rest = t.skip(end + 1);
        assert(all.take(end) =~= t.take(end));
        assert(all.skip(end + 1) =~= rest + r.push('\n'));
        if rest.len() > 0 {
            assert(rest.last() == t.last());
        }
        lemma_lines_push(rest, r);
        assert(text::lines_of(all) =~= text::lines_of(t).push(r));
    }
}

/// The parsed lines of a listing.
pub open spec fn listing_lines(items: Seq<DecodedView>, n: int) -> Seq<LineView> {
    Seq::new(
        n as nat,
        |k: int|
            LineView {
                line: text::wrap32(k + 1),
                label: None,
                body: BodyView::Instruction(parsed_form(items[k].insn, items[k].mnemonic)),
            },
    )
}

/// The lines of a listing are the lines of its instructions.
proof fn lemma_listing_text(items: Seq<DecodedView>, n: int)
    requires
        0 <= n <= items.len(),
        forall|k: int|
            0 <= k < items.len() ==> has_source(
                (#[trigger] items[k]).insn,
                items[k].mnemonic,
            ),
    ensures
        text::lines_of(disasm::listing(items, n)) == Seq::new(
            n as nat,
            |k: int| disasm::rendered(items[k].insn, items[k].mnemonic),
        ),
        n > 0 ==> disasm::listing(items, n).len() > 0 && disasm::listing(items, n).last() == '\n',
    decreases n,
{
    if n > 0 {
        lemma_listing_text(items, n - 1);
        let item = items[n - 1];
        assert(has_source(item.insn, item.mnemonic));
        lemma_mnemonic(item.mnemonic);
        lemma_line_read(0, item.insn, item.mnemonic);
        lemma_lines_push(
            disasm::listing(items, n - 1),
            disasm::rendered(item.insn, item.mnemonic),
        );
    }
    assert(text::lines_of(disasm::listing(items, n)) =~= Seq::new(
        n as nat,
        |k: int| disasm::rendered(items[k].insn, items[k].mnemonic),
    ));
}

proof fn lemma_listing_parses(items: Seq<DecodedView>, lines: Seq<Seq<char>>, n: int)
    requires
        0 <= n <= items.len(),
        lines == Seq::new(
            items.len(),
            |k: int| disasm::rendered(items[k].insn, items[k].mnemonic),
        ),
        forall|k: int|
            0 <= k < items.len() ==> has_source(
                (#[trigger] items[k]).insn,
                items[k].mnemonic,
            ),
    ensures
        grammar::source_lines(lines, n) == Ok::<Seq<LineView>, ErrorView>(listing_lines(items, n)),
    decreases n,
{
    if n > 0 {
        lemma_listing_parses(items, lines, n - 1);
        let item = items[n - 1];
        assert(has_source(item.insn, item.mnemonic));
        law_line_round_trip(item.insn, item.mnemonic, text::wrap32(n), symtab::no_symbols(Set::empty()), 0);
        assert(listing_lines(items, n) =~= listing_lines(items, n - 1).push(
            LineView {
                line: text::wrap32(n),
                label: None,
                body: BodyView::Instruction(parsed_form(item.insn, item.mnemonic)),
            },
        ));
    } else {
        assert(listing_lines(items, n) =~= seq![]);
    }
}

/// A listing parses to the lines of its instructions.
pub(crate) proof fn lemma_listing_source(items: Seq<DecodedView>)
    requires
        forall|k: int|
            0 <= k < items.len() ==> has_source(
                (#[trigger] items[k]).insn,
                items[k].mnemonic,
            ),
    ensures
        grammar::source_of(disasm::listing(items, items.len() as int)) == Ok::<
            Seq<LineView>,
            ErrorView,
        >(listing_lines(items, items.len() as int)),
{
    let n = items.len() as int;
    lemma_listing_text(items, n);
    lemma_listing_parses(items, text::lines_of(disasm::listing(items, n)), n);
}

/// A listing binds no symbols, and has no faults.
proof fn lemma_listing_walk(items: Seq<DecodedView>, n: int)
    requires
        0 <= n <= items.len(),
    ensures
        ({
            let lines = listing_lines(items, items.len() as int);
            let none = Set::<u32>::empty();
            let p = symtab::pass1_after(lines, none, n);
            &&& p.symbols == symtab::no_symbols(none)
            &&& !p.ended
            &&& symtab::fault_within(lines, none, n) is None
        }),
    decreases n,
{
    if n > 0 {
        lemma_listing_walk(items, n - 1);
    }
}

proof fn lemma_listing_pass1(items: Seq<DecodedView>)
    ensures
        symtab::pass1_of(listing_lines(items, items.len() as int)) == Ok::<Symbols, ErrorView>(
            symtab::no_symbols(Set::empty()),
        ),
{
    let n = items.len() as int;
    let lines = listing_lines(items, n);
    lemma_listing_walk(items, n);
    assert forall|k: int| 0 <= k < lines.len() implies (
    (#[trigger] lines[k]).body matches BodyView::Instruction(insn) ==> !encode::is_open(insn)) by {
        assert(lines[k].body == BodyView::Instruction(
            parsed_form(items[k].insn, items[k].mnemonic),
        ));
    }
    layout::law_closed_forms_take_one_walk(lines);
}

/// Pass 2 emits a listing as the answers to its instructions.
proof fn lemma_listing_pass2(
    items: Seq<DecodedView>,
    bytes: Seq<u8>,
    symbols: Symbols,
    replies: Seq<ReplyView>,
    n: int,
)
    requires
        0 <= n <= items.len(),
        forall|k: int|
            0 <= k < items.len() ==> has_source(
                (#[trigger] items[k]).insn,
                items[k].mnemonic,
            ),
        disasm::offset_of(items, items.len() as int) == bytes.len(),
        gives_back(items, bytes, replies),
    ensures
        ({
            let lines = listing_lines(items, items.len() as int);
            encode::pass2_after(lines, symbols, replies, n) matches Ok(q) && q.bytes == bytes.take(
                disasm::offset_of(items, n) as int,
            ) && q.instructions == Seq::new(n as nat, |k: int| items[k].insn) && !q.ended
        }),
    decreases n,
{
    let lines = listing_lines(items, items.len() as int);
    if n > 0 {
        lemma_listing_pass2(items, bytes, symbols, replies, n - 1);
        let q = encode::pass2_after(lines, symbols, replies, n - 1)->Ok_0;
        let item = items[n - 1];
        assert(has_source(item.insn, item.mnemonic));
        law_line_round_trip(item.insn, item.mnemonic, text::wrap32(n), symbols, q.lc);
        lemma_offset_grows(items, n, items.len() as int);
        let low = disasm::offset_of(items, n - 1) as int;
        let high = disasm::offset_of(items, n) as int;
        assert(replies[n - 1] == Ok::<Seq<u8>, Seq<char>>(bytes.subrange(low, high)));
        assert(bytes.take(low) + bytes.subrange(low, high) =~= bytes.take(high));
        assert(Seq::new((n - 1) as nat, |k: int| items[k].insn).push(item.insn) =~= Seq::new(
            n as nat,
            |k: int| items[k].insn,
        ));
    } else {
        assert(bytes.take(0) =~= seq![]);
        assert(Seq::new(0, |k: int| items[k].insn) =~= seq![]);
    }
}

proof fn lemma_offset_grows(items: Seq<DecodedView>, n: int, m: int)
    requires
        n <= m,
    ensures
        disasm::offset_of(items, n) <= disasm::offset_of(items, m),
    decreases m - n,
{
    if n < m && m > 0 {
        lemma_offset_grows(items, n, m - 1);
    }
}

/// Whether the encoder answers to each decoded instruction with the bytes
/// that it was decoded from.
pub open spec fn gives_back(
    items: Seq<DecodedView>,
    bytes: Seq<u8>,
    replies: Seq<ReplyView>,
) -> bool {
    forall|k: int|
        0 <= k < items.len() ==> #[trigger] replies[k] == Ok::<Seq<u8>, Seq<char>>(
            bytes.subrange(
                disasm::offset_of(items, k) as int,
                disasm::offset_of(items, k + 1) as int,
            ),
        )
}

/// Bytes that were disassembled assemble to the same bytes again, and the
/// instructions come out as they were decoded: provided that every decoded
/// instruction has a line of source, that together they take all the bytes,
/// and that encoding gives back what was decoded.
pub proof fn law_round_trip(items: Seq<DecodedView>, bytes: Seq<u8>, replies: Seq<ReplyView>)
    requires
        forall|k: int|
            0 <= k < items.len() ==> has_source(
                (#[trigger] items[k]).insn,
                items[k].mnemonic,
            ),
        disasm::offset_of(items, items.len() as int) == bytes.len(),
        gives_back(items, bytes, replies),
    ensures
        crate::assembly_of(disasm::listing(items, items.len() as int), replies) == Ok::<
            encode::OutputView,
            ErrorView,
        >(
            encode::OutputView {
                bytes,
                symbols: symtab::no_symbols(Set::empty()),
                instructions: items.map_values(|item: DecodedView| item.insn),
            },
        ),
{
    let n = items.len() as int;
    lemma_listing_source(items);
    lemma_listing_pass1(items);
    lemma_listing_pass2(items, bytes, symtab::no_symbols(Set::empty()), replies, n);
    assert(bytes.take(bytes.len() as int) =~= bytes);
    assert(Seq::new(items.len(), |k: int| items[k].insn) =~= items.map_values(
        |item: DecodedView| item.insn,
    ));
}

/// Whatever pass 2 builds has a line of source, under the proper mnemonic of
/// its operation.
pub proof fn law_built_has_source(
    insn: InstructionView,
    symbols: Symbols,
    lc: i64,
    line: u32,
    built: Instruction,
    mnemonic: Seq<char>,
)
    requires
        insn.tag <= 3,
        encode::machine_of(insn, symbols, lc, line) == Ok::<Instruction, ErrorView>(built),
        names(mnemonic, built.operation()),
    ensures
        has_source(built, mnemonic),
{
    encode::lemma_spellings();
}

/// Whether a line emits no data words.
pub open spec fn emits_code(line: LineView) -> bool {
    match line.body {
        BodyView::Directive(DirectiveView::Org(_)) => false,
        BodyView::Directive(DirectiveView::Dc(_)) => false,
        BodyView::Directive(DirectiveView::Bss(_)) => false,
        _ => true,
    }
}

/// Whether an instruction has a line of source under the proper mnemonic of
/// its operation.
pub open spec fn sourced(insn: Instruction) -> bool {
    forall|mnemonic: Seq<char>| #[trigger]
        names(mnemonic, insn.operation()) ==> has_source(insn, mnemonic)
}

pub(crate) proof fn lemma_code_is_sourced(
    lines: Seq<LineView>,
    symbols: Symbols,
    replies: Seq<ReplyView>,
    n: int,
    q: Pass2,
)
    requires
        0 <= n <= lines.len(),
        forall|k: int| 0 <= k < lines.len() ==> emits_code(#[trigger] lines[k]),
        forall|k: int|
            0 <= k < lines.len() ==> ((#[trigger] lines[k]).body matches BodyView::Instruction(insn)
                ==> insn.tag <= 3),
        encode::pass2_after(lines, symbols, replies, n) == Ok::<Pass2, ErrorView>(q),
    ensures
        forall|i: int| 0 <= i < q.instructions.len() ==> sourced(#[trigger] q.instructions[i]),
    decreases n,
{
    if n > 0 {
        let before = encode::pass2_after(lines, symbols, replies, n - 1)->Ok_0;
        lemma_code_is_sourced(lines, symbols, replies, n - 1, before);
        let line = lines[n - 1];
        assert(emits_code(line));
        if !before.ended {
            match line.body {
                BodyView::Instruction(insn) => {
                    let built = encode::machine_of(insn, symbols, before.lc, line.line)->Ok_0;
                    assert(sourced(built)) by {
                        assert forall|mnemonic: Seq<char>| #[trigger]
                            names(mnemonic, built.operation()) implies has_source(
                            built,
                            mnemonic,
                        ) by {
                            law_built_has_source(
                                insn,
                                symbols,
                                before.lc,
                                line.line,
                                built,
                                mnemonic,
                            );
                        }
                    }
                    assert(q.instructions == before.instructions.push(built));
                },
                _ => {
                    assert(q.instructions == before.instructions);
                },
            }
        }
    }
}

/// From text to bytes and back: a program that assembles and holds no data
/// words can be disassembled and assembled again, with the same bytes and
/// instructions. This asks of the decoder that it finds the instructions
/// that were emitted and gives them their proper mnemonics, and of the
/// encoder that it gives back what was decoded.
pub proof fn law_assembled_round_trip(
    source: Seq<char>,
    replies: Seq<ReplyView>,
    out: encode::OutputView,
    items: Seq<DecodedView>,
    again: Seq<ReplyView>,
)
    requires
        crate::assembly_of(source, replies) == Ok::<encode::OutputView, ErrorView>(out),
        grammar::source_of(source) matches Ok(lines) && forall|k: int|
            0 <= k < lines.len() ==> emits_code(#[trigger] lines[k]),
        items.len() == out.instructions.len(),
        forall|k: int|
            0 <= k < items.len() ==> (#[trigger] items[k]).insn == out.instructions[k] && names(
                items[k].mnemonic,
                items[k].insn.operation(),
            ),
        disasm::offset_of(items, items.len() as int) == out.bytes.len(),
        gives_back(items, out.bytes, again),
    ensures
        crate::assembly_of(disasm::listing(items, items.len() as int), again) == Ok::<
            encode::OutputView,
            ErrorView,
        >(
            encode::OutputView {
                bytes: out.bytes,
                symbols: symtab::no_symbols(Set::empty()),
                instructions: out.instructions,
            },
        ),
{
    let raw = text::lines_of(source);
    let lines = grammar::source_of(source)->Ok_0;
    laws::law_lines_are_numbered(raw, raw.len() as int, lines);
    assert forall|k: int| 0 <= k < lines.len() implies (
    (#[trigger] lines[k]).body matches BodyView::Instruction(insn) ==> insn.tag <= 3) by {
        match lines[k].body {
            BodyView::Instruction(insn) => {
                laws::law_parsed_instruction(text::wrap32(k + 1), raw[k], lines[k], insn);
            },
            _ => {},
        }
    }
    let symbols = symtab::pass1_of(lines)->Ok_0;
    let n = lines.len() as int;
    lemma_code_is_sourced(
        lines,
        symbols,
        replies,
        n,
        encode::pass2_after(lines, symbols, replies, n)->Ok_0,
    );
    assert forall|k: int| 0 <= k < items.len() implies has_source(
        (#[trigger] items[k]).insn,
        items[k].mnemonic,
    ) by {
        assert(sourced(out.instructions[k]));
    }
    law_round_trip(items, out.bytes, again);
    assert(items.map_values(|item: DecodedView| item.insn) =~= out.instructions);
}

} // verus!
