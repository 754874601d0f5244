//! What a source line means, as functions on character sequences.

use crate::encode;
use crate::parser::{BodyView, DirectiveView, InstructionView, LabelView, LineView, OperandView};
use crate::text;
use crate::ErrorView;
use vstd::prelude::*;

verus! {

/// The value of a numeral with or without a sign, if 64 bits hold it.
pub open spec fn radix_value(s: Seq<char>, radix: nat) -> Option<i64> {
    let negative = s.len() > 0 && s[0] == '-';
    let digits = if s.len() > 0 && (s[0] == '-' || s[0] == '+') {
        s.skip(1)
    } else {
        s
    };
    if digits.len() == 0 {
        None
    } else {
        match text::digits_value(digits, radix) {
            Some(n) => {
                let v: int = if negative {
                    -n
                } else {
                    n as int
                };
                if i64::MIN <= v <= i64::MAX {
                    Some(v as i64)
                } else {
                    None
                }
            },
            None => None,
        }
    }
}

/// Whether `s` begins with `a` and `b`.
pub open spec fn begins(s: Seq<char>, a: char, b: char) -> bool {
    s.len() >= 2 && s[0] == a && s[1] == b
}

pub open spec fn all_decimal(s: Seq<char>) -> bool {
    forall|i: int| 0 <= i < s.len() ==> text::is_decimal(#[trigger] s[i])
}

/// The value of a number without the sign before it: hexadecimal behind
/// `0x` or `/`, binary behind `0b`, or else decimal digits.
pub open spec fn unsigned_number(body: Seq<char>) -> Option<i64> {
    if begins(body, '0', 'x') || begins(body, '0', 'X') {
        radix_value(body.skip(2), 16)
    } else if body.len() > 0 && body[0] == '/' {
        radix_value(body.skip(1), 16)
    } else if begins(body, '0', 'b') || begins(body, '0', 'B') {
        radix_value(body.skip(2), 2)
    } else if body.len() > 0 && all_decimal(body) {
        radix_value(body, 10)
    } else {
        None
    }
}

/// The negative in two's complement.
pub open spec fn negated(n: i64) -> i64 {
    if n == i64::MIN {
        n
    } else {
        (-n) as i64
    }
}

/// The value of a number, if `s` is one.
pub open spec fn number(s: Seq<char>) -> Option<i64> {
    let negative = s.len() > 0 && s[0] == '-';
    let signed = s.len() > 0 && (s[0] == '-' || s[0] == '+');
    let body = text::trim(if signed {
        s.skip(1)
    } else {
        s
    });
    match unsigned_number(body) {
        Some(n) => Some(if negative {
            negated(n)
        } else {
            n
        }),
        None => None,
    }
}

/// The end of the identifier characters at `pos`.
pub open spec fn run_end(s: Seq<char>, pos: int) -> int
    decreases s.len() - pos,
{
    if 0 <= pos < s.len() && text::continues_ident(s[pos]) {
        run_end(s, pos + 1)
    } else {
        pos
    }
}

/// The end of the identifier at `pos`, if there is one.
pub open spec fn ident_end(s: Seq<char>, pos: int) -> Option<int> {
    if 0 <= pos < s.len() && text::starts_ident(s[pos]) {
        Some(run_end(s, pos))
    } else {
        None
    }
}

pub open spec fn is_sign(c: char) -> bool {
    c == '+' || c == '-'
}

/// The first blank or comma at or after `pos`, or the end of `s`.
pub open spec fn token_stop(s: Seq<char>, pos: int) -> int
    decreases s.len() - pos,
{
    if 0 <= pos < s.len() && !text::is_blank(s[pos]) && s[pos] != ',' {
        token_stop(s, pos + 1)
    } else {
        pos
    }
}

/// The end of the operand token at `pos`, if there is one: something other
/// than a sign alone, up to a blank, a comma or the end.
pub open spec fn token_end(s: Seq<char>, pos: int) -> Option<int> {
    let body = if 0 <= pos < s.len() && is_sign(s[pos]) {
        pos + 1
    } else {
        pos
    };
    let end = token_stop(s, body);
    if end == body {
        None
    } else {
        Some(end)
    }
}

/// Whether a sign behind this character can begin an offset.
pub open spec fn takes_offset(c: char) -> bool {
    text::continues_ident(c) || c == '*'
}

/// Whether the sign at `i` belongs to a literal: it stands right behind the
/// `0x` or `0b` that begins one, at the start of the text or behind a sign.
pub open spec fn in_literal(s: Seq<char>, i: int) -> bool {
    &&& i >= 2
    &&& s[i - 2] == '0'
    &&& s[i - 1] == 'x' || s[i - 1] == 'X' || s[i - 1] == 'b' || s[i - 1] == 'B'
    &&& i == 2 || is_sign(s[i - 3])
}

/// Whether an offset begins at `i`: a sign that belongs to no literal, behind
/// a character that takes an offset, with a number from there on.
pub open spec fn begins_offset(s: Seq<char>, i: int) -> bool {
    &&& is_sign(s[i])
    &&& takes_offset(s[i - 1])
    &&& !in_literal(s, i)
    &&& number(s.skip(i)) is Some
}

/// The last place up to `last` at which an offset begins; 0 if there is none.
pub open spec fn split_point(s: Seq<char>, last: int) -> int
    decreases last,
{
    if last < 1 {
        0
    } else if begins_offset(s, last) {
        last
    } else {
        split_point(s, last - 1)
    }
}

/// `s` as a base and the number added to it: split at the last place where
/// an offset begins.
pub open spec fn offset_parts(s: Seq<char>) -> Option<(Seq<char>, i64)> {
    let i = split_point(s, s.len() - 1);
    if i == 0 {
        None
    } else {
        Some((s.take(i), number(s.skip(i)).unwrap()))
    }
}

pub open spec fn is_ident(s: Seq<char>) -> bool {
    &&& s.len() > 0
    &&& text::starts_ident(s[0])
    &&& forall|i: int| 0 <= i < s.len() ==> text::continues_ident(#[trigger] s[i])
}

pub proof fn lemma_trim_len(s: Seq<char>)
    ensures
        text::trim_end(s).len() <= s.len(),
        text::trim_start(s).len() <= s.len(),
        text::trim(s).len() <= s.len(),
    decreases s.len(),
{
    lemma_trim_end_len(s);
    lemma_trim_start_len(s);
    lemma_trim_start_len(text::trim_end(s));
}

proof fn lemma_trim_end_len(s: Seq<char>)
    ensures
        text::trim_end(s).len() <= s.len(),
    decreases s.len(),
{
    if s.len() > 0 && text::is_whitespace(s.last()) {
        lemma_trim_end_len(s.drop_last());
    }
}

proof fn lemma_trim_start_len(s: Seq<char>)
    ensures
        text::trim_start(s).len() <= s.len(),
    decreases s.len(),
{
    if s.len() > 0 && text::is_whitespace(s[0]) {
        lemma_trim_start_len(s.skip(1));
    }
}

pub proof fn lemma_split_point(s: Seq<char>, last: int)
    requires
        last < s.len(),
    ensures
        0 <= split_point(s, last),
        split_point(s, last) == 0 || 1 <= split_point(s, last) <= last,
        split_point(s, last) != 0 ==> begins_offset(s, split_point(s, last)),
    decreases last,
{
    if last >= 1 && !begins_offset(s, last) {
        lemma_split_point(s, last - 1);
    }
}

/// The operand that a token spells: a base with an offset, `*`, a number or
/// a symbol.
pub open spec fn operand_of(line: u32, col: u32, token: Seq<char>) -> Result<OperandView, ErrorView>
    decreases token.len(),
{
    let s = text::trim(token);
    if s.len() == 0 {
        Err(ErrorView { line, col, message: "empty operand"@ })
    } else {
        match offset_parts(s) {
            Some((base, delta)) => {
                proof {
                    lemma_trim_len(token);
                    lemma_split_point(s, s.len() - 1);
                }
                match operand_of(line, col, base) {
                    Ok(op) => Ok(OperandView::Offset { base: Box::new(op), delta }),
                    Err(e) => Err(e),
                }
            },
            None => if s == seq!['*'] {
                Ok(OperandView::LocationCounter)
            } else {
                match number(s) {
                    Some(n) => Ok(OperandView::Number(n)),
                    None => if is_ident(s) {
                        Ok(OperandView::Symbol(s))
                    } else {
                        Err(
                            ErrorView {
                                line,
                                col,
                                message: "invalid operand: "@ + text::quoted_text(s),
                            },
                        )
                    },
                }
            },
        }
    }
}

/// The operand at `pos` and the place behind it.
pub open spec fn operand_at(line: u32, s: Seq<char>, pos: int) -> Result<
    (OperandView, int),
    ErrorView,
> {
    match token_end(s, pos) {
        Some(end) => match operand_of(line, text::column(s, pos), s.subrange(pos, end)) {
            Ok(op) => Ok((op, end)),
            Err(e) => Err(e),
        },
        None => Err(
            ErrorView {
                line,
                col: text::column(s, pos),
                message: "expected operand (number or symbol)"@,
            },
        ),
    }
}

/// The flags before an operand.
pub struct Flags {
    pub long: bool,
    pub indirect: bool,
    /// The place of what follows the flags.
    pub pos: int,
}

/// Whether the mnemonic never has an operand, so that a last `I` or `L` is a
/// flag and no operand of that name.
pub open spec fn no_operand(mnemonic: Seq<char>) -> bool {
    mnemonic == "wait"@
}

/// Reads the flags `I` and `L` at `pos`, in any case, order and number. The
/// last word of the line is no flag, unless `bare`: it is an operand that
/// happens to have that name.
pub open spec fn flags_at(s: Seq<char>, pos: int, bare: bool, long: bool, indirect: bool) -> Flags
    decreases s.len() - pos,
    when 0 <= pos <= s.len()
{
    let p = text::skip_blanks(s, pos);
    proof {
        lemma_skip_blanks(s, pos);
        lemma_run_end(s, p);
    }
    match ident_end(s, p) {
        Some(end) => {
            let word = text::lower(s.subrange(p, end));
            if (word == seq!['i'] || word == seq!['l']) && (bare || text::skip_blanks(s, end) < s.len()) {
                flags_at(s, end, bare, long || word == seq!['l'], indirect || word == seq!['i'])
            } else {
                Flags { long, indirect, pos: p }
            }
        },
        None => Flags { long, indirect, pos: p },
    }
}

pub proof fn lemma_skip_blanks(s: Seq<char>, pos: int)
    requires
        0 <= pos <= s.len(),
    ensures
        pos <= text::skip_blanks(s, pos) <= s.len(),
        text::skip_blanks(s, pos) < s.len() ==> !text::is_blank(s[text::skip_blanks(s, pos)]),
    decreases s.len() - pos,
{
    if pos < s.len() && text::is_blank(s[pos]) {
        lemma_skip_blanks(s, pos + 1);
    }
}

pub proof fn lemma_run_end(s: Seq<char>, pos: int)
    requires
        0 <= pos <= s.len(),
    ensures
        pos <= run_end(s, pos) <= s.len(),
        pos < s.len() && text::starts_ident(s[pos]) ==> pos < run_end(s, pos),
    decreases s.len() - pos,
{
    if pos < s.len() && text::continues_ident(s[pos]) {
        lemma_run_end(s, pos + 1);
    }
}

/// The place behind the comma of a tag at `pos`, if there is one: a digit up
/// to 3, then a comma, with blanks between them or not.
pub open spec fn tag_end(s: Seq<char>, pos: int) -> Option<int> {
    let comma = text::skip_blanks(s, pos + 1);
    if 0 <= pos < s.len() && '0' <= s[pos] && s[pos] <= '3' && comma < s.len() && s[comma] == ',' {
        Some(comma + 1)
    } else {
        None
    }
}

/// The operands of an instruction at `pos`.
pub struct Operands {
    pub tag: u8,
    pub operand: Option<OperandView>,
    pub mask: Option<OperandView>,
    /// The place behind the operands.
    pub pos: int,
}

/// The operand at `pos`, and a mask behind a comma.
pub open spec fn operand_and_mask(line: u32, s: Seq<char>, pos: int, tag: u8) -> Result<
    Operands,
    ErrorView,
> {
    match operand_at(line, s, pos) {
        Err(e) => Err(e),
        Ok((operand, end)) => {
            let next = text::skip_blanks(s, end);
            if next < s.len() && s[next] == ',' {
                match operand_at(line, s, text::skip_blanks(s, next + 1)) {
                    Err(e) => Err(e),
                    Ok((mask, behind)) => Ok(
                        Operands { tag, operand: Some(operand), mask: Some(mask), pos: behind },
                    ),
                }
            } else {
                Ok(Operands { tag, operand: Some(operand), mask: None, pos: next })
            }
        },
    }
}

/// The tag at `pos`, 0 if there is none, and the place of what follows it.
pub open spec fn tag_at(s: Seq<char>, pos: int) -> (u8, int) {
    match tag_end(s, pos) {
        Some(end) => ((s[pos] as u32 - '0' as u32) as u8, text::skip_blanks(s, end)),
        None => (0, pos),
    }
}

/// A tag, an operand, and a mask behind a comma, each of them optional.
pub open spec fn operands_at(line: u32, s: Seq<char>, pos: int) -> Result<Operands, ErrorView> {
    let (tag, start) = tag_at(s, pos);
    if start >= s.len() {
        Ok(Operands { tag, operand: None, mask: None, pos: start })
    } else {
        operand_and_mask(line, s, start, tag)
    }
}

/// The instruction whose mnemonic ends at `pos`, and the place behind it:
/// flags and operands.
pub open spec fn instruction_at(
    line: u32,
    s: Seq<char>,
    pos: int,
    mnemonic: Seq<char>,
    mnemonic_col: u32,
) -> Result<(BodyView, int), ErrorView> {
    let flags = flags_at(s, pos, no_operand(mnemonic), false, false);
    match operands_at(line, s, flags.pos) {
        Err(e) => Err(e),
        Ok(operands) => Ok(
            (
                BodyView::Instruction(
                    InstructionView {
                        mnemonic,
                        mnemonic_col,
                        long_flag: flags.long,
                        indirect_flag: flags.indirect,
                        tag: operands.tag,
                        operand: operands.operand,
                        mask: operands.mask,
                    },
                ),
                operands.pos,
            ),
        ),
    }
}

/// The directives that take one operand.
pub open spec fn operand_directive(name: Seq<char>, op: OperandView) -> Option<DirectiveView> {
    if name == "org"@ {
        Some(DirectiveView::Org(op))
    } else if name == "equ"@ {
        Some(DirectiveView::Equ(op))
    } else if name == "dc"@ {
        Some(DirectiveView::Dc(op))
    } else if name == "bss"@ {
        Some(DirectiveView::Bss(op))
    } else {
        None
    }
}

pub open spec fn is_operand_directive(name: Seq<char>) -> bool {
    name == "org"@ || name == "equ"@ || name == "dc"@ || name == "bss"@
}

/// The directive or instruction whose name ends at `pos`, and the place
/// behind it.
pub open spec fn body_at(
    line: u32,
    s: Seq<char>,
    pos: int,
    name: Seq<char>,
    name_col: u32,
) -> Result<(BodyView, int), ErrorView> {
    let next = text::skip_blanks(s, pos);
    if is_operand_directive(name) {
        match operand_at(line, s, next) {
            Ok((op, end)) => Ok((BodyView::Directive(operand_directive(name, op).unwrap()), end)),
            Err(e) => Err(e),
        }
    } else if name == "abs"@ {
        Ok((BodyView::Directive(DirectiveView::Abs), pos))
    } else if name == "end"@ {
        if next >= s.len() {
            Ok((BodyView::Directive(DirectiveView::End(None)), next))
        } else {
            match operand_at(line, s, next) {
                Ok((op, end)) => Ok((BodyView::Directive(DirectiveView::End(Some(op))), end)),
                Err(e) => Err(e),
            }
        }
    } else {
        instruction_at(line, s, pos, name, name_col)
    }
}

/// A line without its comment, which begins at the first `;`, and without
/// the white space before that.
pub open spec fn without_comment(raw: Seq<char>) -> Seq<char> {
    text::trim_end(raw.take(text::find(raw, ';', 0)))
}

/// Whether the line says nothing: it is blank, or a job card (`//`), or a
/// listing directive (`*`).
pub open spec fn says_nothing(s: Seq<char>) -> bool {
    let t = text::trim_start(s);
    t.len() == 0 || begins(t, '/', '/') || t[0] == '*'
}

/// Whether a lower-case name is that of a directive.
pub open spec fn is_directive(name: Seq<char>) -> bool {
    is_operand_directive(name) || name == "abs"@ || name == "end"@
}

/// How the directives are spelled.
pub proof fn lemma_directives()
    ensures
        "org"@.len() == 3 && "org"@[0] == 'o' && "org"@[1] == 'r' && "org"@[2] == 'g',
        "equ"@.len() == 3 && "equ"@[0] == 'e' && "equ"@[1] == 'q' && "equ"@[2] == 'u',
        "dc"@.len() == 2 && "dc"@[0] == 'd' && "dc"@[1] == 'c',
        "bss"@.len() == 3 && "bss"@[0] == 'b' && "bss"@[1] == 's' && "bss"@[2] == 's',
        "abs"@.len() == 3 && "abs"@[0] == 'a' && "abs"@[1] == 'b' && "abs"@[2] == 's',
        "end"@.len() == 3 && "end"@[0] == 'e' && "end"@[1] == 'n' && "end"@[2] == 'd',
{
    reveal_strlit("org");
    reveal_strlit("equ");
    reveal_strlit("dc");
    reveal_strlit("bss");
    reveal_strlit("abs");
    reveal_strlit("end");
}

/// Whether a name, in whatever case, is that of a directive or an operation.
pub open spec fn is_known(name: Seq<char>) -> bool {
    is_directive(text::lower(name)) || encode::opcode_of(text::lower(name)) is Some
}

/// Whether the identifier at the beginning of a line, which ends at `end`, is
/// a label without a colon: it has no meaning of its own, and it is the whole
/// line or stands before something that has one.
pub open spec fn is_column_label(s: Seq<char>, end: int) -> bool {
    let next = text::skip_blanks(s, end);
    &&& !is_known(s.take(end))
    &&& end == s.len() || (end < next && match ident_end(s, next) {
        Some(behind) => is_known(s.subrange(next, behind)),
        None => false,
    })
}

/// Whether the line begins with a label without a colon.
pub open spec fn has_column_label(s: Seq<char>) -> bool {
    match ident_end(s, 0) {
        Some(end) => is_column_label(s, end),
        None => false,
    }
}

/// The label at `pos`, and the place behind it: an identifier with a colon
/// behind it, or one in the first column that can only be a label.
pub open spec fn label_at(s: Seq<char>, pos: int) -> (Option<LabelView>, int) {
    match ident_end(s, pos) {
        Some(end) => {
            let label = LabelView { name: s.subrange(pos, end), col: text::column(s, pos) };
            if end < s.len() && s[end] == ':' {
                (Some(label), end + 1)
            } else if pos == 0 && is_column_label(s, end) {
                (Some(label), end)
            } else {
                (None, pos)
            }
        },
        None => (None, pos),
    }
}

/// What one line of source means.
#[verifier::opaque]
pub open spec fn line_of(line: u32, raw: Seq<char>) -> Result<LineView, ErrorView> {
    let s = without_comment(raw);
    if says_nothing(s) {
        Ok(LineView { line, label: None, body: BodyView::Empty })
    } else {
        let (label, after_label) = label_at(s, text::skip_blanks(s, 0));
        let start = text::skip_blanks(s, after_label);
        if start >= s.len() {
            Ok(LineView { line, label, body: BodyView::Empty })
        } else {
            match ident_end(s, start) {
                None => Err(
                    ErrorView {
                        line,
                        col: text::column(s, start),
                        message: "expected mnemonic or directive"@,
                    },
                ),
                Some(end) => match body_at(
                    line,
                    s,
                    end,
                    text::lower(s.subrange(start, end)),
                    text::column(s, start),
                ) {
                    Err(e) => Err(e),
                    Ok((body, behind)) => {
                        let stop = text::skip_blanks(s, behind);
                        if stop < s.len() {
                            Err(
                                ErrorView {
                                    line,
                                    col: text::column(s, stop),
                                    message: "unexpected trailing input: "@ + text::quoted_text(
                                        s.skip(stop),
                                    ),
                                },
                            )
                        } else {
                            Ok(LineView { line, label, body })
                        }
                    },
                },
            }
        }
    }
}

/// What the first `n` lines of a source mean, or the error of the first of
/// them that has one.
pub open spec fn source_lines(lines: Seq<Seq<char>>, n: int) -> Result<Seq<LineView>, ErrorView>
    decreases n,
{
    if n <= 0 {
        Ok(seq![])
    } else {
        match source_lines(lines, n - 1) {
            Err(e) => Err(e),
            Ok(before) => match line_of(text::wrap32(n), lines[n - 1]) {
                Err(e) => Err(e),
                Ok(line) => Ok(before.push(line)),
            },
        }
    }
}

/// What a source text means: its lines, numbered from 1, or the error of the
/// first line that has one.
pub open spec fn source_of(source: Seq<char>) -> Result<Seq<LineView>, ErrorView> {
    source_lines(text::lines_of(source), text::lines_of(source).len() as int)
}

} // verus!
