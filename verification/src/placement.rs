//! Where a line begins: blanks before it move columns and change nothing
//! else.

use crate::grammar;
use crate::grammar::{Flags, Operands};
use crate::parser::{BodyView, InstructionView, LabelView, LineView, OperandView};
use crate::text;
use crate::ErrorView;
use vstd::prelude::*;

verus! {

/// The column to the right.
pub open spec fn next_column(col: u32) -> u32 {
    text::wrap32(col + 1)
}

/// An error one column to the right.
pub open spec fn moved_error(e: ErrorView) -> ErrorView {
    ErrorView { col: next_column(e.col), ..e }
}

/// A label one column to the right.
pub open spec fn moved_label(label: Option<LabelView>) -> Option<LabelView> {
    match label {
        Some(l) => Some(LabelView { col: next_column(l.col), ..l }),
        None => None,
    }
}

/// A line's body one column to the right.
pub open spec fn moved_body(body: BodyView) -> BodyView {
    match body {
        BodyView::Instruction(insn) => BodyView::Instruction(
            InstructionView { mnemonic_col: next_column(insn.mnemonic_col), ..insn },
        ),
        _ => body,
    }
}

/// A line or its error, one column to the right.
pub open spec fn moved_line(r: Result<LineView, ErrorView>) -> Result<LineView, ErrorView> {
    match r {
        Ok(l) => Ok(LineView { line: l.line, label: moved_label(l.label), body: moved_body(l.body) }),
        Err(e) => Err(moved_error(e)),
    }
}

/// A text behind one more character.
pub open spec fn behind(b: char, s: Seq<char>) -> Seq<char> {
    seq![b] + s
}

proof fn lemma_skip_blanks(b: char, s: Seq<char>, pos: int)
    requires
        0 <= pos,
    ensures
        text::skip_blanks(behind(b, s), pos + 1) == text::skip_blanks(s, pos) + 1,
    decreases s.len() - pos,
{
    if pos < s.len() {
        assert(behind(b, s)[pos + 1] == s[pos]);
        if text::is_blank(s[pos]) {
            lemma_skip_blanks(b, s, pos + 1);
        }
    }
}

proof fn lemma_run_end(b: char, s: Seq<char>, pos: int)
    requires
        0 <= pos,
    ensures
        grammar::run_end(behind(b, s), pos + 1) == grammar::run_end(s, pos) + 1,
    decreases s.len() - pos,
{
    if pos < s.len() {
        assert(behind(b, s)[pos + 1] == s[pos]);
        if text::continues_ident(s[pos]) {
            lemma_run_end(b, s, pos + 1);
        }
    }
}

pub(crate) proof fn lemma_ident_end(b: char, s: Seq<char>, pos: int)
    requires
        0 <= pos,
    ensures
        grammar::ident_end(behind(b, s), pos + 1) == match grammar::ident_end(s, pos) {
            Some(end) => Some(end + 1),
            None => None,
        },
        grammar::ident_end(s, pos) matches Some(end) ==> pos < end <= s.len() && behind(
            b,
            s,
        ).subrange(pos + 1, end + 1) == s.subrange(pos, end),
{
    if pos < s.len() {
        assert(behind(b, s)[pos + 1] == s[pos]);
        if text::starts_ident(s[pos]) {
            lemma_run_end(b, s, pos);
            grammar::lemma_run_end(s, pos);
            let end = grammar::run_end(s, pos);
            assert(behind(b, s).subrange(pos + 1, end + 1) =~= s.subrange(pos, end));
        }
    }
}

proof fn lemma_token_stop(b: char, s: Seq<char>, pos: int)
    requires
        0 <= pos,
    ensures
        grammar::token_stop(behind(b, s), pos + 1) == grammar::token_stop(s, pos) + 1,
        pos <= grammar::token_stop(s, pos),
        pos <= s.len() ==> grammar::token_stop(s, pos) <= s.len(),
    decreases s.len() - pos,
{
    if pos < s.len() {
        assert(behind(b, s)[pos + 1] == s[pos]);
        if !text::is_blank(s[pos]) && s[pos] != ',' {
            lemma_token_stop(b, s, pos + 1);
        }
    }
}

pub(crate) proof fn lemma_token_end(b: char, s: Seq<char>, pos: int)
    requires
        0 <= pos <= s.len(),
    ensures
        grammar::token_end(behind(b, s), pos + 1) == match grammar::token_end(s, pos) {
            Some(end) => Some(end + 1),
            None => None,
        },
        grammar::token_end(s, pos) matches Some(end) ==> pos <= end <= s.len() && behind(
            b,
            s,
        ).subrange(pos + 1, end + 1) == s.subrange(pos, end),
{
    let body = if pos < s.len() && grammar::is_sign(s[pos]) {
        pos + 1
    } else {
        pos
    };
    if pos < s.len() {
        assert(behind(b, s)[pos + 1] == s[pos]);
    }
    lemma_token_stop(b, s, body);
    let end = grammar::token_stop(s, body);
    assert(behind(b, s).subrange(pos + 1, end + 1) =~= s.subrange(pos, end));
}

proof fn lemma_byte_len(b: char, s: Seq<char>)
    requires
        text::is_blank(b),
    ensures
        text::byte_len(behind(b, s)) == text::byte_len(s) + 1,
    decreases s.len(),
{
    if s.len() > 0 {
        assert(behind(b, s).drop_last() =~= behind(b, s.drop_last()));
        assert(behind(b, s).last() == s.last());
        lemma_byte_len(b, s.drop_last());
    } else {
        assert(behind(b, s).drop_last() =~= s);
        assert(behind(b, s).last() == b);
    }
}

proof fn lemma_column(b: char, s: Seq<char>, pos: int)
    requires
        text::is_blank(b),
        0 <= pos <= s.len(),
    ensures
        text::column(behind(b, s), pos + 1) == next_column(text::column(s, pos)),
{
    assert(behind(b, s).take(pos + 1) =~= behind(b, s.take(pos)));
    lemma_byte_len(b, s.take(pos));
}

/// The column of an operand has a part in its error only.
proof fn lemma_operand_of(line: u32, col: u32, other: u32, token: Seq<char>)
    ensures
        grammar::operand_of(line, other, token) == match grammar::operand_of(line, col, token) {
            Ok(op) => Ok::<OperandView, ErrorView>(op),
            Err(e) => Err(ErrorView { col: other, ..e }),
        },
        grammar::operand_of(line, col, token) matches Err(e) ==> e.col == col,
    decreases token.len(),
{
    let s = text::trim(token);
    if s.len() > 0 {
        match grammar::offset_parts(s) {
            Some((base, delta)) => {
                grammar::lemma_trim_len(token);
                grammar::lemma_split_point(s, s.len() - 1);
                lemma_operand_of(line, col, other, base);
            },
            None => {},
        }
    }
}

/// An operand and the place behind it, one place later.
pub open spec fn moved_operand(r: Result<(OperandView, int), ErrorView>) -> Result<
    (OperandView, int),
    ErrorView,
> {
    match r {
        Ok((op, end)) => Ok((op, end + 1)),
        Err(e) => Err(moved_error(e)),
    }
}

pub(crate) proof fn lemma_operand_at(b: char, line: u32, s: Seq<char>, pos: int)
    requires
        text::is_blank(b),
        0 <= pos <= s.len(),
    ensures
        grammar::operand_at(line, behind(b, s), pos + 1) == moved_operand(
            grammar::operand_at(line, s, pos),
        ),
        grammar::operand_at(line, s, pos) matches Ok((op, end)) ==> pos <= end <= s.len(),
{
    lemma_column(b, s, pos);
    lemma_token_end(b, s, pos);
    let col = text::column(s, pos);
    match grammar::token_end(s, pos) {
        Some(end) => {
            lemma_operand_of(line, col, next_column(col), s.subrange(pos, end));
        },
        None => {},
    }
}

pub(crate) proof fn lemma_flags_at(b: char, s: Seq<char>, pos: int, bare: bool, long: bool, indirect: bool)
    requires
        0 <= pos <= s.len(),
    ensures
        ({
            let flags = grammar::flags_at(s, pos, bare, long, indirect);
            &&& grammar::flags_at(behind(b, s), pos + 1, bare, long, indirect) == Flags {
                pos: flags.pos + 1,
                ..flags
            }
            &&& pos <= flags.pos <= s.len()
        }),
    decreases s.len() - pos,
{
    let p = text::skip_blanks(s, pos);
    lemma_skip_blanks(b, s, pos);
    grammar::lemma_skip_blanks(s, pos);
    lemma_ident_end(b, s, p);
    match grammar::ident_end(s, p) {
        Some(end) => {
            let word = text::lower(s.subrange(p, end));
            lemma_skip_blanks(b, s, end);
            if (word == seq!['i'] || word == seq!['l']) && (bare || text::skip_blanks(s, end)
                < s.len()) {
                lemma_flags_at(
                    b,
                    s,
                    end,
                    bare,
                    long || word == seq!['l'],
                    indirect || word == seq!['i'],
                );
            }
        },
        None => {},
    }
}

pub(crate) proof fn lemma_tag_at(b: char, s: Seq<char>, pos: int)
    requires
        0 <= pos <= s.len(),
    ensures
        ({
            let (tag, start) = grammar::tag_at(s, pos);
            &&& grammar::tag_at(behind(b, s), pos + 1) == (tag, start + 1)
            &&& pos <= start <= s.len()
        }),
{
    if pos < s.len() {
        assert(behind(b, s)[pos + 1] == s[pos]);
        lemma_skip_blanks(b, s, pos + 1);
        grammar::lemma_skip_blanks(s, pos + 1);
        let comma = text::skip_blanks(s, pos + 1);
        if comma < s.len() {
            assert(behind(b, s)[comma + 1] == s[comma]);
            lemma_skip_blanks(b, s, comma + 1);
            grammar::lemma_skip_blanks(s, comma + 1);
        }
    }
}

spec fn moved_operands(r: Result<Operands, ErrorView>) -> Result<Operands, ErrorView> {
    match r {
        Ok(o) => Ok(Operands { pos: o.pos + 1, ..o }),
        Err(e) => Err(moved_error(e)),
    }
}

proof fn lemma_operand_and_mask(b: char, line: u32, s: Seq<char>, pos: int, tag: u8)
    requires
        text::is_blank(b),
        0 <= pos <= s.len(),
    ensures
        grammar::operand_and_mask(line, behind(b, s), pos + 1, tag) == moved_operands(
            grammar::operand_and_mask(line, s, pos, tag),
        ),
        grammar::operand_and_mask(line, s, pos, tag) matches Ok(o) ==> 0 <= o.pos <= s.len(),
{
    lemma_operand_at(b, line, s, pos);
    match grammar::operand_at(line, s, pos) {
        Ok((operand, end)) => {
            lemma_skip_blanks(b, s, end);
            grammar::lemma_skip_blanks(s, end);
            let next = text::skip_blanks(s, end);
            if next < s.len() {
                assert(behind(b, s)[next + 1] == s[next]);
                lemma_skip_blanks(b, s, next + 1);
                grammar::lemma_skip_blanks(s, next + 1);
                lemma_operand_at(b, line, s, text::skip_blanks(s, next + 1));
            }
        },
        Err(_) => {},
    }
}

/// A body and the place behind it, one place later.
pub open spec fn moved_part(r: Result<(BodyView, int), ErrorView>) -> Result<(BodyView, int), ErrorView> {
    match r {
        Ok((body, end)) => Ok((moved_body(body), end + 1)),
        Err(e) => Err(moved_error(e)),
    }
}

proof fn lemma_instruction_at(
    b: char,
    line: u32,
    s: Seq<char>,
    pos: int,
    name: Seq<char>,
    col: u32,
)
    requires
        text::is_blank(b),
        0 <= pos <= s.len(),
    ensures
        grammar::instruction_at(line, behind(b, s), pos + 1, name, next_column(col)) == moved_part(
            grammar::instruction_at(line, s, pos, name, col),
        ),
        grammar::instruction_at(line, s, pos, name, col) matches Ok((body, end)) ==> 0 <= end
            <= s.len(),
{
    let bare = grammar::no_operand(name);
    lemma_flags_at(b, s, pos, bare, false, false);
    let flags = grammar::flags_at(s, pos, bare, false, false);
    lemma_tag_at(b, s, flags.pos);
    let (tag, start) = grammar::tag_at(s, flags.pos);
    lemma_operand_and_mask(b, line, s, start, tag);
    assert(grammar::operands_at(line, behind(b, s), flags.pos + 1) == moved_operands(
        grammar::operands_at(line, s, flags.pos),
    ));
}

pub(crate) proof fn lemma_body_at(b: char, line: u32, s: Seq<char>, pos: int, name: Seq<char>, col: u32)
    requires
        text::is_blank(b),
        0 <= pos <= s.len(),
    ensures
        grammar::body_at(line, behind(b, s), pos + 1, name, next_column(col)) == moved_part(
            grammar::body_at(line, s, pos, name, col),
        ),
        grammar::body_at(line, s, pos, name, col) matches Ok((body, end)) ==> 0 <= end <= s.len(),
{
    lemma_skip_blanks(b, s, pos);
    grammar::lemma_skip_blanks(s, pos);
    lemma_operand_at(b, line, s, text::skip_blanks(s, pos));
    lemma_instruction_at(b, line, s, pos, name, col);
}

proof fn lemma_label_at(b: char, s: Seq<char>, pos: int)
    requires
        text::is_blank(b),
        0 <= pos <= s.len(),
        pos == 0 ==> !grammar::has_column_label(s),
    ensures
        ({
            let (label, end) = grammar::label_at(s, pos);
            &&& grammar::label_at(behind(b, s), pos + 1) == (moved_label(label), end + 1)
            &&& pos <= end <= s.len()
        }),
{
    lemma_ident_end(b, s, pos);
    lemma_column(b, s, pos);
    match grammar::ident_end(s, pos) {
        Some(end) => {
            if end < s.len() {
                assert(behind(b, s)[end + 1] == s[end]);
            }
        },
        None => {},
    }
}

pub(crate) proof fn lemma_find(b: char, s: Seq<char>, c: char, pos: int)
    requires
        0 <= pos <= s.len(),
    ensures
        text::find(behind(b, s), c, pos + 1) == text::find(s, c, pos) + 1,
        pos <= text::find(s, c, pos) <= s.len(),
    decreases s.len() - pos,
{
    if pos < s.len() {
        assert(behind(b, s)[pos + 1] == s[pos]);
        if s[pos] != c {
            lemma_find(b, s, c, pos + 1);
        }
    }
}

proof fn lemma_trim_end(b: char, s: Seq<char>)
    requires
        text::is_blank(b),
    ensures
        text::trim_end(behind(b, s)) == if text::trim_end(s).len() == 0 {
            text::trim_end(s)
        } else {
            behind(b, text::trim_end(s))
        },
    decreases s.len(),
{
    if s.len() == 0 {
        assert(behind(b, s).last() == b);
        assert(behind(b, s).drop_last() =~= s);
    } else {
        assert(behind(b, s).last() == s.last());
        assert(behind(b, s).drop_last() =~= behind(b, s.drop_last()));
        if text::is_whitespace(s.last()) {
            lemma_trim_end(b, s.drop_last());
        }
    }
}

/// Behind one more blank a line says as much, and begins one place later.
proof fn lemma_first_place(b: char, s: Seq<char>)
    requires
        text::is_blank(b),
        !grammar::says_nothing(s),
    ensures
        text::skip_blanks(behind(b, s), 0) == text::skip_blanks(s, 0) + 1,
        0 <= text::skip_blanks(s, 0) <= s.len(),
        !grammar::says_nothing(behind(b, s)),
{
    assert(behind(b, s)[0] == b);
    assert(behind(b, s).skip(1) =~= s);
    lemma_skip_blanks(b, s, 0);
    grammar::lemma_skip_blanks(s, 0);
}

/// It does not matter in what column a line begins, unless that is the first
/// and the line has a label there without a colon: behind one more blank it
/// means the same, and is wrong in the same way, one column to the right.
pub proof fn law_column_is_free(b: char, line: u32, raw: Seq<char>)
    requires
        text::is_blank(b),
        !grammar::has_column_label(grammar::without_comment(raw)),
    ensures
        grammar::line_of(line, seq![b] + raw) == moved_line(grammar::line_of(line, raw)),
{
    reveal(grammar::line_of);
    let s = grammar::without_comment(raw);
    let cut = text::find(raw, ';', 0);
    lemma_find(b, raw, ';', 0);
    assert(behind(b, raw)[0] == b);
    assert(text::find(behind(b, raw), ';', 0) == cut + 1);
    assert(behind(b, raw).take(cut + 1) =~= behind(b, raw.take(cut)));
    lemma_trim_end(b, raw.take(cut));
    if s.len() > 0 {
        assert(grammar::without_comment(seq![b] + raw) == behind(b, s));
        if grammar::says_nothing(s) {
            assert(behind(b, s)[0] == b);
            assert(behind(b, s).skip(1) =~= s);
        } else {
            lemma_first_place(b, s);
            let first = text::skip_blanks(s, 0);
            lemma_label_at(b, s, first);
            let (label, after_label) = grammar::label_at(s, first);
            lemma_skip_blanks(b, s, after_label);
            grammar::lemma_skip_blanks(s, after_label);
            let start = text::skip_blanks(s, after_label);
            lemma_column(b, s, start);
            lemma_ident_end(b, s, start);
            match grammar::ident_end(s, start) {
                Some(end) => {
                    let name = text::lower(s.subrange(start, end));
                    let col = text::column(s, start);
                    lemma_body_at(b, line, s, end, name, col);
                    match grammar::body_at(line, s, end, name, col) {
                        Ok((body, stop)) => {
                            lemma_skip_blanks(b, s, stop);
                            grammar::lemma_skip_blanks(s, stop);
                            let next = text::skip_blanks(s, stop);
                            lemma_column(b, s, next);
                            assert(behind(b, s).skip(next + 1) =~= s.skip(next));
                        },
                        Err(_) => {},
                    }
                },
                None => {},
            }
        }
    }
}

} // verus!
