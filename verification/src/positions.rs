//! Where errors are: in a line of the source, in a column from 1 on.

use crate::encode;
use crate::encode::{Pass2, ReplyView};
use crate::grammar;
use crate::laws;
use crate::layout;
use crate::parser::{BodyView, LineView};
use crate::placement;
use crate::symtab;
use crate::symtab::{Pass1, Symbols};
use crate::text;
use crate::ErrorView;
use vstd::prelude::*;

verus! {

/// Whether columns of the text are counted without a wrap.
spec fn is_short_text(s: Seq<char>) -> bool {
    text::byte_len(s) < 0xffff_ffff
}

proof fn lemma_byte_len_append(a: Seq<char>, b: Seq<char>)
    ensures
        text::byte_len(a + b) == text::byte_len(a) + text::byte_len(b),
    decreases b.len(),
{
    if b.len() == 0 {
        assert(a + b =~= a);
    } else {
        assert((a + b).drop_last() =~= a + b.drop_last());
        assert((a + b).last() == b.last());
        lemma_byte_len_append(a, b.drop_last());
    }
}

proof fn lemma_byte_len_take(s: Seq<char>, n: int)
    requires
        0 <= n <= s.len(),
    ensures
        text::byte_len(s.take(n)) <= text::byte_len(s),
{
    lemma_byte_len_append(s.take(n), s.skip(n));
    assert(s.take(n) + s.skip(n) =~= s);
}

proof fn lemma_byte_len(s: Seq<char>)
    ensures
        s.len() <= text::byte_len(s),
    decreases s.len(),
{
    if s.len() > 0 {
        lemma_byte_len(s.drop_last());
    }
}

proof fn lemma_column(s: Seq<char>, pos: int)
    requires
        is_short_text(s),
        0 <= pos <= s.len(),
    ensures
        text::column(s, pos) >= 1,
{
    lemma_byte_len_take(s, pos);
}

proof fn lemma_trim_end(s: Seq<char>)
    ensures
        text::trim_end(s).len() <= s.len(),
        text::trim_end(s) == s.take(text::trim_end(s).len() as int),
    decreases s.len(),
{
    if s.len() > 0 && text::is_whitespace(s.last()) {
        lemma_trim_end(s.drop_last());
        let n = text::trim_end(s).len() as int;
        assert(s.drop_last().take(n) =~= s.take(n));
    } else {
        assert(s.take(s.len() as int) =~= s);
    }
}

proof fn lemma_without_comment(raw: Seq<char>)
    requires
        is_short_text(raw),
    ensures
        is_short_text(grammar::without_comment(raw)),
{
    let cut = text::find(raw, ';', 0);
    placement::lemma_find(' ', raw, ';', 0);
    let s = raw.take(cut);
    lemma_byte_len_take(raw, cut);
    lemma_trim_end(s);
    lemma_byte_len_take(s, text::trim_end(s).len() as int);
}

proof fn lemma_operand_column(line: u32, s: Seq<char>, pos: int)
    requires
        is_short_text(s),
        0 <= pos <= s.len(),
    ensures
        grammar::operand_at(line, s, pos) matches Err(e) ==> e.line == line && e.col >= 1,
{
    laws::lemma_operand_at_error(line, s, pos);
    lemma_column(s, pos);
}

proof fn lemma_operands_column(line: u32, s: Seq<char>, pos: int)
    requires
        is_short_text(s),
        0 <= pos <= s.len(),
    ensures
        grammar::operands_at(line, s, pos) matches Err(e) ==> e.line == line && e.col >= 1,
{
    placement::lemma_tag_at(' ', s, pos);
    let (tag, start) = grammar::tag_at(s, pos);
    placement::lemma_operand_at(' ', line, s, start);
    lemma_operand_column(line, s, start);
    match grammar::operand_at(line, s, start) {
        Ok((operand, end)) => {
            grammar::lemma_skip_blanks(s, end);
            let next = text::skip_blanks(s, end);
            if next < s.len() {
                grammar::lemma_skip_blanks(s, next + 1);
                lemma_operand_column(line, s, text::skip_blanks(s, next + 1));
            }
        },
        Err(_) => {},
    }
}

proof fn lemma_body_column(line: u32, s: Seq<char>, pos: int, name: Seq<char>, col: u32)
    requires
        is_short_text(s),
        0 <= pos <= s.len(),
    ensures
        match grammar::body_at(line, s, pos, name, col) {
            Ok((body, end)) => body matches BodyView::Instruction(insn) ==> insn.mnemonic_col
                == col,
            Err(e) => e.line == line && e.col >= 1,
        },
{
    grammar::lemma_skip_blanks(s, pos);
    lemma_operand_column(line, s, text::skip_blanks(s, pos));
    let bare = grammar::no_operand(name);
    placement::lemma_flags_at(' ', s, pos, bare, false, false);
    lemma_operands_column(line, s, grammar::flags_at(s, pos, bare, false, false).pos);
}

/// Whether a line has a number and columns from 1 on.
spec fn is_placed(l: LineView) -> bool {
    &&& l.line >= 1
    &&& l.label matches Some(label) ==> label.col >= 1
    &&& l.body matches BodyView::Instruction(insn) ==> insn.mnemonic_col >= 1
}

/// A line and its error have columns from 1 on.
proof fn lemma_line_position(line: u32, raw: Seq<char>)
    requires
        line >= 1,
        is_short_text(raw),
    ensures
        match grammar::line_of(line, raw) {
            Ok(l) => is_placed(l) && l.line == line,
            Err(e) => e.line == line && e.col >= 1,
        },
{
    reveal(grammar::line_of);
    let s = grammar::without_comment(raw);
    lemma_without_comment(raw);
    grammar::lemma_skip_blanks(s, 0);
    let first = text::skip_blanks(s, 0);
    lemma_column(s, first);
    placement::lemma_ident_end(' ', s, first);
    let (label, after_label) = grammar::label_at(s, first);
    grammar::lemma_skip_blanks(s, after_label);
    let start = text::skip_blanks(s, after_label);
    lemma_column(s, start);
    placement::lemma_ident_end(' ', s, start);
    match grammar::ident_end(s, start) {
        Some(end) => {
            let name = text::lower(s.subrange(start, end));
            let col = text::column(s, start);
            lemma_body_column(line, s, end, name, col);
            placement::lemma_body_at(' ', line, s, end, name, col);
            match grammar::body_at(line, s, end, name, col) {
                Ok((body, stop)) => {
                    grammar::lemma_skip_blanks(s, stop);
                    lemma_column(s, text::skip_blanks(s, stop));
                },
                Err(_) => {},
            }
        },
        None => {},
    }
}

/// The lines of a text are no longer than the text, and no more than its
/// bytes.
proof fn lemma_lines(s: Seq<char>)
    ensures
        text::lines_of(s).len() <= text::byte_len(s),
        forall|k: int|
            0 <= k < text::lines_of(s).len() ==> text::byte_len(#[trigger] text::lines_of(s)[k])
                <= text::byte_len(s),
    decreases s.len(),
{
    if s.len() > 0 {
        let end = text::find(s, '\n', 0);
        placement::lemma_find(' ', s, '\n', 0);
        if end >= s.len() {
            lemma_byte_len(s);
            assert(text::lines_of(s) =~= seq![s]);
        } else {
            let first = text::without_return(s.take(end));
            let rest = s.skip(end + 1);
            lemma_lines(rest);
            lemma_byte_len_append(s.take(end + 1), rest);
            assert(s.take(end + 1) + rest =~= s);
            lemma_byte_len_take(s.take(end + 1), end);
            assert(s.take(end + 1).take(end) =~= s.take(end));
            lemma_byte_len_take(s.take(end), first.len() as int);
            assert(first =~= s.take(end).take(first.len() as int));
            lemma_byte_len(s.take(end + 1));
            assert(text::lines_of(s) =~= seq![first] + text::lines_of(rest));
            assert forall|k: int| 0 <= k < text::lines_of(s).len() implies text::byte_len(
                #[trigger] text::lines_of(s)[k],
            ) <= text::byte_len(s) by {
                if k > 0 {
                    assert(text::lines_of(s)[k] == text::lines_of(rest)[k - 1]);
                }
            }
        }
    }
}

/// Whether an error stands in one of the lines.
spec fn stands_in(e: ErrorView, lines: Seq<LineView>) -> bool {
    &&& e.col >= 1
    &&& exists|k: int| 0 <= k < lines.len() && (#[trigger] lines[k]).line == e.line
}

proof fn lemma_fault_column(line: LineView, p: Pass1)
    requires
        is_placed(line),
    ensures
        symtab::fault_of(line, p) matches Some(e) ==> e.col >= 1,
{
}

proof fn lemma_step2_column(line: LineView, symbols: Symbols, q: Pass2, reply: ReplyView)
    requires
        is_placed(line),
    ensures
        encode::pass2_step(line, symbols, q, reply) matches Err(e) ==> e.col >= 1,
{
}

proof fn lemma_pass1_position(lines: Seq<LineView>, e: ErrorView)
    requires
        forall|i: int| 0 <= i < lines.len() ==> is_placed(#[trigger] lines[i]),
        symtab::pass1_of(lines) == Err::<Symbols, ErrorView>(e),
    ensures
        stands_in(e, lines),
{
    let stretched = symtab::settled_of(lines).stretched;
    let k = layout::lemma_first_fault(lines, stretched, lines.len() as int, e);
    assert(is_placed(lines[k]));
    let p = symtab::pass1_after(lines, stretched, k);
    layout::lemma_fault_line(lines[k], p);
    lemma_fault_column(lines[k], p);
}

proof fn lemma_pass2_position(
    lines: Seq<LineView>,
    symbols: Symbols,
    replies: Seq<ReplyView>,
    e: ErrorView,
)
    requires
        forall|i: int| 0 <= i < lines.len() ==> is_placed(#[trigger] lines[i]),
        encode::pass2_of(lines, symbols, replies) == Err::<encode::OutputView, ErrorView>(e),
    ensures
        stands_in(e, lines),
{
    let k = laws::law_pass2_error_line(lines, symbols, replies, lines.len() as int, e);
    assert(is_placed(lines[k]));
    let q = encode::pass2_after(lines, symbols, replies, k)->Ok_0;
    lemma_step2_column(lines[k], symbols, q, replies[k]);
}

proof fn lemma_parsed_positions(raw: Seq<Seq<char>>, n: int, lines: Seq<LineView>)
    requires
        0 <= n <= raw.len() < 0xffff_ffff,
        forall|k: int| 0 <= k < raw.len() ==> is_short_text(#[trigger] raw[k]),
        grammar::source_lines(raw, n) == Ok::<Seq<LineView>, ErrorView>(lines),
    ensures
        lines.len() == n,
        forall|k: int| 0 <= k < n ==> is_placed(#[trigger] lines[k]) && lines[k].line == k + 1,
{
    laws::law_lines_are_numbered(raw, n, lines);
    assert forall|k: int| 0 <= k < n implies is_placed(#[trigger] lines[k]) && lines[k].line == k
        + 1 by {
        assert(is_short_text(raw[k]));
        lemma_line_position((k + 1) as u32, raw[k]);
    }
}

/// An error of the assembler stands in a line of the source, counted from 1,
/// and in a column from 1 on; the source has fewer bytes than 32 bits count.
pub proof fn law_error_position(source: Seq<char>, replies: Seq<ReplyView>, e: ErrorView)
    requires
        text::byte_len(source) < 0xffff_ffff,
        crate::assembly_of(source, replies) == Err::<encode::OutputView, ErrorView>(e),
    ensures
        1 <= e.line <= text::lines_of(source).len(),
        e.col >= 1,
{
    let raw = text::lines_of(source);
    let count = raw.len() as int;
    lemma_lines(source);
    match grammar::source_of(source) {
        Err(_) => {
            let k = laws::law_parse_error_line(raw, count, e);
            assert(is_short_text(raw[k]));
            lemma_line_position((k + 1) as u32, raw[k]);
        },
        Ok(lines) => {
            lemma_parsed_positions(raw, count, lines);
            lemma_passes_position(lines, replies, e);
            let k = choose|k: int| 0 <= k < lines.len() && (#[trigger] lines[k]).line == e.line;
            assert(lines[k].line == k + 1);
        },
    }
}

proof fn lemma_passes_position(lines: Seq<LineView>, replies: Seq<ReplyView>, e: ErrorView)
    requires
        forall|i: int| 0 <= i < lines.len() ==> is_placed(#[trigger] lines[i]),
        match symtab::pass1_of(lines) {
            Err(x) => x == e,
            Ok(symbols) => encode::pass2_of(lines, symbols, replies) == Err::<
                encode::OutputView,
                ErrorView,
            >(e),
        },
    ensures
        stands_in(e, lines),
{
    match symtab::pass1_of(lines) {
        Err(_) => {
            lemma_pass1_position(lines, e);
        },
        Ok(symbols) => {
            lemma_pass2_position(lines, symbols, replies, e);
        },
    }
}

} // verus!
