//! IBM 1130 two-pass assembler.
//!
//! Source format, one record a line:
//!
//! ```text
//! ; full-line comment
//! LABEL:   MNEMONIC [I] [L] [TAG,] EXPR [, MASK]   ; trailing comment
//! LABEL:   DC       EXPR
//! LABEL:   BSS      EXPR
//! LABEL:   EQU      EXPR
//!          ORG      EXPR
//!          ABS
//!          END      [EXPR]
//! ```
//!
//! - `I` -- indirect addressing flag (forces the long form).
//! - `L` -- explicit long-form flag.
//! - `TAG` -- index register, 0 to 3 (0 for none).
//! - `EXPR` -- a number (`123`, `-7`, `0xFF`, `/FF`, `0b11`), a symbol, the
//!   location counter `*`, or one of these with offsets (`SYM+1`, `*-2`).
//! - `MASK` -- condition mask of a long `BSC` or `BSI`; in a short `BSC` the
//!   operand is the mask itself.
//!
//! Labels are optional, and may stand alone in a line. One that begins in the
//! first column needs no colon, unless it is the name of a directive or an
//! operation. A line that begins with `//` or `*` is a card for the monitor
//! or the listing, and says nothing.
//!
//! Format selection: an instruction without `I` and `L` is short if its
//! operand is within -128 and 127, and long otherwise. ([`symtab`] says how
//! that is settled where symbols depend on it.) A bare number that is out of
//! range is an error; it asks for the long form with `L`. `WAIT` and
//! the shifts are short only; `XIO` and the branches with their condition in
//! the name are long only.
//!
//! The crate turns text into instructions and back. The bits of an
//! instruction come from an instruction encoder and decoder, which callers
//! hand to [`assemble`] and [`disassemble`] as functions.
//!
//! [`grammar`] says what a line of source means, [`symtab`] and [`encode`]
//! what the two passes do with it. The laws are what holds of all programs:
//! [`numbers`] and [`operands`] prove what operands are worth, [`reading`] and
//! [`sources`] how lines are read, [`building`] which instruction is built of
//! a line, and [`emission`] what each line adds to the program; [`laws`],
//! [`layout`], [`placement`], [`letters`], [`positions`], [`roundtrip`] and
//! [`codec`] prove what relates the parts to each other.

pub mod building;
pub mod codec;
pub mod disasm;
pub mod emission;
pub mod encode;
pub mod grammar;
pub mod isa;
pub mod laws;
pub mod layout;
pub mod letters;
pub mod numbers;
pub mod operands;
pub mod parser;
pub mod placement;
pub mod positions;
pub mod reading;
pub mod roundtrip;
pub mod sources;
pub mod symtab;
pub mod text;

pub use disasm::disassemble;
pub use parser::{parse_source, Directive, Operand, ParsedLine};
pub use symtab::SymbolTable;

use vstd::prelude::*;

verus! {

/// An assembly error with source position.
#[derive(Debug, Clone, PartialEq, Eq)]
pub struct AsmError {
    /// 1-based line number.
    pub line: u32,
    /// 1-based column.
    pub col: u32,
    pub message: String,
}

/// [`AsmError`] with its message as a character sequence.
pub struct ErrorView {
    pub line: u32,
    pub col: u32,
    pub message: Seq<char>,
}

impl View for AsmError {
    type V = ErrorView;

    open spec fn view(&self) -> ErrorView {
        ErrorView { line: self.line, col: self.col, message: self.message@ }
    }
}

/// An error in one line of text.
pub open spec fn error_text(e: ErrorView) -> Seq<char> {
    text::decimal(e.line as int) + seq![':'] + text::decimal(e.col as int) + seq![':', ' ']
        + e.message
}

impl AsmError {
    pub fn new(line: u32, col: u32, message: String) -> (e: AsmError)
        ensures
            e.line == line,
            e.col == col,
            e.message == message,
    {
        AsmError { line, col, message }
    }

    /// The error in one line of text, `line:col: message`.
    pub fn to_text(&self) -> (s: String)
        ensures
            s@ == error_text(self@),
            s@ == text::decimal(self.line as int) + seq![':'] + text::decimal(self.col as int) + seq![
                ':',
                ' ',
            ] + self.message@,
    {
        let mut s = String::new();
        text::push_decimal(&mut s, self.line as i64);
        s.push(':');
        text::push_decimal(&mut s, self.col as i64);
        s.push(':');
        s.push(' ');
        s.append(self.message.as_str());
        assert(s@ =~= text::decimal(self.line as int) + seq![':'] + text::decimal(self.col as int)
            + seq![':', ' '] + self.message@);
        s
    }
}

/// Output of a successful assembly.
pub struct AsmOutput {
    /// The encoded byte stream.
    pub bytes: Vec<u8>,
    /// The final symbol table.
    pub symbols: symtab::SymbolTable,
    /// What was emitted, in order: the instructions, and a `Wait` in long
    /// form with the word as its address for each data word.
    pub instructions: Vec<isa::Instruction>,
}

impl View for AsmOutput {
    type V = encode::OutputView;

    open spec fn view(&self) -> encode::OutputView {
        encode::OutputView {
            bytes: self.bytes@,
            symbols: self.symbols@,
            instructions: self.instructions@,
        }
    }
}

/// What assembling a source text puts out, or the first error: of the
/// parser, then of pass 1, then of pass 2. `replies[k]` is the encoder's
/// answer for line `k`, where that line asks it.
pub open spec fn assembly_of(source: Seq<char>, replies: Seq<encode::ReplyView>) -> Result<
    encode::OutputView,
    ErrorView,
> {
    match grammar::source_of(source) {
        Err(e) => Err(e),
        Ok(lines) => match symtab::pass1_of(lines) {
            Err(e) => Err(e),
            Ok(symbols) => encode::pass2_of(lines, symbols, replies),
        },
    }
}

/// Whether `replies` holds what `encoder` answers to the lines of a source
/// that ask it.
pub open spec fn source_answers<F: Fn(isa::Instruction) -> encode::Reply>(
    encoder: F,
    source: Seq<char>,
    replies: Seq<encode::Reply>,
) -> bool {
    match grammar::source_of(source) {
        Err(_) => true,
        Ok(lines) => match symtab::pass1_of(lines) {
            Err(_) => true,
            Ok(symbols) => encode::answers(encoder, lines, symbols, replies),
        },
    }
}

/// Assembles source text, with `encoder` for the bytes of an instruction.
pub fn assemble<F: Fn(isa::Instruction) -> encode::Reply>(source: &str, encoder: F) -> (r: Result<
    AsmOutput,
    AsmError,
>)
    requires
        forall|insn: isa::Instruction| call_requires(encoder, (insn,)),
    ensures
        exists|replies: Seq<encode::Reply>| #[trigger]
            source_answers(encoder, source@, replies) && match assembly_of(
                source@,
                encode::reply_views(replies),
            ) {
                Ok(out) => r matches Ok(o) && o@ == out,
                Err(e) => r matches Err(x) && x@ == e,
            },
{
    let lines = match parser::parse_source(source) {
        Ok(lines) => lines,
        Err(e) => {
            assert(source_answers(encoder, source@, seq![]));
            return Err(e);
        },
    };
    let symbols = match symtab::build_pass1(lines.as_slice()) {
        Ok(symbols) => symbols,
        Err(e) => {
            assert(source_answers(encoder, source@, seq![]));
            return Err(e);
        },
    };
    let ghost bound = symbols@;
    let r = encode::emit_pass2(lines.as_slice(), symbols, encoder);
    proof {
        let all = parser::views(lines@);
        let replies = choose|replies: Seq<encode::Reply>| #[trigger]
            encode::answers(encoder, all, bound, replies) && match encode::pass2_of(
                all,
                bound,
                encode::reply_views(replies),
            ) {
                Ok(out) => r matches Ok(o) && o@ == out,
                Err(e) => r matches Err(x) && x@ == e,
            };
        assert(source_answers(encoder, source@, replies));
    }
    r
}

} // verus!
