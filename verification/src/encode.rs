//! Pass 2: parsed lines and symbols become words.

use crate::isa;
use crate::isa::Opcode;
use crate::parser::{
    BodyView, Directive, DirectiveView, Instruction, InstructionView, LineBody, LineView, Operand,
    OperandView, ParsedLine,
};
use crate::symtab;
use crate::symtab::{SymbolTable, Symbols};
use crate::text;
use crate::text::same_text;
use crate::{AsmError, AsmOutput, ErrorView};
use vstd::prelude::*;

verus! {

/// The mnemonics that have only the long form: `XIO`, and the branches whose
/// condition is part of the name.
pub open spec fn long_only(mnemonic: Seq<char>) -> bool {
    mnemonic == "xio"@ || alias_condition(mnemonic) is Some
}

/// The mnemonics that have only the short form.
pub open spec fn short_only(mnemonic: Seq<char>) -> bool {
    ||| mnemonic == "wait"@
    ||| mnemonic == "sla"@
    ||| mnemonic == "sra"@
    ||| mnemonic == "slt"@
    ||| mnemonic == "srt"@
}

/// The condition mask that is part of a mnemonic.
pub open spec fn alias_condition(mnemonic: Seq<char>) -> Option<u8> {
    if mnemonic == "b"@ || mnemonic == "bl"@ {
        Some(0)
    } else if mnemonic == "bz"@ {
        Some(0x20)
    } else if mnemonic == "bnz"@ {
        Some(0x18)
    } else if mnemonic == "bp"@ {
        Some(0x08)
    } else if mnemonic == "bn"@ {
        Some(0x10)
    } else if mnemonic == "bnp"@ {
        Some(0x30)
    } else if mnemonic == "bod"@ {
        Some(0x04)
    } else {
        None
    }
}

/// Whether the operand is anything but absent or a bare number.
pub open spec fn symbolic(operand: Option<OperandView>) -> bool {
    match operand {
        None => false,
        Some(OperandView::Number(_)) => false,
        Some(_) => true,
    }
}

/// Whether a displacement holds the value.
pub open spec fn fits_short(v: i64) -> bool {
    -128 <= v <= 127
}

/// Whether neither a flag nor the mnemonic nor a bare number settles the form
/// of an instruction, so that it depends on the value of the operand.
pub open spec fn is_open(insn: InstructionView) -> bool {
    &&& !insn.long_flag
    &&& !insn.indirect_flag
    &&& !long_only(insn.mnemonic)
    &&& !short_only(insn.mnemonic)
    &&& symbolic(insn.operand)
}

/// Whether an operand has a value, and one that no displacement holds.
pub open spec fn out_of_reach(operand: Option<OperandView>, symbols: Symbols, lc: i64) -> bool {
    match operand {
        None => false,
        Some(op) => match symtab::value_at(op, symbols, lc) {
            Ok(v) => !fits_short(v),
            Err(_) => false,
        },
    }
}

/// Whether an instruction takes the long form, given whether an open form is
/// stretched: where a flag or the mnemonic asks for it, or a symbolic operand
/// does and is stretched; and the mnemonic has a long form.
pub open spec fn takes_long(insn: InstructionView, stretched: bool) -> bool {
    &&& !short_only(insn.mnemonic)
    &&& insn.long_flag || insn.indirect_flag || long_only(insn.mnemonic) || (symbolic(insn.operand)
        && stretched)
}

/// Whether pass 2 stretches the open form of a line: the table says so, or
/// the operand is out of reach of a displacement.
pub open spec fn is_stretched(insn: InstructionView, symbols: Symbols, lc: i64, line: u32) -> bool {
    symbols.stretched.contains(line) || out_of_reach(insn.operand, symbols, lc)
}

/// Whether the mnemonic has only the long form.
pub fn is_long_only(mnem: &str) -> (r: bool)
    ensures
        r == long_only(mnem@),
{
    same_text(mnem, "xio") || alias_mask(mnem).is_some()
}

/// Whether the mnemonic has only the short form.
pub fn is_short_only(mnem: &str) -> (r: bool)
    ensures
        r == short_only(mnem@),
{
    same_text(mnem, "wait") || same_text(mnem, "sla") || same_text(mnem, "sra") || same_text(
        mnem,
        "slt",
    ) || same_text(mnem, "srt")
}

/// The condition mask of a branch mnemonic that has one built in. The mask's
/// bits are 0x04 even, 0x08 positive, 0x10 negative, 0x20 zero, 0x40 carry.
fn alias_mask(mnem: &str) -> (r: Option<u8>)
    ensures
        r == alias_condition(mnem@),
{
    if same_text(mnem, "b") || same_text(mnem, "bl") {
        Some(0)
    } else if same_text(mnem, "bz") {
        Some(0x20)
    } else if same_text(mnem, "bnz") {
        Some(0x18)
    } else if same_text(mnem, "bp") {
        Some(0x08)
    } else if same_text(mnem, "bn") {
        Some(0x10)
    } else if same_text(mnem, "bnp") {
        Some(0x30)
    } else if same_text(mnem, "bod") {
        Some(0x04)
    } else {
        None
    }
}

/// Whether the operand is anything but absent or a bare number.
fn is_symbolic(operand: &Option<Operand>) -> (r: bool)
    ensures
        r == symbolic(crate::parser::operand_view(*operand)),
{
    match operand {
        None => false,
        Some(Operand::Number(_)) => false,
        Some(_) => true,
    }
}

/// Whether an operand has a value, and one that no displacement holds.
pub(crate) fn beyond_reach(operand: &Option<Operand>, symbols: &SymbolTable, lc: i64) -> (r: bool)
    ensures
        r == out_of_reach(crate::parser::operand_view(*operand), symbols@, lc),
{
    match operand {
        None => false,
        Some(op) => match symtab::evaluate(op, symbols, lc) {
            Ok(v) => v < -128 || v > 127,
            Err(_) => false,
        },
    }
}

/// Whether neither a flag nor the mnemonic nor a bare number settles the form
/// of an instruction.
pub(crate) fn open_form(insn: &Instruction) -> (r: bool)
    ensures
        r == is_open(insn@),
{
    !insn.long_flag && !insn.indirect_flag && !is_long_only(insn.mnemonic.as_str())
        && !is_short_only(insn.mnemonic.as_str()) && is_symbolic(&insn.operand)
}

/// Whether an instruction takes the long form, given whether an open form is
/// stretched.
pub(crate) fn long_form(insn: &Instruction, stretched: bool) -> (r: bool)
    ensures
        r == takes_long(insn@, stretched),
{
    !is_short_only(insn.mnemonic.as_str()) && (insn.long_flag || insn.indirect_flag
        || is_long_only(insn.mnemonic.as_str()) || (is_symbolic(&insn.operand) && stretched))
}

/// Whether pass 2 stretches the open form of a line.
fn stretches(insn: &Instruction, symbols: &SymbolTable, lc: i64, line: u32) -> (r: bool)
    ensures
        r == is_stretched(insn@, symbols@, lc, line),
{
    symbols.is_stretched(line) || beyond_reach(&insn.operand, symbols, lc)
}

/// The operation that a lower-case mnemonic names. `SLT` and `SRT` are kinds
/// of `SLA` and `SRA`; the conditional branches are kinds of `BSC`.
pub open spec fn opcode_of(mnemonic: Seq<char>) -> Option<Opcode> {
    if mnemonic == "ld"@ {
        Some(Opcode::Load)
    } else if mnemonic == "ldd"@ {
        Some(Opcode::LoadDouble)
    } else if mnemonic == "sto"@ {
        Some(Opcode::Store)
    } else if mnemonic == "std"@ {
        Some(Opcode::StoreDouble)
    } else if mnemonic == "ldx"@ {
        Some(Opcode::LoadIndex)
    } else if mnemonic == "stx"@ {
        Some(Opcode::StoreIndex)
    } else if mnemonic == "lds"@ {
        Some(Opcode::LoadStatus)
    } else if mnemonic == "sts"@ {
        Some(Opcode::StoreStatus)
    } else if mnemonic == "a"@ {
        Some(Opcode::Add)
    } else if mnemonic == "ad"@ {
        Some(Opcode::AddDouble)
    } else if mnemonic == "s"@ {
        Some(Opcode::Subtract)
    } else if mnemonic == "sd"@ {
        Some(Opcode::SubtractDouble)
    } else if mnemonic == "m"@ {
        Some(Opcode::Multiply)
    } else if mnemonic == "d"@ {
        Some(Opcode::Divide)
    } else if mnemonic == "and"@ {
        Some(Opcode::And)
    } else if mnemonic == "or"@ {
        Some(Opcode::Or)
    } else if mnemonic == "eor"@ {
        Some(Opcode::ExclusiveOr)
    } else if mnemonic == "sla"@ || mnemonic == "slt"@ {
        Some(Opcode::ShiftLeft)
    } else if mnemonic == "sra"@ || mnemonic == "srt"@ {
        Some(Opcode::ShiftRight)
    } else if mnemonic == "bsc"@ {
        Some(Opcode::BranchSkipCondition)
    } else if mnemonic == "bsi"@ {
        Some(Opcode::BranchStore)
    } else if mnemonic == "mdx"@ {
        Some(Opcode::ModifyIndex)
    } else if mnemonic == "wait"@ {
        Some(Opcode::Wait)
    } else if mnemonic == "xio"@ {
        Some(Opcode::ExecuteInputOutput)
    } else if alias_condition(mnemonic) is Some {
        Some(Opcode::BranchSkipCondition)
    } else {
        None
    }
}

/// How the mnemonics are spelled.
pub proof fn lemma_spellings()
    ensures
        "ld"@.len() == 2 && "ld"@[0] == 'l' && "ld"@[1] == 'd',
        "ldd"@.len() == 3 && "ldd"@[0] == 'l' && "ldd"@[1] == 'd' && "ldd"@[2] == 'd',
        "sto"@.len() == 3 && "sto"@[0] == 's' && "sto"@[1] == 't' && "sto"@[2] == 'o',
        "std"@.len() == 3 && "std"@[0] == 's' && "std"@[1] == 't' && "std"@[2] == 'd',
        "ldx"@.len() == 3 && "ldx"@[0] == 'l' && "ldx"@[1] == 'd' && "ldx"@[2] == 'x',
        "stx"@.len() == 3 && "stx"@[0] == 's' && "stx"@[1] == 't' && "stx"@[2] == 'x',
        "lds"@.len() == 3 && "lds"@[0] == 'l' && "lds"@[1] == 'd' && "lds"@[2] == 's',
        "sts"@.len() == 3 && "sts"@[0] == 's' && "sts"@[1] == 't' && "sts"@[2] == 's',
        "a"@.len() == 1 && "a"@[0] == 'a',
        "ad"@.len() == 2 && "ad"@[0] == 'a' && "ad"@[1] == 'd',
        "s"@.len() == 1 && "s"@[0] == 's',
        "sd"@.len() == 2 && "sd"@[0] == 's' && "sd"@[1] == 'd',
        "m"@.len() == 1 && "m"@[0] == 'm',
        "d"@.len() == 1 && "d"@[0] == 'd',
        "and"@.len() == 3 && "and"@[0] == 'a' && "and"@[1] == 'n' && "and"@[2] == 'd',
        "or"@.len() == 2 && "or"@[0] == 'o' && "or"@[1] == 'r',
        "eor"@.len() == 3 && "eor"@[0] == 'e' && "eor"@[1] == 'o' && "eor"@[2] == 'r',
        "sla"@.len() == 3 && "sla"@[0] == 's' && "sla"@[1] == 'l' && "sla"@[2] == 'a',
        "slt"@.len() == 3 && "slt"@[0] == 's' && "slt"@[1] == 'l' && "slt"@[2] == 't',
        "sra"@.len() == 3 && "sra"@[0] == 's' && "sra"@[1] == 'r' && "sra"@[2] == 'a',
        "srt"@.len() == 3 && "srt"@[0] == 's' && "srt"@[1] == 'r' && "srt"@[2] == 't',
        "bsc"@.len() == 3 && "bsc"@[0] == 'b' && "bsc"@[1] == 's' && "bsc"@[2] == 'c',
        "bsi"@.len() == 3 && "bsi"@[0] == 'b' && "bsi"@[1] == 's' && "bsi"@[2] == 'i',
        "mdx"@.len() == 3 && "mdx"@[0] == 'm' && "mdx"@[1] == 'd' && "mdx"@[2] == 'x',
        "wait"@.len() == 4 && "wait"@[0] == 'w' && "wait"@[1] == 'a' && "wait"@[2] == 'i' && "wait"@[3] == 't',
        "xio"@.len() == 3 && "xio"@[0] == 'x' && "xio"@[1] == 'i' && "xio"@[2] == 'o',
        "b"@.len() == 1 && "b"@[0] == 'b',
        "bl"@.len() == 2 && "bl"@[0] == 'b' && "bl"@[1] == 'l',
        "bz"@.len() == 2 && "bz"@[0] == 'b' && "bz"@[1] == 'z',
        "bnz"@.len() == 3 && "bnz"@[0] == 'b' && "bnz"@[1] == 'n' && "bnz"@[2] == 'z',
        "bp"@.len() == 2 && "bp"@[0] == 'b' && "bp"@[1] == 'p',
        "bn"@.len() == 2 && "bn"@[0] == 'b' && "bn"@[1] == 'n',
        "bnp"@.len() == 3 && "bnp"@[0] == 'b' && "bnp"@[1] == 'n' && "bnp"@[2] == 'p',
        "bod"@.len() == 3 && "bod"@[0] == 'b' && "bod"@[1] == 'o' && "bod"@[2] == 'd',
{
    reveal_strlit("ld");
    reveal_strlit("ldd");
    reveal_strlit("sto");
    reveal_strlit("std");
    reveal_strlit("ldx");
    reveal_strlit("stx");
    reveal_strlit("lds");
    reveal_strlit("sts");
    reveal_strlit("a");
    reveal_strlit("ad");
    reveal_strlit("s");
    reveal_strlit("sd");
    reveal_strlit("m");
    reveal_strlit("d");
    reveal_strlit("and");
    reveal_strlit("or");
    reveal_strlit("eor");
    reveal_strlit("sla");
    reveal_strlit("slt");
    reveal_strlit("sra");
    reveal_strlit("srt");
    reveal_strlit("bsc");
    reveal_strlit("bsi");
    reveal_strlit("mdx");
    reveal_strlit("wait");
    reveal_strlit("xio");
    reveal_strlit("b");
    reveal_strlit("bl");
    reveal_strlit("bz");
    reveal_strlit("bnz");
    reveal_strlit("bp");
    reveal_strlit("bn");
    reveal_strlit("bnp");
    reveal_strlit("bod");
}

/// The operation that a lower-case mnemonic names, if it names one.
pub(crate) fn operation(mnem: &str) -> (r: Option<Opcode>)
    ensures
        r == opcode_of(mnem@),
{
    if same_text(mnem, "ld") {
        Some(Opcode::Load)
    } else if same_text(mnem, "ldd") {
        Some(Opcode::LoadDouble)
    } else if same_text(mnem, "sto") {
        Some(Opcode::Store)
    } else if same_text(mnem, "std") {
        Some(Opcode::StoreDouble)
    } else if same_text(mnem, "ldx") {
        Some(Opcode::LoadIndex)
    } else if same_text(mnem, "stx") {
        Some(Opcode::StoreIndex)
    } else if same_text(mnem, "lds") {
        Some(Opcode::LoadStatus)
    } else if same_text(mnem, "sts") {
        Some(Opcode::StoreStatus)
    } else if same_text(mnem, "a") {
        Some(Opcode::Add)
    } else if same_text(mnem, "ad") {
        Some(Opcode::AddDouble)
    } else if same_text(mnem, "s") {
        Some(Opcode::Subtract)
    } else if same_text(mnem, "sd") {
        Some(Opcode::SubtractDouble)
    } else if same_text(mnem, "m") {
        Some(Opcode::Multiply)
    } else if same_text(mnem, "d") {
        Some(Opcode::Divide)
    } else if same_text(mnem, "and") {
        Some(Opcode::And)
    } else if same_text(mnem, "or") {
        Some(Opcode::Or)
    } else if same_text(mnem, "eor") {
        Some(Opcode::ExclusiveOr)
    } else if same_text(mnem, "sla") || same_text(mnem, "slt") {
        Some(Opcode::ShiftLeft)
    } else if same_text(mnem, "sra") || same_text(mnem, "srt") {
        Some(Opcode::ShiftRight)
    } else if same_text(mnem, "bsc") {
        Some(Opcode::BranchSkipCondition)
    } else if same_text(mnem, "bsi") {
        Some(Opcode::BranchStore)
    } else if same_text(mnem, "mdx") {
        Some(Opcode::ModifyIndex)
    } else if same_text(mnem, "wait") {
        Some(Opcode::Wait)
    } else if same_text(mnem, "xio") {
        Some(Opcode::ExecuteInputOutput)
    } else if alias_mask(mnem).is_some() {
        Some(Opcode::BranchSkipCondition)
    } else {
        None
    }
}

/// Maps a lower-case mnemonic to its operation.
fn mnemonic_to_opcode(mnem: &str, line: u32, col: u32) -> (r: Result<Opcode, AsmError>)
    ensures
        match opcode_of(mnem@) {
            Some(op) => r == Ok::<Opcode, AsmError>(op),
            None => r matches Err(x) && x@ == unknown_mnemonic(mnem@, line, col),
        },
{
    match operation(mnem) {
        Some(op) => Ok(op),
        None => {
            let mut message = "unknown mnemonic `".to_owned();
            message.append(mnem);
            message.append("`");
            Err(AsmError::new(line, col, message))
        },
    }
}

pub open spec fn unknown_mnemonic(mnemonic: Seq<char>, line: u32, col: u32) -> ErrorView {
    ErrorView { line, col, message: "unknown mnemonic `"@ + mnemonic + "`"@ }
}

/// The mnemonics of the shifts that move accumulator and extension together,
/// as a 32-bit pair. They set the high bit of the displacement.
pub open spec fn shifts_together(mnemonic: Seq<char>) -> bool {
    mnemonic == "slt"@ || mnemonic == "srt"@
}

/// The bits that a shift mnemonic sets in the displacement.
fn shift_sub_op_bits(mnem: &str) -> (r: Option<u8>)
    ensures
        r == if shifts_together(mnem@) {
            Some(0x80u8)
        } else {
            None
        },
{
    if same_text(mnem, "slt") || same_text(mnem, "srt") {
        Some(0x80)
    } else {
        None
    }
}

/// The mnemonics whose long form takes a condition mask as an operand.
pub open spec fn takes_mask(mnemonic: Seq<char>) -> bool {
    mnemonic == "bsc"@ || mnemonic == "bsi"@
}

fn accepts_mask(mnem: &str) -> (r: bool)
    ensures
        r == takes_mask(mnem@),
{
    same_text(mnem, "bsc") || same_text(mnem, "bsi")
}

/// The value of an operand in pass 2, where all symbols are known.
pub open spec fn pass2_value(op: OperandView, symbols: Symbols, lc: i64, line: u32) -> Result<
    i64,
    ErrorView,
> {
    match symtab::value_at(op, symbols, lc) {
        Ok(v) => Ok(v),
        Err(name) => Err(
            ErrorView { line, col: 1, message: "undefined symbol `"@ + name + "`"@ },
        ),
    }
}

/// Resolves an operand in pass 2.
fn resolve(op: &Operand, symbols: &SymbolTable, lc: i64, line: u32) -> (r: Result<i64, AsmError>)
    ensures
        match pass2_value(op@, symbols@, lc, line) {
            Ok(v) => r == Ok::<i64, AsmError>(v),
            Err(e) => r matches Err(x) && x@ == e,
        },
{
    match symtab::evaluate(op, symbols, lc) {
        Ok(v) => Ok(v),
        Err(name) => {
            let mut message = "undefined symbol `".to_owned();
            message.append(name.as_str());
            message.append("`");
            Err(AsmError::new(line, 1, message))
        },
    }
}

/// The value of a primary operand; an absent one counts as 0.
pub open spec fn operand_value(
    operand: Option<OperandView>,
    symbols: Symbols,
    lc: i64,
    line: u32,
) -> Result<i64, ErrorView> {
    match operand {
        Some(op) => pass2_value(op, symbols, lc, line),
        None => Ok(0),
    }
}

fn resolve_primary(operand: &Option<Operand>, symbols: &SymbolTable, lc: i64, line: u32) -> (r: Result<
    i64,
    AsmError,
>)
    ensures
        match operand_value(crate::parser::operand_view(*operand), symbols@, lc, line) {
            Ok(v) => r == Ok::<i64, AsmError>(v),
            Err(e) => r matches Err(x) && x@ == e,
        },
{
    match operand {
        Some(op) => resolve(op, symbols, lc, line),
        None => Ok(0),
    }
}

/// The short form of an instruction: the operand is a displacement, or the
/// count of a shift.
pub open spec fn short_of(
    insn: InstructionView,
    op: Opcode,
    symbols: Symbols,
    lc: i64,
    line: u32,
) -> Result<isa::Instruction, ErrorView> {
    let col = insn.mnemonic_col;
    match operand_value(insn.operand, symbols, lc, line) {
        Err(e) => Err(e),
        Ok(v) => if shifts_together(insn.mnemonic) {
            if 0 <= v <= 0x7f {
                Ok(isa::Instruction::Short { op, tag: insn.tag, disp: (v - 128) as i8 })
            } else {
                Err(
                    ErrorView {
                        line,
                        col,
                        message: "`"@ + insn.mnemonic + "` count "@ + text::decimal(v as int)
                            + " out of range (0..=0x7F)"@,
                    },
                )
            }
        } else if -128 <= v <= 127 {
            Ok(isa::Instruction::Short { op, tag: insn.tag, disp: v as i8 })
        } else {
            Err(
                ErrorView {
                    line,
                    col,
                    message: "displacement "@ + text::decimal(v as int)
                        + " out of range for short form (-128..=127); use `L` to force long form"@,
                },
            )
        },
    }
}

/// The low 16 bits of an integer.
pub open spec fn low_word(v: i64) -> u16 {
    (v as int % 0x1_0000) as u16
}

fn word_of(v: i64) -> (w: u16)
    ensures
        w == low_word(v),
{
    let m: i128 = v as i128 + 0x1_0000_0000_0000_0000;
    (m % 0x1_0000) as u16
}

/// The condition mask of a long instruction: the mnemonic's own, or the
/// second operand, or 0.
pub open spec fn mask_of(insn: InstructionView, symbols: Symbols, lc: i64, line: u32) -> Result<
    u8,
    ErrorView,
> {
    let col = insn.mnemonic_col;
    match alias_condition(insn.mnemonic) {
        Some(mask) => if insn.mask is Some {
            Err(
                ErrorView {
                    line,
                    col,
                    message: "`"@ + insn.mnemonic
                        + "` is a mnemonic alias with a built-in mask; remove the mask operand"@,
                },
            )
        } else {
            Ok(mask)
        },
        None => match insn.mask {
            None => Ok(0),
            Some(op) => match pass2_value(op, symbols, lc, line) {
                Err(e) => Err(e),
                Ok(v) => if !takes_mask(insn.mnemonic) {
                    Err(
                        ErrorView {
                            line,
                            col,
                            message: "`"@ + insn.mnemonic
                                + "` long form does not accept a condition mask (mask is BSC/BSI only)"@,
                        },
                    )
                } else if 0 <= v <= 0x7f {
                    Ok(v as u8)
                } else {
                    Err(
                        ErrorView {
                            line,
                            col,
                            message: "condition mask "@ + text::hexadecimal(v)
                                + " out of range (0..=0x7F)"@,
                        },
                    )
                },
            },
        },
    }
}

/// The long form of an instruction: the operand is a 16-bit address.
pub open spec fn long_of(
    insn: InstructionView,
    op: Opcode,
    symbols: Symbols,
    lc: i64,
    line: u32,
) -> Result<isa::Instruction, ErrorView> {
    match operand_value(insn.operand, symbols, lc, line) {
        Err(e) => Err(e),
        Ok(v) => if -32768 <= v <= 65535 {
            match mask_of(insn, symbols, lc, line) {
                Ok(mask) => Ok(
                    isa::Instruction::Long {
                        op,
                        tag: insn.tag,
                        indirect: insn.indirect_flag,
                        mask,
                        address: low_word(v),
                    },
                ),
                Err(e) => Err(e),
            }
        } else {
            Err(
                ErrorView {
                    line,
                    col: insn.mnemonic_col,
                    message: "address "@ + text::decimal(v as int)
                        + " out of range for long form (16-bit)"@,
                },
            )
        },
    }
}

/// The error that begins with the mnemonic in backquotes.
fn mnemonic_error(line: u32, insn: &Instruction, after: &str) -> (e: AsmError)
    ensures
        e@.line == line,
        e@.col == insn.mnemonic_col,
        e@.message == "`"@ + insn.mnemonic@ + after@,
{
    let mut message = "`".to_owned();
    message.append(insn.mnemonic.as_str());
    message.append(after);
    AsmError::new(line, insn.mnemonic_col, message)
}

/// The error about a number that is out of range.
fn range_error(line: u32, col: u32, before: &str, v: i64, after: &str) -> (e: AsmError)
    ensures
        e@.line == line,
        e@.col == col,
        e@.message == before@ + text::decimal(v as int) + after@,
{
    let mut message = before.to_owned();
    text::push_decimal(&mut message, v);
    message.append(after);
    AsmError::new(line, col, message)
}

/// Builds the short form of an instruction.
fn build_short(insn: &Instruction, op: Opcode, symbols: &SymbolTable, lc: i64, line: u32) -> (r: Result<
    isa::Instruction,
    AsmError,
>)
    ensures
        match short_of(insn@, op, symbols@, lc, line) {
            Ok(i) => r == Ok::<isa::Instruction, AsmError>(i),
            Err(e) => r matches Err(x) && x@ == e,
        },
{
    let v = match resolve_primary(&insn.operand, symbols, lc, line) {
        Ok(v) => v,
        Err(e) => {
            return Err(e);
        },
    };
    let disp: i8 = match shift_sub_op_bits(insn.mnemonic.as_str()) {
        Some(bits) => {
            if v < 0 || v > 0x7f {
                let mut message = "`".to_owned();
                message.append(insn.mnemonic.as_str());
                message.append("` count ");
                text::push_decimal(&mut message, v);
                message.append(" out of range (0..=0x7F)");
                return Err(AsmError::new(line, insn.mnemonic_col, message));
            }
            let count: u8 = v as u8;
            assert(((count | 0x80) as i8) == count - 128) by (bit_vector)
                requires
                    count <= 0x7f,
            ;
            (count | bits) as i8
        },
        None => {
            if v < -128 || v > 127 {
                return Err(
                    range_error(
                        line,
                        insn.mnemonic_col,
                        "displacement ",
                        v,
                        " out of range for short form (-128..=127); use `L` to force long form",
                    ),
                );
            }
            v as i8
        },
    };
    Ok(isa::Instruction::Short { op, tag: insn.tag, disp })
}

/// The condition mask of a long instruction.
fn condition_mask(insn: &Instruction, symbols: &SymbolTable, lc: i64, line: u32) -> (r: Result<
    u8,
    AsmError,
>)
    ensures
        match mask_of(insn@, symbols@, lc, line) {
            Ok(m) => r == Ok::<u8, AsmError>(m),
            Err(e) => r matches Err(x) && x@ == e,
        },
{
    match alias_mask(insn.mnemonic.as_str()) {
        Some(fixed) => {
            // The mnemonic is a name for one mask; another one makes no sense.
            if insn.mask.is_some() {
                return Err(
                    mnemonic_error(
                        line,
                        insn,
                        "` is a mnemonic alias with a built-in mask; remove the mask operand",
                    ),
                );
            }
            Ok(fixed)
        },
        None => match &insn.mask {
            None => Ok(0),
            Some(op) => match resolve(op, symbols, lc, line) {
                Err(e) => Err(e),
                Ok(v) => {
                    if !accepts_mask(insn.mnemonic.as_str()) {
                        return Err(
                            mnemonic_error(
                                line,
                                insn,
                                "` long form does not accept a condition mask (mask is BSC/BSI only)",
                            ),
                        );
                    }
                    if v < 0 || v > 0x7f {
                        let mut message = "condition mask ".to_owned();
                        text::push_hexadecimal(&mut message, v);
                        message.append(" out of range (0..=0x7F)");
                        return Err(AsmError::new(line, insn.mnemonic_col, message));
                    }
                    Ok(v as u8)
                },
            },
        },
    }
}

/// Builds the long form of an instruction.
fn build_long(insn: &Instruction, op: Opcode, symbols: &SymbolTable, lc: i64, line: u32) -> (r: Result<
    isa::Instruction,
    AsmError,
>)
    ensures
        match long_of(insn@, op, symbols@, lc, line) {
            Ok(i) => r == Ok::<isa::Instruction, AsmError>(i),
            Err(e) => r matches Err(x) && x@ == e,
        },
{
    let address = match resolve_primary(&insn.operand, symbols, lc, line) {
        Ok(v) => v,
        Err(e) => {
            return Err(e);
        },
    };
    if address < -32768 || address > 65535 {
        return Err(
            range_error(
                line,
                insn.mnemonic_col,
                "address ",
                address,
                " out of range for long form (16-bit)",
            ),
        );
    }
    match condition_mask(insn, symbols, lc, line) {
        Ok(mask) => Ok(
            isa::Instruction::Long {
                op,
                tag: insn.tag,
                indirect: insn.indirect_flag,
                mask,
                address: word_of(address),
            },
        ),
        Err(e) => Err(e),
    }
}

/// The machine instruction that a parsed instruction stands for at a
/// location.
pub open spec fn machine_of(insn: InstructionView, symbols: Symbols, lc: i64, line: u32) -> Result<
    isa::Instruction,
    ErrorView,
> {
    match opcode_of(insn.mnemonic) {
        None => Err(unknown_mnemonic(insn.mnemonic, line, insn.mnemonic_col)),
        Some(op) => if short_only(insn.mnemonic) && (insn.long_flag || insn.indirect_flag) {
            Err(
                ErrorView {
                    line,
                    col: insn.mnemonic_col,
                    message: "`"@ + insn.mnemonic + "` has no long form"@,
                },
            )
        } else if takes_long(insn, is_stretched(insn, symbols, lc, line)) {
            long_of(insn, op, symbols, lc, line)
        } else {
            short_of(insn, op, symbols, lc, line)
        },
    }
}

/// Builds the machine instruction that a parsed instruction stands for.
pub fn build_instruction(insn: &Instruction, symbols: &SymbolTable, lc: i64, line: u32) -> (r: Result<
    isa::Instruction,
    AsmError,
>)
    ensures
        match machine_of(insn@, symbols@, lc, line) {
            Ok(i) => r == Ok::<isa::Instruction, AsmError>(i),
            Err(e) => r matches Err(x) && x@ == e,
        },
{
    let op = match mnemonic_to_opcode(insn.mnemonic.as_str(), line, insn.mnemonic_col) {
        Ok(op) => op,
        Err(e) => {
            return Err(e);
        },
    };
    if is_short_only(insn.mnemonic.as_str()) && (insn.long_flag || insn.indirect_flag) {
        return Err(mnemonic_error(line, insn, "` has no long form"));
    }
    if long_form(insn, stretches(insn, symbols, lc, line)) {
        build_long(insn, op, symbols, lc, line)
    } else {
        build_short(insn, op, symbols, lc, line)
    }
}

/// What a line asks of pass 2.
#[derive(Debug, Clone, Copy, PartialEq, Eq)]
pub enum Action {
    /// Nothing is emitted.
    Skip,
    /// So many zero words are emitted.
    Zeros(u64),
    /// One literal word is emitted.
    Word(u16),
    /// An instruction is encoded and emitted; `col` is its column.
    Encode { insn: isa::Instruction, col: u32 },
    /// The program ends.
    End,
}

/// What a line asks of pass 2 at a location, and the location behind it.
pub open spec fn plan(line: LineView, symbols: Symbols, lc: i64) -> Result<
    (Action, i64),
    ErrorView,
> {
    match line.body {
        BodyView::Empty => Ok((Action::Skip, lc)),
        BodyView::Directive(DirectiveView::Equ(_)) => Ok((Action::Skip, lc)),
        BodyView::Directive(DirectiveView::Abs) => Ok((Action::Skip, lc)),
        BodyView::Directive(DirectiveView::End(_)) => Ok((Action::End, lc)),
        BodyView::Directive(DirectiveView::Org(op)) => match pass2_value(
            op,
            symbols,
            lc,
            line.line,
        ) {
            Err(e) => Err(e),
            Ok(v) => if v < lc {
                Err(
                    ErrorView {
                        line: line.line,
                        col: 1,
                        message: "ORG cannot move location counter backward"@,
                    },
                )
            } else {
                Ok((Action::Zeros((v - lc) as u64), v))
            },
        },
        BodyView::Directive(DirectiveView::Dc(op)) => match pass2_value(
            op,
            symbols,
            lc,
            line.line,
        ) {
            Err(e) => Err(e),
            Ok(v) => Ok((Action::Word(low_word(v)), symtab::wrap64(lc + 1))),
        },
        BodyView::Directive(DirectiveView::Bss(op)) => match pass2_value(
            op,
            symbols,
            lc,
            line.line,
        ) {
            Err(e) => Err(e),
            Ok(n) => if n < 0 {
                Err(symtab::bss_error(line.line, n))
            } else {
                Ok((Action::Zeros(n as u64), symtab::wrap64(lc + n)))
            },
        },
        BodyView::Instruction(insn) => match machine_of(insn, symbols, lc, line.line) {
            Err(e) => Err(e),
            Ok(built) => Ok(
                (
                    Action::Encode { insn: built, col: insn.mnemonic_col },
                    symtab::wrap64(
                        lc + symtab::instruction_words(
                            insn,
                            is_stretched(insn, symbols, lc, line.line),
                        ),
                    ),
                ),
            ),
        },
    }
}

/// Works out what a line asks of pass 2.
pub fn plan_line(line: &ParsedLine, symbols: &SymbolTable, lc: i64) -> (r: Result<
    (Action, i64),
    AsmError,
>)
    ensures
        match plan(line@, symbols@, lc) {
            Ok(p) => r == Ok::<(Action, i64), AsmError>(p),
            Err(e) => r matches Err(x) && x@ == e,
        },
{
    match &line.body {
        LineBody::Empty => Ok((Action::Skip, lc)),
        LineBody::Directive(d) => match d {
            // Pass 1 made the binding.
            Directive::Equ(_) => Ok((Action::Skip, lc)),
            Directive::Abs => Ok((Action::Skip, lc)),
            Directive::End(_) => Ok((Action::End, lc)),
            Directive::Org(op) => match resolve(op, symbols, lc, line.line) {
                Err(e) => Err(e),
                Ok(v) => {
                    if v < lc {
                        return Err(
                            AsmError::new(
                                line.line,
                                1,
                                "ORG cannot move location counter backward".to_owned(),
                            ),
                        );
                    }
                    Ok((Action::Zeros((v as i128 - lc as i128) as u64), v))
                },
            },
            Directive::Dc(op) => match resolve(op, symbols, lc, line.line) {
                Err(e) => Err(e),
                Ok(v) => Ok((Action::Word(word_of(v)), symtab::sum(lc, 1))),
            },
            Directive::Bss(op) => match resolve(op, symbols, lc, line.line) {
                Err(e) => Err(e),
                Ok(n) => {
                    if n < 0 {
                        return Err(symtab::negative_bss(line.line, n));
                    }
                    Ok((Action::Zeros(n as u64), symtab::sum(lc, n)))
                },
            },
        },
        LineBody::Instruction(insn) => match build_instruction(insn, symbols, lc, line.line) {
            Err(e) => Err(e),
            Ok(built) => Ok(
                (
                    Action::Encode { insn: built, col: insn.mnemonic_col },
                    symtab::sum(
                        lc,
                        symtab::instruction_size_words(
                            insn,
                            stretches(insn, symbols, lc, line.line),
                        ),
                    ),
                ),
            ),
        },
    }
}

/// What an instruction encoder answers: the instruction's bytes, or a
/// description of why there are none.
pub type Reply = Result<Vec<u8>, String>;

/// [`Reply`] over sequences.
pub type ReplyView = Result<Seq<u8>, Seq<char>>;

pub open spec fn reply_view(reply: Reply) -> ReplyView {
    match reply {
        Ok(bytes) => Ok(bytes@),
        Err(text) => Err(text@),
    }
}

pub open spec fn reply_views(replies: Seq<Reply>) -> Seq<ReplyView> {
    replies.map_values(|reply: Reply| reply_view(reply))
}

/// The instruction that stands for a data word in the instruction list.
pub open spec fn data_entry(word: u16) -> isa::Instruction {
    isa::Instruction::Long {
        op: Opcode::Wait,
        tag: 0,
        indirect: false,
        mask: 0,
        address: word,
    }
}

/// A word as two bytes, the high one first.
pub open spec fn word_bytes(word: u16) -> Seq<u8> {
    seq![(word / 256) as u8, (word % 256) as u8]
}

/// Where pass 2 stands.
pub struct Pass2 {
    pub lc: i64,
    pub bytes: Seq<u8>,
    pub instructions: Seq<isa::Instruction>,
    /// `END` was met.
    pub ended: bool,
}

/// Pass 2 behind one more line, given what the encoder answers if the line
/// asks it.
pub open spec fn pass2_step(line: LineView, symbols: Symbols, p: Pass2, reply: ReplyView) -> Result<
    Pass2,
    ErrorView,
> {
    match plan(line, symbols, p.lc) {
        Err(e) => Err(e),
        Ok((Action::Skip, lc)) => Ok(Pass2 { lc, ..p }),
        Ok((Action::End, lc)) => Ok(Pass2 { lc, ended: true, ..p }),
        Ok((Action::Zeros(n), lc)) => Ok(
            Pass2 {
                lc,
                bytes: p.bytes + Seq::new((2 * n) as nat, |i: int| 0u8),
                instructions: p.instructions + Seq::new(n as nat, |i: int| data_entry(0)),
                ..p
            },
        ),
        Ok((Action::Word(w), lc)) => Ok(
            Pass2 {
                lc,
                bytes: p.bytes + word_bytes(w),
                instructions: p.instructions.push(data_entry(w)),
                ..p
            },
        ),
        Ok((Action::Encode { insn, col }, lc)) => match reply {
            Ok(bytes) => Ok(
                Pass2 {
                    lc,
                    bytes: p.bytes + bytes,
                    instructions: p.instructions.push(insn),
                    ..p
                },
            ),
            Err(text) => Err(
                ErrorView { line: line.line, col, message: "encode failed: "@ + text },
            ),
        },
    }
}

/// Pass 2 before the first line.
pub open spec fn pass2_start() -> Pass2 {
    Pass2 { lc: 0, bytes: seq![], instructions: seq![], ended: false }
}

/// Pass 2 behind the first `n` lines, of which those behind `END` count for
/// nothing; or the first error. `replies[k]` is the encoder's answer for line
/// `k`, where that line asks it.
pub open spec fn pass2_after(
    lines: Seq<LineView>,
    symbols: Symbols,
    replies: Seq<ReplyView>,
    n: int,
) -> Result<Pass2, ErrorView>
    decreases n,
{
    if n <= 0 {
        Ok(pass2_start())
    } else {
        match pass2_after(lines, symbols, replies, n - 1) {
            Err(e) => Err(e),
            Ok(p) => if p.ended {
                Ok(p)
            } else {
                pass2_step(lines[n - 1], symbols, p, replies[n - 1])
            },
        }
    }
}

/// The instruction that line `k` asks the encoder for, if it asks.
pub open spec fn request(
    lines: Seq<LineView>,
    symbols: Symbols,
    replies: Seq<ReplyView>,
    k: int,
) -> Option<isa::Instruction> {
    match pass2_after(lines, symbols, replies, k) {
        Err(_) => None,
        Ok(p) => if p.ended {
            None
        } else {
            match plan(lines[k], symbols, p.lc) {
                Ok((Action::Encode { insn, col }, lc)) => Some(insn),
                _ => None,
            }
        },
    }
}

/// Whether `replies` holds what `encoder` answers to the lines that ask it.
pub open spec fn answers<F: Fn(isa::Instruction) -> Reply>(
    encoder: F,
    lines: Seq<LineView>,
    symbols: Symbols,
    replies: Seq<Reply>,
) -> bool {
    forall|k: int|
        0 <= k < lines.len() ==> (#[trigger] request(lines, symbols, reply_views(replies), k)
            matches Some(insn) ==> k < replies.len() && call_ensures(encoder, (insn,), replies[k]))
}

/// The output of an assembly over sequences.
pub struct OutputView {
    pub bytes: Seq<u8>,
    pub symbols: Symbols,
    pub instructions: Seq<isa::Instruction>,
}

/// What pass 2 puts out, or its first error.
pub open spec fn pass2_of(lines: Seq<LineView>, symbols: Symbols, replies: Seq<ReplyView>) -> Result<
    OutputView,
    ErrorView,
> {
    match pass2_after(lines, symbols, replies, lines.len() as int) {
        Ok(p) => Ok(OutputView { bytes: p.bytes, symbols, instructions: p.instructions }),
        Err(e) => Err(e),
    }
}

/// An error and an end stay what they are for every longer run of lines.
pub proof fn lemma_pass2_stays(
    lines: Seq<LineView>,
    symbols: Symbols,
    replies: Seq<ReplyView>,
    n: int,
    m: int,
)
    requires
        0 <= n <= m,
        pass2_after(lines, symbols, replies, n) matches Ok(p) ==> p.ended,
    ensures
        pass2_after(lines, symbols, replies, m) == pass2_after(lines, symbols, replies, n),
    decreases m - n,
{
    if n < m {
        lemma_pass2_stays(lines, symbols, replies, n, m - 1);
    }
}

/// Only the answers to the first `n` lines matter for them.
pub proof fn lemma_pass2_prefix(
    lines: Seq<LineView>,
    symbols: Symbols,
    replies: Seq<ReplyView>,
    more: Seq<ReplyView>,
    n: int,
)
    requires
        n <= replies.len(),
        n <= more.len(),
        forall|k: int| 0 <= k < n ==> replies[k] == more[k],
    ensures
        pass2_after(lines, symbols, replies, n) == pass2_after(lines, symbols, more, n),
    decreases n,
{
    if n > 0 {
        lemma_pass2_prefix(lines, symbols, replies, more, n - 1);
    }
}

/// Appends zero words.
fn push_zeros(bytes: &mut Vec<u8>, instructions: &mut Vec<isa::Instruction>, n: u64)
    ensures
        final(bytes)@ == old(bytes)@ + Seq::new((2 * n) as nat, |i: int| 0u8),
        final(instructions)@ == old(instructions)@ + Seq::new(n as nat, |i: int| data_entry(0)),
{
    let mut i: u64 = 0;
    assert(bytes@ =~= old(bytes)@ + Seq::new(0, |i: int| 0u8));
    assert(instructions@ =~= old(instructions)@ + Seq::new(0, |i: int| data_entry(0)));
    while i < n
        invariant
            i <= n,
            bytes@ == old(bytes)@ + Seq::new((2 * i) as nat, |i: int| 0u8),
            instructions@ == old(instructions)@ + Seq::new(i as nat, |i: int| data_entry(0)),
        decreases n - i,
    {
        push_word(bytes, instructions, 0);
        i += 1;
        assert(bytes@ =~= old(bytes)@ + Seq::new((2 * i) as nat, |i: int| 0u8));
        assert(instructions@ =~= old(instructions)@ + Seq::new(i as nat, |i: int| data_entry(0)));
    }
}

/// Appends one data word.
fn push_word(bytes: &mut Vec<u8>, instructions: &mut Vec<isa::Instruction>, word: u16)
    ensures
        final(bytes)@ == old(bytes)@ + word_bytes(word),
        final(instructions)@ == old(instructions)@.push(data_entry(word)),
{
    bytes.push((word / 256) as u8);
    bytes.push((word % 256) as u8);
    instructions.push(
        isa::Instruction::Long {
            op: Opcode::Wait,
            tag: 0,
            indirect: false,
            mask: 0,
            address: word,
        },
    );
    assert(bytes@ =~= old(bytes)@ + word_bytes(word));
}

/// Pass 2: emits the lines, with `encoder` for the bytes of an instruction.
///
/// The table of pass 1 becomes part of the output.
pub fn emit_pass2<F: Fn(isa::Instruction) -> Reply>(
    lines: &[ParsedLine],
    symbols: SymbolTable,
    encoder: F,
) -> (r: Result<AsmOutput, AsmError>)
    requires
        forall|insn: isa::Instruction| call_requires(encoder, (insn,)),
    ensures
        exists|replies: Seq<Reply>| #[trigger]
            answers(encoder, crate::parser::views(lines@), symbols@, replies) && match pass2_of(
                crate::parser::views(lines@),
                symbols@,
                reply_views(replies),
            ) {
                Ok(out) => r matches Ok(o) && o@ == out,
                Err(e) => r matches Err(x) && x@ == e,
            },
{
    let mut bytes: Vec<u8> = Vec::new();
    let mut instructions: Vec<isa::Instruction> = Vec::new();
    let mut lc: i64 = 0;
    let mut ended = false;
    let ghost all = crate::parser::views(lines@);
    let ghost mut replies: Seq<Reply> = seq![];
    let mut i: usize = 0;
    while i < lines.len() && !ended
        invariant
            i <= lines@.len(),
            all == crate::parser::views(lines@),
            replies.len() == i,
            forall|insn: isa::Instruction| call_requires(encoder, (insn,)),
            pass2_after(all, symbols@, reply_views(replies), i as int) == Ok::<Pass2, ErrorView>(
                Pass2 { lc, bytes: bytes@, instructions: instructions@, ended },
            ),
            forall|k: int|
                0 <= k < i ==> (#[trigger] request(all, symbols@, reply_views(replies), k)
                    matches Some(insn) ==> call_ensures(encoder, (insn,), replies[k])),
        decreases lines@.len() - i,
    {
        let ghost known = replies;
        let ghost here = Pass2 { lc, bytes: bytes@, instructions: instructions@, ended };
        let ghost mut reply: Reply = arbitrary();
        let step = plan_line(&lines[i], &symbols, lc);
        let mut failure: Option<AsmError> = None;
        match step {
            Err(e) => {
                failure = Some(e);
            },
            Ok((action, next)) => {
                lc = next;
                match action {
                    Action::Skip => {},
                    Action::End => {
                        ended = true;
                    },
                    Action::Zeros(n) => {
                        push_zeros(&mut bytes, &mut instructions, n);
                    },
                    Action::Word(w) => {
                        push_word(&mut bytes, &mut instructions, w);
                    },
                    Action::Encode { insn, col } => {
                        let answer = encoder(insn);
                        proof {
                            reply = answer;
                        }
                        match answer {
                            Ok(code) => {
                                let mut code = code;
                                bytes.append(&mut code);
                                instructions.push(insn);
                            },
                            Err(text) => {
                                let mut message = "encode failed: ".to_owned();
                                message.append(text.as_str());
                                failure = Some(AsmError::new(lines[i].line, col, message));
                            },
                        }
                    },
                }
            },
        }
        proof {
            replies = known.push(reply);
            lemma_answers_grow(all, symbols@, known, reply);
            assert(pass2_after(all, symbols@, reply_views(replies), i as int)
                == Ok::<Pass2, ErrorView>(here));
        }
        i += 1;
        if let Some(e) = failure {
            proof {
                lemma_answers_end(encoder, all, symbols@, replies, i as int);
                lemma_pass2_stays(
                    all,
                    symbols@,
                    reply_views(replies),
                    i as int,
                    all.len() as int,
                );
            }
            return Err(e);
        }
    }
    proof {
        lemma_answers_end(encoder, all, symbols@, replies, i as int);
        if ended {
            lemma_pass2_stays(all, symbols@, reply_views(replies), i as int, all.len() as int);
        }
    }
    Ok(AsmOutput { bytes, symbols, instructions })
}

/// One more answer changes nothing for the lines before it.
proof fn lemma_answers_grow(
    lines: Seq<LineView>,
    symbols: Symbols,
    replies: Seq<Reply>,
    reply: Reply,
)
    ensures
        pass2_after(lines, symbols, reply_views(replies.push(reply)), replies.len() as int)
            == pass2_after(lines, symbols, reply_views(replies), replies.len() as int),
        forall|k: int|
            0 <= k < replies.len() ==> #[trigger] request(
                lines,
                symbols,
                reply_views(replies.push(reply)),
                k,
            ) == request(lines, symbols, reply_views(replies), k),
{
    let old_views = reply_views(replies);
    let new_views = reply_views(replies.push(reply));
    lemma_pass2_prefix(lines, symbols, old_views, new_views, replies.len() as int);
    assert forall|k: int| 0 <= k < replies.len() implies #[trigger] request(
        lines,
        symbols,
        new_views,
        k,
    ) == request(lines, symbols, old_views, k) by {
        lemma_pass2_prefix(lines, symbols, old_views, new_views, k);
    }
}

/// Behind an error, an `END` or the last line nobody asks.
proof fn lemma_answers_end<F: Fn(isa::Instruction) -> Reply>(
    encoder: F,
    lines: Seq<LineView>,
    symbols: Symbols,
    replies: Seq<Reply>,
    n: int,
)
    requires
        0 <= n <= lines.len(),
        n == replies.len(),
        n == lines.len() || (pass2_after(lines, symbols, reply_views(replies), n) matches Ok(p)
            ==> p.ended),
        forall|k: int|
            0 <= k < n ==> (#[trigger] request(lines, symbols, reply_views(replies), k)
                matches Some(insn) ==> call_ensures(encoder, (insn,), replies[k])),
    ensures
        answers(encoder, lines, symbols, replies),
{
    let given = reply_views(replies);
    assert forall|k: int| 0 <= k < lines.len() implies (#[trigger] request(lines, symbols, given, k)
        matches Some(insn) ==> k < replies.len() && call_ensures(encoder, (insn,), replies[k])) by {
        if k >= n {
            lemma_pass2_stays(lines, symbols, given, n, k);
        }
    }
}

} // verus!
