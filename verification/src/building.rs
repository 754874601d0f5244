//! What an instruction is built from: its operation by its name, and tag,
//! displacement, address and mask by the operands' values.

use crate::encode;
use crate::isa;
use crate::isa::Opcode;
use crate::parser::{InstructionView, OperandView};
use crate::symtab;
use crate::symtab::Symbols;
use crate::text;
use crate::ErrorView;
use vstd::prelude::*;

verus! {

/// A number is worth itself, and `*` the location.
pub proof fn law_plain_values(symbols: Symbols, lc: i64, n: i64)
    ensures
        symtab::value_at(OperandView::Number(n), symbols, lc) == Ok::<i64, Seq<char>>(n),
        symtab::value_at(OperandView::LocationCounter, symbols, lc) == Ok::<i64, Seq<char>>(lc),
{
}

/// A symbol is worth what it is bound to, and nothing if it is not bound.
pub proof fn law_symbol_value(symbols: Symbols, lc: i64, name: Seq<char>)
    ensures
        symbols.map.contains_key(name) ==> symtab::value_at(
            OperandView::Symbol(name),
            symbols,
            lc,
        ) == Ok::<i64, Seq<char>>(symbols.map[name].value),
        !symbols.map.contains_key(name) ==> symtab::value_at(
            OperandView::Symbol(name),
            symbols,
            lc,
        ) == Err::<i64, Seq<char>>(name),
{
}

/// An offset is added to its base: `SYM+n` is `n` more than `SYM`, and `SYM-n`
/// is `n` less. Where 64 bits do not hold the sum, what they hold differs from
/// it by a multiple of their range.
pub proof fn law_offset_value(
    base: OperandView,
    delta: i64,
    symbols: Symbols,
    lc: i64,
    v: i64,
)
    requires
        symtab::value_at(base, symbols, lc) == Ok::<i64, Seq<char>>(v),
    ensures
        symtab::value_at(
            OperandView::Offset { base: Box::new(base), delta },
            symbols,
            lc,
        ) matches Ok(r) && (i64::MIN <= v + delta <= i64::MAX ==> r == v + delta) && (r - v - delta)
            % 0x1_0000_0000_0000_0000 == 0,
{
}

/// A product is that of its factors, within 64 bits.
pub proof fn law_product_value(lhs: i64, rhs: OperandView, symbols: Symbols, lc: i64, v: i64)
    requires
        symtab::value_at(rhs, symbols, lc) == Ok::<i64, Seq<char>>(v),
    ensures
        symtab::value_at(
            OperandView::Multiply { lhs, rhs: Box::new(rhs) },
            symbols,
            lc,
        ) matches Ok(r) && (i64::MIN <= lhs * v <= i64::MAX ==> r == lhs * v) && (r - lhs * v)
            % 0x1_0000_0000_0000_0000 == 0,
{
}

/// An operand has no value where what it is made of has none, for the same
/// name.
pub proof fn law_no_value(inner: OperandView, n: i64, symbols: Symbols, lc: i64, name: Seq<char>)
    requires
        symtab::value_at(inner, symbols, lc) == Err::<i64, Seq<char>>(name),
    ensures
        symtab::value_at(
            OperandView::Offset { base: Box::new(inner), delta: n },
            symbols,
            lc,
        ) == Err::<i64, Seq<char>>(name),
        symtab::value_at(
            OperandView::Multiply { lhs: n, rhs: Box::new(inner) },
            symbols,
            lc,
        ) == Err::<i64, Seq<char>>(name),
{
}

/// The name of an instruction says which operation it is.
pub proof fn law_operation(
    insn: InstructionView,
    symbols: Symbols,
    lc: i64,
    line: u32,
    built: isa::Instruction,
)
    requires
        encode::machine_of(insn, symbols, lc, line) == Ok::<isa::Instruction, ErrorView>(built),
    ensures
        insn.mnemonic == "ld"@ ==> built.operation() == Opcode::Load,
        insn.mnemonic == "ldd"@ ==> built.operation() == Opcode::LoadDouble,
        insn.mnemonic == "sto"@ ==> built.operation() == Opcode::Store,
        insn.mnemonic == "std"@ ==> built.operation() == Opcode::StoreDouble,
        insn.mnemonic == "ldx"@ ==> built.operation() == Opcode::LoadIndex,
        insn.mnemonic == "stx"@ ==> built.operation() == Opcode::StoreIndex,
        insn.mnemonic == "lds"@ ==> built.operation() == Opcode::LoadStatus,
        insn.mnemonic == "sts"@ ==> built.operation() == Opcode::StoreStatus,
        insn.mnemonic == "a"@ ==> built.operation() == Opcode::Add,
        insn.mnemonic == "ad"@ ==> built.operation() == Opcode::AddDouble,
        insn.mnemonic == "s"@ ==> built.operation() == Opcode::Subtract,
        insn.mnemonic == "sd"@ ==> built.operation() == Opcode::SubtractDouble,
        insn.mnemonic == "m"@ ==> built.operation() == Opcode::Multiply,
        insn.mnemonic == "d"@ ==> built.operation() == Opcode::Divide,
        insn.mnemonic == "and"@ ==> built.operation() == Opcode::And,
        insn.mnemonic == "or"@ ==> built.operation() == Opcode::Or,
        insn.mnemonic == "eor"@ ==> built.operation() == Opcode::ExclusiveOr,
        insn.mnemonic == "sla"@ || insn.mnemonic == "slt"@ ==> built.operation()
            == Opcode::ShiftLeft,
        insn.mnemonic == "sra"@ || insn.mnemonic == "srt"@ ==> built.operation()
            == Opcode::ShiftRight,
        insn.mnemonic == "bsc"@ || insn.mnemonic == "b"@ || insn.mnemonic == "bl"@ || insn.mnemonic
            == "bz"@ || insn.mnemonic == "bnz"@ || insn.mnemonic == "bp"@ || insn.mnemonic == "bn"@
            || insn.mnemonic == "bnp"@ || insn.mnemonic == "bod"@ ==> built.operation()
            == Opcode::BranchSkipCondition,
        insn.mnemonic == "bsi"@ ==> built.operation() == Opcode::BranchStore,
        insn.mnemonic == "mdx"@ ==> built.operation() == Opcode::ModifyIndex,
        insn.mnemonic == "wait"@ ==> built.operation() == Opcode::Wait,
        insn.mnemonic == "xio"@ ==> built.operation() == Opcode::ExecuteInputOutput,
{
    encode::lemma_spellings();
}

/// Whether a mnemonic has only the short form.
pub proof fn law_short_only(m: Seq<char>)
    ensures
        encode::short_only(m) <==> m == "wait"@ || m == "sla"@ || m == "sra"@ || m == "slt"@ || m
            == "srt"@,
{
}

/// Whether a mnemonic has only the long form.
pub proof fn law_long_only(m: Seq<char>)
    ensures
        encode::long_only(m) <==> m == "xio"@ || m == "b"@ || m == "bl"@ || m == "bz"@ || m
            == "bnz"@ || m == "bp"@ || m == "bn"@ || m == "bnp"@ || m == "bod"@,
{
}

/// The value of an operand is what the built instruction goes by; no operand
/// counts as 0.
pub open spec fn is_worth(
    operand: Option<OperandView>,
    symbols: Symbols,
    lc: i64,
    v: i64,
) -> bool {
    match operand {
        Some(op) => symtab::value_at(op, symbols, lc) == Ok::<i64, Seq<char>>(v),
        None => v == 0,
    }
}

/// A built instruction is long exactly where a flag is set, the mnemonic has
/// no short form, or an operand that is no bare number is outside of -128 and
/// 127 or in a line that pass 1 stretched; and never where the mnemonic has
/// no long form.
pub proof fn law_which_form(
    insn: InstructionView,
    symbols: Symbols,
    lc: i64,
    line: u32,
    built: isa::Instruction,
    v: i64,
)
    requires
        encode::machine_of(insn, symbols, lc, line) == Ok::<isa::Instruction, ErrorView>(built),
        is_worth(insn.operand, symbols, lc, v),
    ensures
        ({
            let m = insn.mnemonic;
            let no_long = m == "wait"@ || m == "sla"@ || m == "sra"@ || m == "slt"@ || m == "srt"@;
            let no_short = m == "xio"@ || m == "b"@ || m == "bl"@ || m == "bz"@ || m == "bnz"@ || m
                == "bp"@ || m == "bn"@ || m == "bnp"@ || m == "bod"@;
            let symbolic = insn.operand is Some && !(insn.operand->0 is Number);
            built is Long <==> !no_long && (insn.long_flag || insn.indirect_flag || no_short || (
            symbolic && (v < -128 || v > 127 || symbols.stretched.contains(line))))
        }),
{
    encode::lemma_spellings();
}

/// A short instruction has the tag that was written, and the operand's value
/// as its displacement; `SLT` and `SRT` set the high bit besides, which makes
/// the displacement 128 less than the count.
pub proof fn law_short_instruction(
    insn: InstructionView,
    symbols: Symbols,
    lc: i64,
    line: u32,
    built: isa::Instruction,
)
    requires
        encode::machine_of(insn, symbols, lc, line) == Ok::<isa::Instruction, ErrorView>(built),
        built is Short,
    ensures
        built->Short_tag == insn.tag,
        exists|v: i64| #[trigger]
            is_worth(insn.operand, symbols, lc, v) && built->disp == if insn.mnemonic == "slt"@
                || insn.mnemonic == "srt"@ {
                v - 128
            } else {
                v as int
            },
{
    encode::lemma_spellings();
    match insn.operand {
        Some(op) => {
            let v = symtab::value_at(op, symbols, lc)->Ok_0;
            assert(is_worth(insn.operand, symbols, lc, v));
        },
        None => {
            assert(is_worth(insn.operand, symbols, lc, 0));
        },
    }
}

/// A long instruction has the tag and the indirection that were written, and
/// for its address the 16-bit word of the operand's value, whatever the tag
/// and the flags are: the value itself from 0 on, and the value plus 65536
/// below 0.
pub proof fn law_long_instruction(
    insn: InstructionView,
    symbols: Symbols,
    lc: i64,
    line: u32,
    built: isa::Instruction,
)
    requires
        encode::machine_of(insn, symbols, lc, line) == Ok::<isa::Instruction, ErrorView>(built),
        built is Long,
    ensures
        built->Long_tag == insn.tag,
        built->indirect == insn.indirect_flag,
        exists|v: i64| #[trigger]
            is_worth(insn.operand, symbols, lc, v) && -32768 <= v <= 65535 && built->address
                == if v >= 0 {
                v as int
            } else {
                v + 65536
            },
{
    match insn.operand {
        Some(op) => {
            let v = symtab::value_at(op, symbols, lc)->Ok_0;
            assert(is_worth(insn.operand, symbols, lc, v));
        },
        None => {
            assert(is_worth(insn.operand, symbols, lc, 0));
        },
    }
}

/// The mask of a long instruction is that of its name, or what was written
/// for a `BSC` or `BSI`, or 0. The conditions of a name are 0x08 positive,
/// 0x10 negative, 0x20 zero and 0x04 even; a `N` in the name stands for all
/// of the first three that it does not name.
pub proof fn law_mask(
    insn: InstructionView,
    symbols: Symbols,
    lc: i64,
    line: u32,
    built: isa::Instruction,
)
    requires
        encode::machine_of(insn, symbols, lc, line) == Ok::<isa::Instruction, ErrorView>(built),
        built is Long,
    ensures
        insn.mnemonic == "b"@ || insn.mnemonic == "bl"@ ==> built->mask == 0,
        insn.mnemonic == "bz"@ ==> built->mask == 0x20,
        insn.mnemonic == "bp"@ ==> built->mask == 0x08,
        insn.mnemonic == "bn"@ ==> built->mask == 0x10,
        insn.mnemonic == "bod"@ ==> built->mask == 0x04,
        insn.mnemonic == "bnz"@ ==> built->mask == 0x08 + 0x10,
        insn.mnemonic == "bnp"@ ==> built->mask == 0x10 + 0x20,
        insn.mnemonic != "b"@ && insn.mnemonic != "bl"@ && insn.mnemonic != "bz"@ && insn.mnemonic
            != "bp"@ && insn.mnemonic != "bn"@ && insn.mnemonic != "bod"@ && insn.mnemonic
            != "bnz"@ && insn.mnemonic != "bnp"@ ==> match insn.mask {
            None => built->mask == 0,
            Some(op) => (insn.mnemonic == "bsc"@ || insn.mnemonic == "bsi"@) && (symtab::value_at(
                op,
                symbols,
                lc,
            ) matches Ok(v) && built->mask == v),
        },
        built->mask <= 0x7f,
{
    encode::lemma_spellings();
}

/// A name that is none of an operation is refused, at its own place.
pub proof fn law_unknown_mnemonic(insn: InstructionView, symbols: Symbols, lc: i64, line: u32)
    ensures
        ({
            let m = insn.mnemonic;
            let known = m == "ld"@ || m == "ldd"@ || m == "sto"@ || m == "std"@ || m == "ldx"@ || m
                == "stx"@ || m == "lds"@ || m == "sts"@ || m == "a"@ || m == "ad"@ || m == "s"@ || m
                == "sd"@ || m == "m"@ || m == "d"@ || m == "and"@ || m == "or"@ || m == "eor"@ || m
                == "sla"@ || m == "slt"@ || m == "sra"@ || m == "srt"@ || m == "bsc"@ || m
                == "bsi"@ || m == "mdx"@ || m == "wait"@ || m == "xio"@ || m == "b"@ || m == "bl"@
                || m == "bz"@ || m == "bnz"@ || m == "bp"@ || m == "bn"@ || m == "bnp"@ || m
                == "bod"@;
            &&& known <==> encode::opcode_of(m) is Some
            &&& !known ==> encode::machine_of(insn, symbols, lc, line) == Err::<
                isa::Instruction,
                ErrorView,
            >(
                ErrorView {
                    line,
                    col: insn.mnemonic_col,
                    message: "unknown mnemonic `"@ + m + "`"@,
                },
            )
        }),
{
}

/// A flag on a mnemonic without a long form is refused.
pub proof fn law_no_long_form(insn: InstructionView, symbols: Symbols, lc: i64, line: u32)
    requires
        insn.mnemonic == "wait"@ || insn.mnemonic == "sla"@ || insn.mnemonic == "sra"@
            || insn.mnemonic == "slt"@ || insn.mnemonic == "srt"@,
        insn.long_flag || insn.indirect_flag,
    ensures
        encode::machine_of(insn, symbols, lc, line) == Err::<isa::Instruction, ErrorView>(
            ErrorView {
                line,
                col: insn.mnemonic_col,
                message: "`"@ + insn.mnemonic + "` has no long form"@,
            },
        ),
{
    encode::lemma_spellings();
}

/// Whether an instruction has a name that is known and may have its flags.
pub open spec fn is_admitted(insn: InstructionView) -> bool {
    &&& encode::opcode_of(insn.mnemonic) is Some
    &&& insn.long_flag || insn.indirect_flag ==> insn.mnemonic != "wait"@ && insn.mnemonic
        != "sla"@ && insn.mnemonic != "sra"@ && insn.mnemonic != "slt"@ && insn.mnemonic != "srt"@
}

/// An unbound symbol in the operand is refused.
pub proof fn law_unbound_operand(
    insn: InstructionView,
    symbols: Symbols,
    lc: i64,
    line: u32,
    op: OperandView,
    name: Seq<char>,
)
    requires
        is_admitted(insn),
        insn.operand == Some(op),
        symtab::value_at(op, symbols, lc) == Err::<i64, Seq<char>>(name),
    ensures
        encode::machine_of(insn, symbols, lc, line) == Err::<isa::Instruction, ErrorView>(
            ErrorView { line, col: 1, message: "undefined symbol `"@ + name + "`"@ },
        ),
{
}

/// Where a short form is asked for, it is built if the value is in range, and
/// refused otherwise: 0 to 127 for `SLT` and `SRT`, -128 to 127 for the rest.
/// It is asked for where there is no flag, the mnemonic has a short form, and
/// it has no other, or the operand is absent or a bare number.
pub proof fn law_short_range(
    insn: InstructionView,
    symbols: Symbols,
    lc: i64,
    line: u32,
    v: i64,
)
    requires
        is_admitted(insn),
        !insn.long_flag && !insn.indirect_flag,
        is_worth(insn.operand, symbols, lc, v),
        !encode::long_only(insn.mnemonic),
        encode::short_only(insn.mnemonic) || insn.operand is None || insn.operand->0 is Number,
    ensures
        insn.mnemonic == "slt"@ || insn.mnemonic == "srt"@ ==> if 0 <= v <= 127 {
            encode::machine_of(insn, symbols, lc, line) is Ok
        } else {
            encode::machine_of(insn, symbols, lc, line) == Err::<isa::Instruction, ErrorView>(
                ErrorView {
                    line,
                    col: insn.mnemonic_col,
                    message: "`"@ + insn.mnemonic + "` count "@ + text::decimal(v as int)
                        + " out of range (0..=0x7F)"@,
                },
            )
        },
        insn.mnemonic != "slt"@ && insn.mnemonic != "srt"@ ==> if -128 <= v <= 127 {
            encode::machine_of(insn, symbols, lc, line) is Ok
        } else {
            encode::machine_of(insn, symbols, lc, line) == Err::<isa::Instruction, ErrorView>(
                ErrorView {
                    line,
                    col: insn.mnemonic_col,
                    message: "displacement "@ + text::decimal(v as int)
                        + " out of range for short form (-128..=127); use `L` to force long form"@,
                },
            )
        },
{
    encode::lemma_spellings();
}

/// Where an operand that is no bare number is in reach and nothing asks for
/// the long form, the short form is built.
pub proof fn law_symbolic_in_reach(
    insn: InstructionView,
    symbols: Symbols,
    lc: i64,
    line: u32,
    v: i64,
)
    requires
        is_admitted(insn),
        !insn.long_flag && !insn.indirect_flag,
        insn.operand is Some,
        is_worth(insn.operand, symbols, lc, v),
        !encode::long_only(insn.mnemonic),
        !encode::short_only(insn.mnemonic),
        -128 <= v <= 127,
        !symbols.stretched.contains(line),
    ensures
        encode::machine_of(insn, symbols, lc, line) matches Ok(built) && built is Short
            && built->disp == v && built->Short_tag == insn.tag,
{
    encode::lemma_spellings();
}

/// Where the long form is asked for, by a flag, by the mnemonic, or by an
/// operand that is no bare number and out of reach or in a stretched line, a
/// value outside of -32768 and 65535 is refused.
pub proof fn law_long_range(
    insn: InstructionView,
    symbols: Symbols,
    lc: i64,
    line: u32,
    v: i64,
)
    requires
        is_admitted(insn),
        !encode::short_only(insn.mnemonic),
        is_worth(insn.operand, symbols, lc, v),
        insn.long_flag || insn.indirect_flag || encode::long_only(insn.mnemonic) || (
        insn.operand is Some && !(insn.operand->0 is Number)),
        v < -32768 || v > 65535,
    ensures
        encode::machine_of(insn, symbols, lc, line) == Err::<isa::Instruction, ErrorView>(
            ErrorView {
                line,
                col: insn.mnemonic_col,
                message: "address "@ + text::decimal(v as int)
                    + " out of range for long form (16-bit)"@,
            },
        ),
{
}

/// What is refused in the mask of a long instruction whose address is in
/// range: a mask on a name that has its own; an unbound symbol; a mask on
/// anything else than `BSC` and `BSI`; and a value outside of 0 and 127.
/// Without such a mask the instruction is built.
pub proof fn law_long_masks(
    insn: InstructionView,
    symbols: Symbols,
    lc: i64,
    line: u32,
    v: i64,
)
    requires
        is_admitted(insn),
        !encode::short_only(insn.mnemonic),
        is_worth(insn.operand, symbols, lc, v),
        -32768 <= v <= 65535,
        insn.long_flag || insn.indirect_flag || encode::long_only(insn.mnemonic) || (
        insn.operand is Some && !(insn.operand->0 is Number) && (v < -128 || v > 127
            || symbols.stretched.contains(line))),
    ensures
        ({
            let m = insn.mnemonic;
            let named = m == "b"@ || m == "bl"@ || m == "bz"@ || m == "bnz"@ || m == "bp"@ || m
                == "bn"@ || m == "bnp"@ || m == "bod"@;
            let built = encode::machine_of(insn, symbols, lc, line);
            let refused = |col: u32, message: Seq<char>|
                Err::<isa::Instruction, ErrorView>(ErrorView { line, col, message });
            match insn.mask {
                None => built is Ok,
                Some(op) => if named {
                    built == refused(
                        insn.mnemonic_col,
                        "`"@ + m
                            + "` is a mnemonic alias with a built-in mask; remove the mask operand"@,
                    )
                } else {
                    match symtab::value_at(op, symbols, lc) {
                        Err(name) => built == refused(1, "undefined symbol `"@ + name + "`"@),
                        Ok(x) => if m != "bsc"@ && m != "bsi"@ {
                            built == refused(
                                insn.mnemonic_col,
                                "`"@ + m
                                    + "` long form does not accept a condition mask (mask is BSC/BSI only)"@,
                            )
                        } else if 0 <= x <= 127 {
                            built is Ok
                        } else {
                            built == refused(
                                insn.mnemonic_col,
                                "condition mask "@ + text::hexadecimal(x)
                                    + " out of range (0..=0x7F)"@,
                            )
                        },
                    }
                },
            }
        }),
{
    encode::lemma_spellings();
}

} // verus!
