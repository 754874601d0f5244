//! Every error with its position and its exact message.

use sw_ibm1130_asm::disasm::Decoded;
use sw_ibm1130_asm::isa::{Instruction, Opcode};
use sw_ibm1130_asm::{assemble, disassemble, parse_source, AsmError, SymbolTable};

/// Two bytes a word, all of them zero.
fn blank_code(insn: Instruction) -> Result<Vec<u8>, String> {
    match insn {
        Instruction::Short { .. } => Ok(vec![0, 0]),
        Instruction::Long { .. } => Ok(vec![0, 0, 0, 0]),
    }
}

fn error_of(source: &str) -> (u32, u32, String) {
    match assemble(source, blank_code) {
        Ok(_) => panic!("expected an error: {source}"),
        Err(e) => (e.line, e.col, e.message),
    }
}

fn error(line: u32, col: u32, message: &str) -> (u32, u32, String) {
    (line, col, message.to_string())
}

#[test]
fn error_is_one_line_of_text() {
    let e = AsmError::new(12, 7, "something is wrong".to_string());
    assert_eq!(e.line, 12);
    assert_eq!(e.col, 7);
    assert_eq!(e.to_text(), "12:7: something is wrong");
}

#[test]
fn expected_mnemonic() {
    assert_eq!(error_of("X: 5\n"), error(1, 4, "expected mnemonic or directive"));
    assert_eq!(error_of("  5\n"), error(1, 3, "expected mnemonic or directive"));
}

#[test]
fn trailing_input_is_quoted() {
    assert_eq!(
        error_of("DC 1 2\n"),
        error(1, 6, "unexpected trailing input: \"2\"")
    );
    assert_eq!(
        error_of("ABS \"x\ty\"\n"),
        error(1, 5, "unexpected trailing input: \"\\\"x\\ty\\\"\"")
    );
}

#[test]
fn invalid_operand_is_quoted() {
    assert_eq!(error_of(" A 12x\n"), error(1, 4, "invalid operand: \"12x\""));
    assert_eq!(error_of(" A \"q\"\n"), error(1, 4, "invalid operand: \"\\\"q\\\"\""));
    // An offset is split off before the rest is looked at.
    assert_eq!(error_of(" A 1.5+2\n"), error(1, 4, "invalid operand: \"1.5\""));
}

#[test]
fn expected_operand() {
    let message = "expected operand (number or symbol)";
    assert_eq!(error_of("DC\n"), error(1, 3, message));
    assert_eq!(error_of("DC ,\n"), error(1, 4, message));
    assert_eq!(error_of(" A +\n"), error(1, 4, message));
    assert_eq!(error_of(" BSC L 5,\n"), error(1, 10, message));
}

#[test]
fn empty_operand() {
    // A no-break space is white space, but no blank that separates fields.
    assert_eq!(error_of(" A \u{a0},1\n"), error(1, 4, "empty operand"));
}

#[test]
fn columns_count_bytes() {
    assert_eq!(error_of("DC \u{e4}, 1\n"), error(1, 4, "invalid operand: \"ä\""));
    assert_eq!(
        error_of("END \u{e4}+1 2\n"),
        error(1, 5, "invalid operand: \"ä+1\"")
    );
    assert_eq!(
        error_of(" A 5,\u{e4} 2\n"),
        error(1, 6, "invalid operand: \"ä\"")
    );
    assert_eq!(
        parse_source("\u{e4}\n").unwrap_err().to_text(),
        "1:1: expected mnemonic or directive"
    );
}

#[test]
fn the_first_bad_line_counts() {
    assert_eq!(
        error_of("DC 1\nDC 2\nDC\nDC ?\n"),
        error(3, 3, "expected operand (number or symbol)")
    );
}

#[test]
fn equ_requires_a_label() {
    assert_eq!(error_of("DC 1\n EQU 5\n"), error(2, 1, "EQU requires a label"));
}

#[test]
fn org_takes_no_label_and_goes_forward() {
    assert_eq!(error_of("  X: ORG 5\n"), error(1, 3, "ORG cannot have a label"));
    assert_eq!(
        error_of("DC 1\nDC 2\n ORG 1\n"),
        error(3, 1, "ORG cannot move location counter backward")
    );
}

#[test]
fn bss_is_not_negative() {
    assert_eq!(
        error_of(" BSS -3\n"),
        error(1, 1, "BSS size must be non-negative; got -3")
    );
    // In pass 1 the symbol is known; its label is bound first.
    assert_eq!(
        error_of("N: EQU -1\nN: BSS N\n"),
        error(2, 1, "duplicate label `N`; previously defined at line 1")
    );
}

#[test]
fn undefined_symbols() {
    assert_eq!(
        error_of("X: EQU Y\nY: EQU 1\n"),
        error(
            1,
            1,
            "undefined symbol `Y` (forward references not allowed in pass 1)"
        )
    );
    assert_eq!(
        error_of(" BSS Y+1\n"),
        error(
            1,
            1,
            "undefined symbol `Y` (forward references not allowed in pass 1)"
        )
    );
    assert_eq!(error_of(" A L Y\n"), error(1, 1, "undefined symbol `Y`"));
    assert_eq!(error_of("DC 0\n DC Y-1\n"), error(2, 1, "undefined symbol `Y`"));
    // Names keep their case.
    assert_eq!(error_of("y: DC Y\n"), error(1, 1, "undefined symbol `Y`"));
}

#[test]
fn duplicate_labels() {
    assert_eq!(
        error_of("A: DC 1\n\n  A: DC 2\n"),
        error(3, 3, "duplicate label `A`; previously defined at line 1")
    );
    let mut table = SymbolTable::new();
    assert_eq!(table.define("X", 4, 2, 1), Ok(()));
    let e = table.define("X", 5, 9, 3).unwrap_err();
    assert_eq!(
        e.to_text(),
        "9:3: duplicate label `X`; previously defined at line 2"
    );
    assert_eq!(table.lookup("X"), Some(4));
}

#[test]
fn unknown_mnemonics() {
    assert_eq!(error_of("  X: fooZ 1\n"), error(1, 6, "unknown mnemonic `fooz`"));
    // A word without a colon is no label, but for the first column.
    assert_eq!(error_of(" X\n"), error(1, 2, "unknown mnemonic `x`"));
    assert_eq!(error_of("X 1\n"), error(1, 1, "unknown mnemonic `x`"));
}

#[test]
fn short_only_mnemonics_take_no_flag() {
    assert_eq!(error_of("  WAIT L\n"), error(1, 3, "`wait` has no long form"));
    assert_eq!(error_of("  WAIT I\n"), error(1, 3, "`wait` has no long form"));
    assert_eq!(error_of(" SLA L 3\n"), error(1, 2, "`sla` has no long form"));
    assert_eq!(error_of(" SRT I 3\n"), error(1, 2, "`srt` has no long form"));
}

#[test]
fn counts_out_of_range() {
    assert_eq!(
        error_of(" SLT 128\n"),
        error(1, 2, "`slt` count 128 out of range (0..=0x7F)")
    );
    assert_eq!(
        error_of(" SRT -1\n"),
        error(1, 2, "`srt` count -1 out of range (0..=0x7F)")
    );
}

#[test]
fn displacements_out_of_range() {
    let tail = "out of range for short form (-128..=127); use `L` to force long form";
    assert_eq!(error_of(" A 128\n"), error(1, 2, &format!("displacement 128 {tail}")));
    assert_eq!(
        error_of("\tA -129\n"),
        error(1, 2, &format!("displacement -129 {tail}"))
    );
    assert!(assemble(" A 127\n A -128\n", blank_code).is_ok());
}

#[test]
fn negative_sizes_count_where_forms_have_settled() {
    // While `LD Y` is short, the second BSS is negative; it is long in the end.
    let source = " LD Y\n BSS 128\nX: DC 1\n BSS X-130\nY: EQU 500\n";
    assert!(assemble(source, blank_code).is_ok());
    let source = " LD Y\n BSS 128\nX: DC 1\n BSS X-131\nY: EQU 500\n";
    assert_eq!(
        error_of(source),
        error(4, 1, "BSS size must be non-negative; got -1")
    );
}

#[test]
fn the_first_fault_counts() {
    assert_eq!(
        error_of("A: DC 1\n BSS -1\nA: DC 2\n EQU 3\n"),
        error(2, 1, "BSS size must be non-negative; got -1")
    );
    // A BSS may use its own label, an EQU may not.
    assert!(assemble("X: BSS X\n", blank_code).is_ok());
    assert_eq!(
        error_of("X: EQU X\n"),
        error(
            1,
            1,
            "undefined symbol `X` (forward references not allowed in pass 1)"
        )
    );
    // Nothing is wrong behind END.
    assert!(assemble("A: END\nA: ORG Q\n EQU 3\n", blank_code).is_ok());
}

#[test]
fn addresses_out_of_range() {
    assert_eq!(
        error_of(" A L 65536\n"),
        error(1, 2, "address 65536 out of range for long form (16-bit)")
    );
    assert_eq!(
        error_of(" A L -32769\n"),
        error(1, 2, "address -32769 out of range for long form (16-bit)")
    );
    assert!(assemble(" A L 65535\n A L -32768\n", blank_code).is_ok());
}

#[test]
fn masks_that_do_not_fit() {
    assert_eq!(
        error_of(" BZ 5,1\n"),
        error(
            1,
            2,
            "`bz` is a mnemonic alias with a built-in mask; remove the mask operand"
        )
    );
    assert_eq!(
        error_of(" A L 5,1\n"),
        error(
            1,
            2,
            "`a` long form does not accept a condition mask (mask is BSC/BSI only)"
        )
    );
    assert_eq!(
        error_of(" BSC L 5,128\n"),
        error(1, 2, "condition mask 0x80 out of range (0..=0x7F)")
    );
    assert_eq!(
        error_of(" BSI L 5,-1\n"),
        error(1, 2, "condition mask 0xffffffffffffffff out of range (0..=0x7F)")
    );
    // The mask is looked up before it is refused.
    assert_eq!(error_of(" A L 5,Q\n"), error(1, 1, "undefined symbol `Q`"));
}

#[test]
fn the_encoder_may_refuse() {
    let r = assemble("DC 1\n   A 5\n", |insn| Err(format!("{insn:?}")));
    let e = match r {
        Ok(_) => panic!("expected an error"),
        Err(e) => e,
    };
    assert_eq!(
        e.to_text(),
        "2:4: encode failed: Short { op: Add, tag: 0, disp: 5 }"
    );
}

#[test]
fn the_decoder_may_refuse() {
    let wait = Instruction::Short { op: Opcode::Wait, tag: 0, disp: 0 };
    let decoder = |bytes: &[u8], offset: usize| {
        if bytes[offset] == 0 {
            Ok(Decoded { insn: wait, mnemonic: "wait".to_string(), size: 2 })
        } else {
            Err(format!("Bad({})", bytes[offset]))
        }
    };
    assert_eq!(
        disassemble(&[0, 0, 0, 0, 7, 0], decoder).unwrap_err().to_text(),
        "3:1: decode failed at byte 4: Bad(7)"
    );
    assert_eq!(
        disassemble(&[0, 0, 0, 0], decoder).unwrap(),
        "        wait 0\n        wait 0\n"
    );
    assert_eq!(disassemble(&[], decoder).unwrap(), "");
}

#[test]
fn errors_come_in_the_order_of_the_passes() {
    // The parser sees all lines first, then pass 1, then pass 2.
    assert_eq!(
        error_of(" FOO 1\n EQU 1\n DC\n"),
        error(3, 4, "expected operand (number or symbol)")
    );
    assert_eq!(error_of(" FOO 1\n EQU 1\n"), error(2, 1, "EQU requires a label"));
    assert_eq!(error_of(" FOO 1\n"), error(1, 2, "unknown mnemonic `foo`"));
}
