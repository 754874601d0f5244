//! What lines of source mean, and what the passes make of them.

use sw_ibm1130_asm::encode::{
    build_instruction, emit_pass2, is_long_only, is_short_only, plan_line, Action,
};
use sw_ibm1130_asm::isa;
use sw_ibm1130_asm::isa::Opcode;
use sw_ibm1130_asm::parser::{Instruction, Label, LineBody};
use sw_ibm1130_asm::symtab::build_pass1;
use sw_ibm1130_asm::{assemble, parse_source, AsmOutput, Directive, Operand, ParsedLine, SymbolTable};

/// The first word has the tag and the displacement; a second one is the
/// address.
fn plain_code(insn: isa::Instruction) -> Result<Vec<u8>, String> {
    match insn {
        isa::Instruction::Short { tag, disp, .. } => Ok(vec![tag, disp as u8]),
        isa::Instruction::Long { tag, mask, address, .. } => {
            Ok(vec![tag, mask, (address >> 8) as u8, address as u8])
        }
    }
}

fn assembled(source: &str) -> AsmOutput {
    match assemble(source, plain_code) {
        Ok(out) => out,
        Err(e) => panic!("{}: {source}", e.to_text()),
    }
}

fn body_of(line: &str) -> LineBody {
    let mut lines = parse_source(line).unwrap();
    assert_eq!(lines.len(), 1);
    lines.remove(0).body
}

fn instruction_of(line: &str) -> Instruction {
    match body_of(line) {
        LineBody::Instruction(insn) => insn,
        other => panic!("no instruction: {other:?}"),
    }
}

fn operand_of(text: &str) -> Operand {
    match body_of(&format!("DC {text}")) {
        LineBody::Directive(Directive::Dc(op)) => op,
        other => panic!("no DC: {other:?}"),
    }
}

fn built(line: &str) -> isa::Instruction {
    assembled(line).instructions[0]
}

#[test]
fn number_formats() {
    assert_eq!(operand_of("123"), Operand::Number(123));
    assert_eq!(operand_of("-7"), Operand::Number(-7));
    assert_eq!(operand_of("+7"), Operand::Number(7));
    assert_eq!(operand_of("0xFF"), Operand::Number(255));
    assert_eq!(operand_of("0Xff"), Operand::Number(255));
    assert_eq!(operand_of("-0x10"), Operand::Number(-16));
    assert_eq!(operand_of("/1aF"), Operand::Number(0x1af));
    assert_eq!(operand_of("0b101"), Operand::Number(5));
    assert_eq!(operand_of("0B11"), Operand::Number(3));
    assert_eq!(operand_of("007"), Operand::Number(7));
    // A sign behind the prefix belongs to the digits.
    assert_eq!(operand_of("/-5"), Operand::Number(-5));
    assert_eq!(operand_of("-/-5"), Operand::Number(5));
    assert_eq!(
        operand_of("9223372036854775807"),
        Operand::Number(i64::MAX)
    );
    assert!(parse_source("DC 9223372036854775808").is_err());
    assert_eq!(
        operand_of("/-8000000000000000"),
        Operand::Number(i64::MIN)
    );
    assert!(parse_source("DC 0x").is_err());
    assert!(parse_source("DC 0b2").is_err());
}

#[test]
fn symbols_and_offsets() {
    assert_eq!(operand_of("FOO"), Operand::Symbol("FOO".to_string()));
    assert_eq!(operand_of(".f_1"), Operand::Symbol(".f_1".to_string()));
    assert_eq!(operand_of("*"), Operand::LocationCounter);
    assert_eq!(
        operand_of("FOO+1"),
        Operand::Offset {
            base: Box::new(Operand::Symbol("FOO".to_string())),
            delta: 1
        }
    );
    assert_eq!(
        operand_of("*-0x2"),
        Operand::Offset { base: Box::new(Operand::LocationCounter), delta: -2 }
    );
    assert_eq!(
        operand_of("-3+5"),
        Operand::Offset { base: Box::new(Operand::Number(-3)), delta: 5 }
    );
    // The last sign is split off first.
    assert_eq!(
        operand_of("A+1-2"),
        Operand::Offset {
            base: Box::new(Operand::Offset {
                base: Box::new(Operand::Symbol("A".to_string())),
                delta: 1
            }),
            delta: -2
        }
    );
    // What is no number behind the last sign makes no offset.
    assert!(parse_source("DC A+B").is_err());
    assert!(parse_source("DC A+1+B").is_err());
}

#[test]
fn signs_inside_literals() {
    assert_eq!(operand_of("0x-1"), Operand::Number(-1));
    assert_eq!(operand_of("-0x-1"), Operand::Number(1));
    assert_eq!(operand_of("0X+1f"), Operand::Number(0x1f));
    assert_eq!(operand_of("0b-11"), Operand::Number(-3));
    // The sign of the literal is passed over, the one before it is not.
    assert_eq!(
        operand_of("A+0x-F"),
        Operand::Offset {
            base: Box::new(Operand::Symbol("A".to_string())),
            delta: -15
        }
    );
    // Behind anything else the sign begins an offset.
    assert_eq!(
        operand_of("A0x-1"),
        Operand::Offset {
            base: Box::new(Operand::Symbol("A0x".to_string())),
            delta: -1
        }
    );
    assert_eq!(
        operand_of("0x0b-1"),
        Operand::Offset { base: Box::new(Operand::Number(11)), delta: -1 }
    );
}

#[test]
fn labels_in_the_first_column() {
    let label = |name: &str| Some(Label { name: name.to_string(), col: 1 });
    // A name alone in the first column is a label.
    let lines = parse_source("Foo ; here\n").unwrap();
    assert_eq!(
        lines[0],
        ParsedLine { line: 1, label: label("Foo"), body: LineBody::Empty }
    );
    assert_eq!(
        build_pass1(&parse_source("FOO\n").unwrap()).unwrap().lookup("FOO"),
        Some(0)
    );
    // So is one before a directive or a mnemonic.
    let lines = parse_source("X\tEQU 42\nY   DC 5\nZ WAIT\n").unwrap();
    assert_eq!(lines[0].label, label("X"));
    assert_eq!(
        lines[0].body,
        LineBody::Directive(Directive::Equ(Operand::Number(42)))
    );
    assert_eq!(lines[1].label, label("Y"));
    assert_eq!(lines[2].label, label("Z"));
    // Names with a meaning of their own are no labels there.
    assert_eq!(body_of("End"), LineBody::Directive(Directive::End(None)));
    assert_eq!(instruction_of("WAIT").mnemonic, "wait");
    assert_eq!(instruction_of("LD A").operand, Some(Operand::Symbol("A".to_string())));
    // In another column a label needs its colon.
    assert_eq!(instruction_of(" FOO").mnemonic, "foo");
    assert!(parse_source(" X EQU 42").is_err());
    assert_eq!(instruction_of("FOO 5").mnemonic, "foo");
}

#[test]
fn symbolic_operands_in_and_out_of_reach() {
    let short = |disp: i8| isa::Instruction::Short { op: Opcode::Add, tag: 0, disp };
    let long = |address: u16| isa::Instruction::Long {
        op: Opcode::Add,
        tag: 0,
        indirect: false,
        mask: 0,
        address,
    };
    let built = |source: &str| assembled(source).instructions;
    assert_eq!(built("N: EQU 5\n        A N\n"), vec![short(5)]);
    assert_eq!(built("N: EQU 127\n A N\n A N+1\n"), vec![short(127), long(128)]);
    assert_eq!(built("N: EQU -128\n A N\n A N-1\n"), vec![short(-128), long(0xff7f)]);
    assert_eq!(built(" A *+127\n A *+127\n"), vec![short(127), long(128)]);
    assert_eq!(built(" A L N\nN: EQU 5\n"), vec![long(5)]);
    // A symbol that is bound behind its use is no different.
    assert_eq!(built(" A N\nN: EQU 300\n"), vec![long(300)]);
    let near = assembled(" A X\nX: DC 7\n");
    assert_eq!(near.instructions[0], short(1));
    assert_eq!(near.symbols.lookup("X"), Some(1));
    let far = assembled(" A X\n ORG 128\nX: DC 7\n");
    assert_eq!(far.instructions[0], long(128));
    assert_eq!(far.symbols.lookup("X"), Some(128));
}

#[test]
fn sizes_settle() {
    // That `A Z` is long moves X out of reach, which moves Y, and so on.
    let mut source = String::from(" A Z\n A X\n A Y\n BSS 124\nX: DC 1\nY: DC 2\n");
    source.push_str("Z: EQU 200\n");
    let out = assembled(&source);
    assert_eq!(out.symbols.lookup("X"), Some(130));
    assert_eq!(out.symbols.lookup("Y"), Some(131));
    assert_eq!(out.bytes.len(), 2 * 132);
    assert_eq!(out.bytes[260..], [0, 1, 0, 2]);
}

#[test]
fn lines_that_say_nothing() {
    let source = "// JOB\n  // ASM\n*LIST ALL\n\n \t \n; note\n   ; note\r\n";
    let lines = parse_source(source).unwrap();
    assert_eq!(lines.len(), 7);
    for (k, line) in lines.iter().enumerate() {
        assert_eq!(
            *line,
            ParsedLine { line: k as u32 + 1, label: None, body: LineBody::Empty }
        );
    }
}

#[test]
fn line_ends() {
    assert_eq!(parse_source("").unwrap().len(), 0);
    assert_eq!(parse_source("\n").unwrap().len(), 1);
    assert_eq!(parse_source("ABS\r\nABS").unwrap().len(), 2);
    assert_eq!(parse_source("ABS\n\nABS\n").unwrap().len(), 3);
}

#[test]
fn labels_stand_before_a_colon() {
    let lines = parse_source("  FOO:\nBAR:DC 1\n").unwrap();
    assert_eq!(
        lines[0],
        ParsedLine {
            line: 1,
            label: Some(Label { name: "FOO".to_string(), col: 3 }),
            body: LineBody::Empty,
        }
    );
    assert_eq!(
        lines[1],
        ParsedLine {
            line: 2,
            label: Some(Label { name: "BAR".to_string(), col: 1 }),
            body: LineBody::Directive(Directive::Dc(Operand::Number(1))),
        }
    );
}

#[test]
fn directives() {
    let number = Operand::Number(4);
    assert_eq!(body_of(" org 4"), LineBody::Directive(Directive::Org(number.clone())));
    assert_eq!(body_of("X: Equ 4"), LineBody::Directive(Directive::Equ(number.clone())));
    assert_eq!(body_of("dC 4"), LineBody::Directive(Directive::Dc(number.clone())));
    assert_eq!(body_of("BSS 4"), LineBody::Directive(Directive::Bss(number.clone())));
    assert_eq!(body_of("ABS"), LineBody::Directive(Directive::Abs));
    assert_eq!(body_of("END"), LineBody::Directive(Directive::End(None)));
    assert_eq!(body_of("END 4"), LineBody::Directive(Directive::End(Some(number))));
}

#[test]
fn flags_tags_and_masks() {
    let insn = instruction_of("  Bsc l I 2 , FOO , 0x20");
    assert_eq!(
        insn,
        Instruction {
            mnemonic: "bsc".to_string(),
            mnemonic_col: 3,
            long_flag: true,
            indirect_flag: true,
            tag: 2,
            operand: Some(Operand::Symbol("FOO".to_string())),
            mask: Some(Operand::Number(0x20)),
        }
    );
    // The last word of the line is an operand, though it is named like a flag.
    let insn = instruction_of(" LD L");
    assert!(!insn.long_flag);
    assert_eq!(insn.operand, Some(Operand::Symbol("L".to_string())));
    let insn = instruction_of(" LD L I");
    assert!(insn.long_flag);
    assert!(!insn.indirect_flag);
    assert_eq!(insn.operand, Some(Operand::Symbol("I".to_string())));
    // `WAIT` has no operand, so there it is a flag.
    let insn = instruction_of(" WAIT L");
    assert!(insn.long_flag);
    assert_eq!(insn.operand, None);
    // A tag is at most 3; another digit is an operand with a mask behind it.
    let insn = instruction_of(" BSC L 4,5");
    assert_eq!(insn.tag, 0);
    assert_eq!(insn.operand, Some(Operand::Number(4)));
    assert_eq!(insn.mask, Some(Operand::Number(5)));
    let insn = instruction_of(" LD 3,");
    assert_eq!(insn.tag, 3);
    assert_eq!(insn.operand, None);
}

#[test]
fn long_and_short_mnemonics() {
    for m in ["xio", "b", "bl", "bz", "bnz", "bp", "bn", "bnp", "bod"] {
        assert!(is_long_only(m));
        assert!(!is_short_only(m));
    }
    for m in ["wait", "sla", "sra", "slt", "srt"] {
        assert!(is_short_only(m));
        assert!(!is_long_only(m));
    }
    for m in ["ld", "bsc", "bsi", "XIO", "Wait", ""] {
        assert!(!is_long_only(m));
        assert!(!is_short_only(m));
    }
}

#[test]
fn branch_names_carry_masks() {
    let masks: [(&str, u8); 8] = [
        ("B", 0),
        ("BL", 0),
        ("BZ", 0x20),
        ("BNZ", 0x18),
        ("BP", 0x08),
        ("BN", 0x10),
        ("BNP", 0x30),
        ("BOD", 0x04),
    ];
    for (name, mask) in masks {
        assert_eq!(
            built(&format!(" {name} 0x123")),
            isa::Instruction::Long {
                op: Opcode::BranchSkipCondition,
                tag: 0,
                indirect: false,
                mask,
                address: 0x123,
            }
        );
    }
}

#[test]
fn shifts_of_the_pair_set_the_high_bit() {
    assert_eq!(
        built(" SLT 16"),
        isa::Instruction::Short { op: Opcode::ShiftLeft, tag: 0, disp: -112 }
    );
    assert_eq!(
        built(" SRT 2,127"),
        isa::Instruction::Short { op: Opcode::ShiftRight, tag: 2, disp: -1 }
    );
    assert_eq!(
        built(" SRT"),
        isa::Instruction::Short { op: Opcode::ShiftRight, tag: 0, disp: -128 }
    );
    assert_eq!(
        built(" SRA 16"),
        isa::Instruction::Short { op: Opcode::ShiftRight, tag: 0, disp: 16 }
    );
}

#[test]
fn addresses_are_cut_to_a_word() {
    assert_eq!(
        built(" A L -1"),
        isa::Instruction::Long {
            op: Opcode::Add,
            tag: 0,
            indirect: false,
            mask: 0,
            address: 0xffff,
        }
    );
    let out = assembled("DC -2\nDC 0x12345\n");
    assert_eq!(out.bytes, vec![0xff, 0xfe, 0x23, 0x45]);
    assert_eq!(
        out.instructions[1],
        isa::Instruction::Long {
            op: Opcode::Wait,
            tag: 0,
            indirect: false,
            mask: 0,
            address: 0x2345,
        }
    );
}

#[test]
fn bss_reserves_zero_words() {
    let out = assembled("A: DC 1\nB: BSS 2\nC: DC 3\n");
    assert_eq!(out.bytes, vec![0, 1, 0, 0, 0, 0, 0, 3]);
    assert_eq!(out.instructions.len(), 4);
    assert_eq!(out.symbols.lookup("B"), Some(1));
    assert_eq!(out.symbols.lookup("C"), Some(3));
}

#[test]
fn the_location_counter_as_an_operand() {
    let out = assembled(" DC *\n DC *+5\nX: EQU *\n ORG *+1\nY: DC X\n");
    assert_eq!(out.bytes, vec![0, 0, 0, 6, 0, 0, 0, 2]);
    assert_eq!(out.symbols.lookup("Y"), Some(3));
}

#[test]
fn labels_of_every_kind() {
    let out = assembled("A:\nB: ABS\nC: DC 1\nD: EQU -70000\nE: LD 3\nF: END\nG: DC 9\n");
    assert_eq!(out.symbols.lookup("A"), Some(0));
    assert_eq!(out.symbols.lookup("B"), Some(0));
    assert_eq!(out.symbols.lookup("C"), Some(0));
    assert_eq!(out.symbols.lookup("D"), Some(-70000));
    assert_eq!(out.symbols.lookup("E"), Some(1));
    assert_eq!(out.symbols.lookup("F"), Some(2));
    assert_eq!(out.symbols.lookup("G"), None);
}

#[test]
fn symbol_tables() {
    let mut table = SymbolTable::default();
    assert_eq!(table.lookup("X"), None);
    assert!(table.define("X", -5, 3, 2).is_ok());
    assert!(table.define("x", 6, 4, 1).is_ok());
    assert_eq!(table.lookup("X"), Some(-5));
    assert_eq!(table.lookup("x"), Some(6));
    let def = table.map.get("X").unwrap();
    assert_eq!((def.value, def.line, def.col), (-5, 3, 2));
}

#[test]
fn the_passes_one_by_one() {
    let lines = parse_source(" LD L X\nX: DC 7\n").unwrap();
    let symbols = build_pass1(&lines).unwrap();
    assert_eq!(symbols.lookup("X"), Some(2));
    let out = match emit_pass2(&lines, symbols, plain_code) {
        Ok(out) => out,
        Err(e) => panic!("{}", e.to_text()),
    };
    assert_eq!(out.bytes, vec![0, 0, 0, 2, 0, 7]);
    assert_eq!(out.symbols.lookup("X"), Some(2));
}

#[test]
fn plans_of_single_lines() {
    let symbols = SymbolTable::new();
    let plan = |text: &str, lc: i64| {
        let lines = parse_source(text).unwrap();
        plan_line(&lines[0], &symbols, lc)
    };
    assert_eq!(plan("X: EQU 5", 7), Ok((Action::Skip, 7)));
    assert_eq!(plan(" ABS", 7), Ok((Action::Skip, 7)));
    assert_eq!(plan(" ORG 10", 7), Ok((Action::Zeros(3), 10)));
    assert_eq!(plan(" BSS 2", 7), Ok((Action::Zeros(2), 9)));
    assert_eq!(plan(" DC *", 7), Ok((Action::Word(7), 8)));
    assert_eq!(plan(" END", 7), Ok((Action::End, 7)));
    let insn = isa::Instruction::Short { op: Opcode::Load, tag: 1, disp: 5 };
    assert_eq!(plan(" LD 1,5", 7), Ok((Action::Encode { insn, col: 2 }, 8)));
    assert!(plan(" ORG 6", 7).is_err());
    assert_eq!(
        plan(" BSS -1", 7).unwrap_err().to_text(),
        "1:1: BSS size must be non-negative; got -1"
    );
}

#[test]
fn products_in_lines_built_by_hand() {
    let mut symbols = SymbolTable::new();
    symbols.define("N", 21, 1, 1).unwrap();
    let insn = Instruction {
        mnemonic: "a".to_string(),
        mnemonic_col: 1,
        long_flag: false,
        indirect_flag: false,
        tag: 0,
        operand: Some(Operand::Multiply {
            lhs: 2,
            rhs: Box::new(Operand::Symbol("N".to_string())),
        }),
        mask: None,
    };
    assert_eq!(
        build_instruction(&insn, &symbols, 0, 1),
        Ok(isa::Instruction::Short { op: Opcode::Add, tag: 0, disp: 42 })
    );
    let insn = Instruction {
        operand: Some(Operand::Multiply {
            lhs: 10,
            rhs: Box::new(Operand::Symbol("N".to_string())),
        }),
        ..insn
    };
    assert_eq!(
        build_instruction(&insn, &symbols, 0, 1),
        Ok(isa::Instruction::Long {
            op: Opcode::Add,
            tag: 0,
            indirect: false,
            mask: 0,
            address: 210,
        })
    );
}

#[test]
fn operands_clone() {
    let op = operand_of("A+1-2");
    assert_eq!(op.clone(), op);
    let product = Operand::Multiply { lhs: 3, rhs: Box::new(op) };
    assert_eq!(product.clone(), product);
}
