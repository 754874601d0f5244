//! The laws of the assembler on chosen programs.

use sw_ibm1130_asm::disasm::{render_instruction, Decoded};
use sw_ibm1130_asm::encode::{build_instruction, emit_pass2};
use sw_ibm1130_asm::isa::{Instruction, Opcode};
use sw_ibm1130_asm::parser;
use sw_ibm1130_asm::parser::LineBody;
use sw_ibm1130_asm::symtab::build_pass1;
use sw_ibm1130_asm::{assemble, disassemble, parse_source, AsmOutput, Operand, SymbolTable};

const NAMES: [(Opcode, &str); 5] = [
    (Opcode::Load, "ld"),
    (Opcode::BranchSkipCondition, "BSC"),
    (Opcode::BranchStore, "bsi"),
    (Opcode::ShiftLeft, "Sla"),
    (Opcode::ExecuteInputOutput, "xio"),
];

fn number_of(op: Opcode) -> Option<u8> {
    NAMES.iter().position(|(o, _)| *o == op).map(|k| k as u8)
}

/// Form, operation and tag in one byte, then what else there is.
fn encode(insn: Instruction) -> Result<Vec<u8>, String> {
    match insn {
        Instruction::Short { op, tag, disp } => match number_of(op) {
            Some(k) => Ok(vec![k << 2 | tag, disp as u8]),
            None => Err("Unknown".to_string()),
        },
        Instruction::Long { op, tag, indirect, mask, address } => match number_of(op) {
            Some(k) => {
                let low = if indirect { 0x80 | mask } else { mask };
                let word = address.to_be_bytes();
                Ok(vec![0x80 | k << 2 | tag, low, word[0], word[1]])
            }
            None => Err("Unknown".to_string()),
        },
    }
}

fn decode(bytes: &[u8], offset: usize) -> Result<Decoded, String> {
    let first = bytes[offset];
    let (op, name) = NAMES[(first >> 2 & 0x1f) as usize];
    let tag = first & 3;
    let mnemonic = name.to_string();
    let low = bytes[offset + 1];
    if first & 0x80 == 0 {
        let insn = Instruction::Short { op, tag, disp: low as i8 };
        Ok(Decoded { insn, mnemonic, size: 2 })
    } else {
        let insn = Instruction::Long {
            op,
            tag,
            indirect: low & 0x80 != 0,
            mask: low & 0x7f,
            address: u16::from_be_bytes([bytes[offset + 2], bytes[offset + 3]]),
        };
        Ok(Decoded { insn, mnemonic, size: 4 })
    }
}

fn assembled(source: &str) -> AsmOutput {
    match assemble(source, encode) {
        Ok(out) => out,
        Err(e) => panic!("{}: {source}", e.to_text()),
    }
}

fn parsed(line: &str) -> parser::Instruction {
    match parse_source(line).unwrap().remove(0).body {
        LineBody::Instruction(insn) => insn,
        other => panic!("no instruction: {other:?}"),
    }
}

fn built(line: &str) -> Instruction {
    let mut symbols = SymbolTable::new();
    symbols.define("SYM", 3, 1, 1).unwrap();
    build_instruction(&parsed(line), &symbols, 0, 1).unwrap()
}

fn is_long(insn: Instruction) -> bool {
    matches!(insn, Instruction::Long { .. })
}

#[test]
fn the_form_of_an_instruction() {
    assert!(!is_long(built(" LD 3")));
    assert!(!is_long(built(" LD")));
    assert!(is_long(built(" LD L 3")));
    assert!(is_long(built(" LD I 3")));
    assert!(is_long(built(" XIO 3")));
    assert!(is_long(built(" BZ 3")));
    assert!(!is_long(built(" LD SYM")));
    assert!(!is_long(built(" LD *")));
    assert!(!is_long(built(" LD SYM+124")));
    assert!(is_long(built(" LD SYM+125")));
    assert!(is_long(built(" LD SYM-132")));
    assert!(!is_long(built(" SLA SYM")));
    assert!(!is_long(built(" WAIT")));
}

#[test]
fn the_passes_agree_on_sizes() {
    // A symbolic operand takes the same words in pass 1 as in pass 2.
    let out = assembled(" LD X\n LD X+200\n LD 3\n SLA 1\nX: DC 5\n");
    assert_eq!(out.symbols.lookup("X"), Some(5));
    assert_eq!(out.bytes.len(), 12);
    assert_eq!(out.bytes[10..], [0, 5]);
}

#[test]
fn stretched_forms_stay_long() {
    // Both are out of reach while both are short, and are long from there on.
    let source = " LD X\n LD Y\nX: EQU *-131\nY: EQU *-132\n";
    let out = assembled(source);
    assert_eq!(out.symbols.lookup("X"), Some(-127));
    assert_eq!(out.symbols.lookup("Y"), Some(-128));
    assert!(is_long(out.instructions[0]) && is_long(out.instructions[1]));
    assert!(out.symbols.stretched.contains(&1) && out.symbols.stretched.contains(&2));
    // The operand is in reach only if the instruction is long.
    let out = assembled(" LD X\nX: EQU *-130\nZ: DC 7\n");
    assert_eq!(out.symbols.lookup("X"), Some(-128));
    assert!(is_long(out.instructions[0]));
    assert_eq!(out.symbols.lookup("Z"), Some(2));
    assert_eq!(out.bytes[4..], [0, 7]);
    // A line that is not out of reach is not stretched.
    let out = assembled(" LD X\n LD X+200\nX: DC 1\n");
    assert!(!out.symbols.stretched.contains(&1));
    assert!(out.symbols.stretched.contains(&2));
}

#[test]
fn the_first_walk_may_be_all() {
    // With flags on all symbolic operands, nothing depends on symbols.
    let out = assembled(" LD L X\n LD I X+200\n SLA X\nX: DC 5\n");
    assert_eq!(out.symbols.lookup("X"), Some(5));
    // With all operands in reach, all of them are short.
    let out = assembled(" LD X\n LD X+1\nX: DC 5\n");
    assert_eq!(out.symbols.lookup("X"), Some(2));
}

#[test]
fn a_label_is_the_word_at_its_line() {
    let out = assembled(" ORG 2\n LD L E\nA: BSS 1\nB: DC 0x1111\n LD 1\nE: DC 0x2222\n");
    let word_at = |name: &str| {
        let at = 2 * out.symbols.lookup(name).unwrap() as usize;
        [out.bytes[at], out.bytes[at + 1]]
    };
    assert_eq!(word_at("A"), [0, 0]);
    assert_eq!(word_at("B"), [0x11, 0x11]);
    assert_eq!(word_at("E"), [0x22, 0x22]);
}

#[test]
fn bindings_stay() {
    let out = assembled("A: EQU 1\nB: EQU A+1\nC: EQU B+1\nD: DC C\n");
    assert_eq!(out.symbols.lookup("A"), Some(1));
    assert_eq!(out.symbols.lookup("B"), Some(2));
    assert_eq!(out.symbols.lookup("C"), Some(3));
    assert_eq!(out.bytes, vec![0, 3]);
}

#[test]
fn nothing_counts_behind_end() {
    let short = assembled("A: DC 1\n END A\n");
    let long = assembled("A: DC 1\n END A\nA: DC 2\nB: FOO 3\n EQU 4\n");
    assert_eq!(short.bytes, long.bytes);
    assert_eq!(long.symbols.lookup("B"), None);
}

#[test]
fn output_grows_line_by_line() {
    let lines = [" DC 1", " LD 5", " BSS 2", " ORG 6", " LD L 7"];
    let mut source = String::new();
    let mut before: Vec<u8> = vec![];
    for line in lines {
        source.push_str(line);
        source.push('\n');
        let bytes = assembled(&source).bytes;
        assert!(bytes.starts_with(&before));
        assert!(bytes.len() > before.len());
        before = bytes;
    }
}

#[test]
fn instructions_are_parallel_to_bytes() {
    let out = assembled(" LD 5\n BSS 2\n DC 9\n LD L 7\n");
    let mut bytes: Vec<u8> = vec![];
    for insn in &out.instructions {
        match insn {
            Instruction::Long { op: Opcode::Wait, address, .. } => {
                bytes.extend_from_slice(&address.to_be_bytes());
            }
            other => bytes.extend(encode(*other).unwrap()),
        }
    }
    assert_eq!(out.instructions.len(), 5);
    assert_eq!(bytes, out.bytes);
}

#[test]
fn branch_names_are_bsc() {
    assert_eq!(built(" BNZ 2,0x77"), built(" BSC L 2,0x77,0x18"));
    assert_eq!(built(" B I SYM"), built(" BSC L I SYM,0"));
}

#[test]
fn pair_shifts_are_shifts() {
    assert_eq!(built(" SLT 5"), built(" SLA -123"));
    assert_eq!(built(" SRT 1,0"), built(" SRA 1,-128"));
}

#[test]
fn comments_say_nothing() {
    let plain = parse_source("X: LD L 2,SYM+1").unwrap();
    let commented = parse_source("X: LD L 2,SYM+1 ; here; and ; there").unwrap();
    assert_eq!(plain, commented);
    assert_eq!(
        parse_source("DC ?;x").unwrap_err(),
        parse_source("DC ?").unwrap_err()
    );
}

#[test]
fn columns_are_free() {
    let here = parse_source("X: LD 5").unwrap();
    let there = parse_source(" \tX: LD 5").unwrap();
    assert_eq!(here[0].label.as_ref().unwrap().col, 1);
    assert_eq!(there[0].label.as_ref().unwrap().col, 3);
    match (&here[0].body, &there[0].body) {
        (LineBody::Instruction(a), LineBody::Instruction(b)) => {
            assert_eq!(a.mnemonic_col, 4);
            assert_eq!(b.mnemonic_col, 6);
            assert_eq!(a.operand, b.operand);
        }
        _ => panic!("no instructions"),
    }
    let e = parse_source("DC ?").unwrap_err();
    let f = parse_source(" DC ?").unwrap_err();
    assert_eq!((e.line, e.col + 1, &e.message), (f.line, f.col, &f.message));
}

#[test]
fn case_is_free() {
    for source in ["x: ld l i 2,Sym", "X: Ld L I 2,sYM"] {
        let upper = source.replace("ld l i", "LD L I").replace("Ld L I", "LD L I");
        assert_eq!(parse_source(source).unwrap(), parse_source(&upper).unwrap());
    }
    assert_eq!(
        parse_source("x: eQu y").unwrap(),
        parse_source("x: EQU y").unwrap()
    );
    assert_ne!(
        parse_source("x: EQU y").unwrap(),
        parse_source("x: EQU Y").unwrap()
    );
    assert_eq!(
        parse_source("dc ?").unwrap_err(),
        parse_source("DC ?").unwrap_err()
    );
}

#[test]
fn signs_before_numbers() {
    let value = |text: &str| {
        let out = assembled(&format!("X: EQU {text}\n"));
        out.symbols.lookup("X").unwrap()
    };
    for number in ["12", "0x1F", "/ff", "0b101", "0x-3"] {
        let n = value(number);
        assert_eq!(value(&format!("-{number}")), -n);
        assert_eq!(value(&format!("+{number}")), n);
    }
}

#[test]
fn errors_stand_in_the_source() {
    let sources = [
        "DC",
        "\n\n  ?",
        "A: DC 1\nA: DC 2",
        " EQU 1",
        " A L Q",
        "DC 1\n ORG 0",
        "X: ORG 1",
        " SLT 500",
        " END\n DC\n",
    ];
    for source in sources {
        let e = match assemble(source, encode) {
            Err(e) => e,
            Ok(_) => panic!("expected an error: {source}"),
        };
        assert!(1 <= e.line && e.line as usize <= source.lines().count());
        assert!(e.col >= 1);
    }
}

#[test]
fn end_itself_emits_nothing() {
    let lines = parse_source("A: DC 1\n LD 5\n END\n DC 2\n").unwrap();
    let emit = |n: usize| {
        let symbols = build_pass1(&lines).unwrap();
        match emit_pass2(&lines[..n], symbols, encode) {
            Ok(out) => (out.bytes, out.instructions),
            Err(e) => panic!("{}", e.to_text()),
        }
    };
    assert_eq!(emit(4), emit(2));
    assert_eq!(emit(3), emit(2));
    // What comes later adds to what comes first.
    assert!(emit(2).0.starts_with(&emit(1).0));
    assert!(emit(2).1.starts_with(&emit(1).1));
}

#[test]
fn two_calls_give_the_same() {
    let source = "A: LD X\n BZ A\nX: DC A\n";
    let first = assembled(source);
    let second = assembled(source);
    assert_eq!(first.bytes, second.bytes);
    assert_eq!(first.instructions, second.instructions);
}

#[test]
fn proper_mnemonics_name_different_operations() {
    let names = [
        "ld", "ldd", "sto", "std", "ldx", "stx", "lds", "sts", "a", "ad", "s", "sd", "m", "d",
        "and", "or", "eor", "sla", "sra", "bsc", "bsi", "mdx", "wait", "xio",
    ];
    let mut seen: Vec<Opcode> = vec![];
    for name in names {
        let op = match built(&format!(" {name}")) {
            Instruction::Short { op, .. } => op,
            Instruction::Long { op, .. } => op,
        };
        assert!(!seen.contains(&op));
        seen.push(op);
    }
    assert_eq!(seen.len(), 24);
}

#[test]
fn any_name_is_rendered_as_an_instruction() {
    let insn = Instruction::Long {
        op: Opcode::Load,
        tag: 1,
        indirect: true,
        mask: 0xff,
        address: 7,
    };
    let read = parsed(&render_instruction(&insn, "Fo.o_9"));
    assert_eq!(read.mnemonic, "fo.o_9");
    assert!(read.long_flag && read.indirect_flag);
    assert_eq!(read.tag, 1);
    assert_eq!(read.operand, Some(Operand::Number(7)));
    assert_eq!(read.mask, Some(Operand::Number(255)));
}

#[test]
fn lines_are_numbered() {
    let lines = parse_source("ABS\n\n; x\nDC 1\n").unwrap();
    let numbers: Vec<u32> = lines.iter().map(|line| line.line).collect();
    assert_eq!(numbers, vec![1, 2, 3, 4]);
}

#[test]
fn parsed_instructions_are_in_lower_case() {
    let insn = parsed(" LdD 3,4");
    assert_eq!(insn.mnemonic, "ldd");
    assert_eq!(insn.tag, 3);
}

#[test]
fn rendered_lines() {
    let short = Instruction::Short { op: Opcode::Load, tag: 0, disp: -10 };
    assert_eq!(render_instruction(&short, "ld"), "        ld -10");
    let short = Instruction::Short { op: Opcode::Load, tag: 3, disp: 10 };
    assert_eq!(render_instruction(&short, "ld"), "        ld 3,10");
    let long = Instruction::Long {
        op: Opcode::BranchSkipCondition,
        tag: 0,
        indirect: false,
        mask: 0,
        address: 0x1a,
    };
    assert_eq!(render_instruction(&long, "bsc"), "        bsc L 0x001a");
    let long = Instruction::Long {
        op: Opcode::BranchSkipCondition,
        tag: 2,
        indirect: true,
        mask: 0x28,
        address: 0xbeef,
    };
    assert_eq!(render_instruction(&long, "bsc"), "        bsc L I 2,0xbeef,0x28");
}

#[test]
fn a_rendered_line_gives_its_instruction_back() {
    for mask in [0u8, 1, 0x0f, 0x10, 0x7f] {
        for address in [0u16, 9, 0x10, 0x7fff, 0x8000, 0xffff] {
            for tag in 0u8..4 {
                let insn = Instruction::Long {
                    op: Opcode::BranchSkipCondition,
                    tag,
                    indirect: mask == 1,
                    mask,
                    address,
                };
                assert_eq!(built(&render_instruction(&insn, "bsc")), insn);
            }
        }
    }
    for disp in [-128i8, -1, 0, 1, 99, 127] {
        let insn = Instruction::Short { op: Opcode::ShiftLeft, tag: 2, disp };
        assert_eq!(built(&render_instruction(&insn, "SLA")), insn);
    }
}

#[test]
fn assembled_programs_come_back() {
    let source = "\
START: LD 1,5
       BZ START
       BSC L I 3,START+2,0x41
       SLT 7
       XIO 0x200
N:     EQU 3
       BSI L N,8
       ABS
       END START
";
    let out = assembled(source);
    let text = disassemble(&out.bytes, decode).unwrap();
    assert_eq!(
        text,
        "        ld 1,5
        BSC L 0x0000,0x20
        BSC L I 3,0x0002,0x41
        Sla -121
        xio L 0x0200
        bsi L 0x0003,0x8
"
    );
    let again = assembled(&text);
    assert_eq!(again.bytes, out.bytes);
    assert_eq!(again.instructions, out.instructions);
}
