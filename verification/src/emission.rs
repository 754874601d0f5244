//! What each kind of line does: where it moves the location, what it binds,
//! and what it emits.

use crate::encode;
use crate::encode::{Action, OutputView, Pass2, Reply, ReplyView};
use crate::grammar;
use crate::isa;
use crate::isa::Opcode;
use crate::layout;
use crate::parser::{BodyView, DirectiveView, InstructionView, LabelView, LineView, OperandView};
use crate::symtab;
use crate::symtab::{Pass1, SymbolDef, Symbols};
use crate::text;
use crate::ErrorView;
use vstd::prelude::*;

verus! {

/// Whether `r` is the sum `n` as 64 bits hold it: `n` itself, if they do.
pub open spec fn holds(r: i64, n: int) -> bool {
    &&& i64::MIN <= n <= i64::MAX ==> r == n
    &&& (r - n) % 0x1_0000_0000_0000_0000 == 0
}

/// A walk begins at location 0 without symbols, and takes one line after the
/// other until an `END` is behind it.
pub proof fn law_walk(lines: Seq<LineView>, stretched: Set<u32>, n: int)
    requires
        0 <= n,
    ensures
        symtab::pass1_after(lines, stretched, 0).lc == 0,
        symtab::pass1_after(lines, stretched, 0).symbols.map == Map::<Seq<char>, SymbolDef>::empty(),
        !symtab::pass1_after(lines, stretched, 0).ended,
        ({
            let p = symtab::pass1_after(lines, stretched, n);
            symtab::pass1_after(lines, stretched, n + 1) == if p.ended {
                p
            } else {
                symtab::pass1_step(lines[n], p)
            }
        }),
{
}

/// Pass 2 begins at location 0 with no output, and takes one line after the
/// other, with the answer to it, until one fails or an `END` is behind it.
/// What it has put out at the end is the output, with the symbols it was
/// given.
pub proof fn law_pass2_walk(
    lines: Seq<LineView>,
    symbols: Symbols,
    replies: Seq<ReplyView>,
    n: int,
)
    requires
        0 <= n,
    ensures
        encode::pass2_after(lines, symbols, replies, 0) == Ok::<Pass2, ErrorView>(
            Pass2 {
                lc: 0,
                bytes: Seq::empty(),
                instructions: Seq::empty(),
                ended: false,
            },
        ),
        encode::pass2_after(lines, symbols, replies, n + 1) == match encode::pass2_after(
            lines,
            symbols,
            replies,
            n,
        ) {
            Err(e) => Err(e),
            Ok(q) => if q.ended {
                Ok(q)
            } else {
                encode::pass2_step(lines[n], symbols, q, replies[n])
            },
        },
        encode::pass2_of(lines, symbols, replies) == match encode::pass2_after(
            lines,
            symbols,
            replies,
            lines.len() as int,
        ) {
            Err(e) => Err::<OutputView, ErrorView>(e),
            Ok(q) => Ok(OutputView { bytes: q.bytes, symbols, instructions: q.instructions }),
        },
{
}

/// An assembly is the parser, then pass 1 on what it read, then pass 2 on
/// that and the symbols of pass 1; the first that fails gives the error.
pub proof fn law_assembly(source: Seq<char>, replies: Seq<ReplyView>)
    ensures
        grammar::source_of(source) matches Err(e) ==> crate::assembly_of(source, replies) == Err::<
            OutputView,
            ErrorView,
        >(e),
        grammar::source_of(source) matches Ok(lines) ==> {
            &&& symtab::pass1_of(lines) matches Err(e) ==> crate::assembly_of(source, replies)
                == Err::<OutputView, ErrorView>(e)
            &&& symtab::pass1_of(lines) matches Ok(symbols) ==> crate::assembly_of(source, replies)
                == encode::pass2_of(lines, symbols, replies)
        },
{
}

/// How far each kind of line moves pass 1: a `DC` by one word, an instruction
/// by one or two, a `BSS` by as many as its operand says, an `ORG` to the
/// place it says, and any other line not at all. An `END` ends it.
pub proof fn law_line_moves(line: LineView, p: Pass1)
    requires
        symtab::fault_of(line, p) is None,
        !p.ended,
    ensures
        ({
            let q = symtab::pass1_step(line, p);
            match line.body {
                BodyView::Empty => q.lc == p.lc && !q.ended,
                BodyView::Directive(DirectiveView::Equ(_)) => q.lc == p.lc && !q.ended,
                BodyView::Directive(DirectiveView::Abs) => q.lc == p.lc && !q.ended,
                BodyView::Directive(DirectiveView::End(_)) => q.lc == p.lc && q.ended,
                BodyView::Directive(DirectiveView::Dc(_)) => holds(q.lc, p.lc + 1) && !q.ended,
                BodyView::Directive(DirectiveView::Org(op)) => {
                    &&& symtab::value_at(op, p.symbols, p.lc) matches Ok(v)
                    &&& q.lc == v
                    &&& !q.ended
                },
                BodyView::Directive(DirectiveView::Bss(op)) => {
                    &&& symtab::value_at(op, q.symbols, p.lc) matches Ok(n)
                    &&& n >= 0
                    &&& holds(q.lc, p.lc + n)
                    &&& !q.ended
                },
                BodyView::Instruction(insn) => {
                    let m = insn.mnemonic;
                    let no_long = m == "wait"@ || m == "sla"@ || m == "sra"@ || m == "slt"@ || m
                        == "srt"@;
                    let no_short = m == "xio"@ || m == "b"@ || m == "bl"@ || m == "bz"@ || m
                        == "bnz"@ || m == "bp"@ || m == "bn"@ || m == "bnp"@ || m == "bod"@;
                    let symbolic = insn.operand is Some && !(insn.operand->0 is Number);
                    let long = !no_long && (insn.long_flag || insn.indirect_flag || no_short || (
                    symbolic && p.symbols.stretched.contains(line.line)));
                    &&& long ==> holds(q.lc, p.lc + 2)
                    &&& !long ==> holds(q.lc, p.lc + 1)
                    &&& !q.ended
                },
            }
        }),
{
    symtab::lemma_wrap64_same(p.lc);
}

/// What each line binds in pass 1: its label, if it has one, to the location,
/// or to its operand's value if it is an `EQU`; with the place of the label.
/// All other names are as before.
pub proof fn law_line_binds(line: LineView, p: Pass1)
    requires
        symtab::fault_of(line, p) is None,
    ensures
        ({
            let q = symtab::pass1_step(line, p);
            &&& q.symbols.stretched == p.symbols.stretched
            &&& match line.label {
                None => q.symbols.map == p.symbols.map,
                Some(label) => {
                    &&& !p.symbols.map.contains_key(label.name)
                    &&& exists|v: i64|
                        q.symbols.map == #[trigger] p.symbols.map.insert(
                            label.name,
                            SymbolDef { value: v, line: line.line, col: label.col },
                        ) && match line.body {
                            BodyView::Directive(DirectiveView::Equ(op)) => symtab::value_at(
                                op,
                                p.symbols,
                                p.lc,
                            ) == Ok::<i64, Seq<char>>(v),
                            _ => v == p.lc,
                        }
                },
            }
        }),
{
    let q = symtab::pass1_step(line, p);
    match line.label {
        Some(label) => {
            let v = match line.body {
                BodyView::Directive(DirectiveView::Equ(op)) => symtab::value_at(
                    op,
                    p.symbols,
                    p.lc,
                )->Ok_0,
                _ => p.lc,
            };
            assert(q.symbols.map == p.symbols.map.insert(
                label.name,
                SymbolDef { value: v, line: line.line, col: label.col },
            ));
        },
        None => {},
    }
}

/// What is wrong with a line in pass 1, and how that is said.
pub proof fn law_faults(line: LineView, p: Pass1)
    ensures
        ({
            let fault = symtab::fault_of(line, p);
            let says = |col: u32, message: Seq<char>|
                fault == Some(ErrorView { line: line.line, col, message });
            let unbound = |name: Seq<char>|
                says(
                    1,
                    "undefined symbol `"@ + name + "` (forward references not allowed in pass 1)"@,
                );
            let repeated = |label: LabelView|
                says(
                    label.col,
                    "duplicate label `"@ + label.name + "`; previously defined at line "@
                        + text::decimal(p.symbols.map[label.name].line as int),
                );
            let again = line.label is Some && p.symbols.map.contains_key(line.label->0.name);
            match line.body {
                BodyView::Directive(DirectiveView::Org(op)) => if line.label is Some {
                    says(line.label->0.col, "ORG cannot have a label"@)
                } else {
                    match symtab::value_at(op, p.symbols, p.lc) {
                        Err(name) => unbound(name),
                        Ok(_) => fault is None,
                    }
                },
                BodyView::Directive(DirectiveView::Equ(op)) => if line.label is None {
                    says(1, "EQU requires a label"@)
                } else {
                    match symtab::value_at(op, p.symbols, p.lc) {
                        Err(name) => unbound(name),
                        Ok(_) => if again {
                            repeated(line.label->0)
                        } else {
                            fault is None
                        },
                    }
                },
                _ => if again {
                    repeated(line.label->0)
                } else {
                    match line.body {
                        BodyView::Directive(DirectiveView::Bss(op)) => match symtab::value_at(
                            op,
                            symtab::pass1_step(line, p).symbols,
                            p.lc,
                        ) {
                            Err(name) => unbound(name),
                            Ok(n) => if n < 0 {
                                says(
                                    1,
                                    "BSS size must be non-negative; got "@ + text::decimal(n as int),
                                )
                            } else {
                                fault is None
                            },
                        },
                        _ => fault is None,
                    }
                },
            }
        }),
{
}

/// The error of pass 1 is the first fault of its last walk.
pub proof fn law_first_fault(lines: Seq<LineView>, e: ErrorView) -> (k: int)
    requires
        symtab::pass1_of(lines) == Err::<Symbols, ErrorView>(e),
    ensures
        0 <= k < lines.len(),
        ({
            let stretched = symtab::settled_of(lines).stretched;
            &&& !symtab::pass1_after(lines, stretched, k).ended
            &&& symtab::fault_of(lines[k], symtab::pass1_after(lines, stretched, k)) == Some(e)
            &&& forall|j: int|
                0 <= j < k ==> symtab::fault_of(
                    #[trigger] lines[j],
                    symtab::pass1_after(lines, stretched, j),
                ) is None
        }),
{
    let stretched = symtab::settled_of(lines).stretched;
    let k = layout::lemma_first_fault(lines, stretched, lines.len() as int, e);
    assert forall|j: int| 0 <= j < k implies symtab::fault_of(
        #[trigger] lines[j],
        symtab::pass1_after(lines, stretched, j),
    ) is None by {
        if symtab::pass1_after(lines, stretched, j).ended {
            symtab::lemma_pass1_stays(lines, stretched, j, k);
        }
        layout::lemma_no_fault(lines, stretched, j, k);
    }
    k
}

/// Whether `r` is `q` with more output: `bytes` and `entries`, and `words`
/// words further on.
pub open spec fn adds(
    q: Pass2,
    r: Pass2,
    bytes: Seq<u8>,
    entries: Seq<isa::Instruction>,
    words: int,
) -> bool {
    &&& r.bytes == q.bytes + bytes
    &&& r.instructions == q.instructions + entries
    &&& holds(r.lc, q.lc + words)
    &&& r.ended == q.ended
}

/// The entry of the instruction list for a data word.
pub open spec fn word_entry(word: u16) -> isa::Instruction {
    isa::Instruction::Long { op: Opcode::Wait, tag: 0, indirect: false, mask: 0, address: word }
}

/// Lines that emit nothing leave pass 2 as it is; an `END` ends it besides.
pub proof fn law_silent_lines(line: LineView, symbols: Symbols, q: Pass2, reply: ReplyView)
    ensures
        line.body is Empty ==> encode::pass2_step(line, symbols, q, reply) == Ok::<
            Pass2,
            ErrorView,
        >(q),
        line.body matches BodyView::Directive(d) ==> {
            &&& d is Equ || d is Abs ==> encode::pass2_step(line, symbols, q, reply) == Ok::<
                Pass2,
                ErrorView,
            >(q)
            &&& d is End ==> encode::pass2_step(line, symbols, q, reply) == Ok::<Pass2, ErrorView>(
                Pass2 { ended: true, ..q },
            )
        },
{
}

/// A `DC` emits one word, the high byte first, which is its operand's value
/// modulo 65536, for negative values as for others; and one entry with the
/// word.
pub proof fn law_dc_emits(
    line: LineView,
    op: OperandView,
    symbols: Symbols,
    q: Pass2,
    reply: ReplyView,
    v: i64,
)
    requires
        line.body == BodyView::Directive(DirectiveView::Dc(op)),
        symtab::value_at(op, symbols, q.lc) == Ok::<i64, Seq<char>>(v),
    ensures
        encode::plan(line, symbols, q.lc) matches Ok((Action::Word(w), lc)) && (w - v) % 65536 == 0
            && holds(lc, q.lc + 1),
        encode::pass2_step(line, symbols, q, reply) matches Ok(r) && {
            let n = q.bytes.len() as int;
            let word = r.bytes[n] * 256 + r.bytes[n + 1];
            &&& r.bytes.len() == n + 2
            &&& r.bytes.take(n) == q.bytes
            &&& (word - v) % 65536 == 0
            &&& -32768 <= v < 0 ==> word == v + 65536
            &&& r.instructions == q.instructions.push(word_entry(word as u16))
            &&& holds(r.lc, q.lc + 1)
            &&& r.ended == q.ended
        },
{
    let word = encode::low_word(v);
    let r = encode::pass2_step(line, symbols, q, reply)->Ok_0;
    let n = q.bytes.len() as int;
    assert(r.bytes[n] * 256 + r.bytes[n + 1] == word);
    assert(r.bytes.take(n) =~= q.bytes);
}

/// Whether `n` words of zeros are emitted: two zero bytes and one entry each.
pub open spec fn adds_zeros(q: Pass2, r: Pass2, n: int) -> bool {
    &&& r.bytes.len() == q.bytes.len() + 2 * n
    &&& forall|i: int|
        0 <= i < r.bytes.len() ==> #[trigger] r.bytes[i] == if i < q.bytes.len() {
            q.bytes[i]
        } else {
            0
        }
    &&& r.instructions.len() == q.instructions.len() + n
    &&& forall|i: int|
        0 <= i < r.instructions.len() ==> #[trigger] r.instructions[i] == if i
            < q.instructions.len() {
            q.instructions[i]
        } else {
            word_entry(0)
        }
    &&& r.ended == q.ended
}

/// A `BSS` of `n` words emits exactly `2 * n` zero bytes and `n` entries, and
/// moves the location by `n`. A negative one is refused.
pub proof fn law_bss_emits(
    line: LineView,
    op: OperandView,
    symbols: Symbols,
    q: Pass2,
    reply: ReplyView,
    n: i64,
)
    requires
        line.body == BodyView::Directive(DirectiveView::Bss(op)),
        symtab::value_at(op, symbols, q.lc) == Ok::<i64, Seq<char>>(n),
    ensures
        n >= 0 ==> {
            &&& encode::plan(line, symbols, q.lc) matches Ok((Action::Zeros(z), lc)) && z == n
                && holds(lc, q.lc + n)
            &&& encode::pass2_step(line, symbols, q, reply) matches Ok(r) && adds_zeros(
                q,
                r,
                n as int,
            ) && holds(r.lc, q.lc + n)
        },
        n < 0 ==> encode::pass2_step(line, symbols, q, reply) == Err::<Pass2, ErrorView>(
            ErrorView {
                line: line.line,
                col: 1,
                message: "BSS size must be non-negative; got "@ + text::decimal(n as int),
            },
        ),
{
}

/// An `ORG` fills up with zero words to the place that it says, and stands
/// there. One that says a place before is refused.
pub proof fn law_org_emits(
    line: LineView,
    op: OperandView,
    symbols: Symbols,
    q: Pass2,
    reply: ReplyView,
    v: i64,
)
    requires
        line.body == BodyView::Directive(DirectiveView::Org(op)),
        symtab::value_at(op, symbols, q.lc) == Ok::<i64, Seq<char>>(v),
    ensures
        v >= q.lc ==> {
            &&& encode::plan(line, symbols, q.lc) matches Ok((Action::Zeros(z), lc)) && z == v
                - q.lc && lc == v
            &&& encode::pass2_step(line, symbols, q, reply) matches Ok(r) && adds_zeros(
                q,
                r,
                v - q.lc,
            ) && r.lc == v
        },
        v < q.lc ==> encode::pass2_step(line, symbols, q, reply) == Err::<Pass2, ErrorView>(
            ErrorView {
                line: line.line,
                col: 1,
                message: "ORG cannot move location counter backward"@,
            },
        ),
{
}

/// An unbound symbol in a directive that emits is refused.
pub proof fn law_unbound_in_directive(
    line: LineView,
    op: OperandView,
    symbols: Symbols,
    q: Pass2,
    reply: ReplyView,
    name: Seq<char>,
)
    requires
        line.body == BodyView::Directive(DirectiveView::Dc(op)) || line.body == BodyView::Directive(
            DirectiveView::Bss(op),
        ) || line.body == BodyView::Directive(DirectiveView::Org(op)),
        symtab::value_at(op, symbols, q.lc) == Err::<i64, Seq<char>>(name),
    ensures
        encode::pass2_step(line, symbols, q, reply) == Err::<Pass2, ErrorView>(
            ErrorView {
                line: line.line,
                col: 1,
                message: "undefined symbol `"@ + name + "`"@,
            },
        ),
{
}

/// An instruction is built, the encoder is asked for it, and its bytes and
/// the instruction itself are emitted; the location moves by the words of the
/// form that was built. What cannot be built is refused as such, and what the
/// encoder refuses with its words.
pub proof fn law_instruction_emits(
    line: LineView,
    insn: InstructionView,
    symbols: Symbols,
    q: Pass2,
    reply: ReplyView,
)
    requires
        line.body == BodyView::Instruction(insn),
    ensures
        match encode::machine_of(insn, symbols, q.lc, line.line) {
            Err(e) => encode::pass2_step(line, symbols, q, reply) == Err::<Pass2, ErrorView>(e),
            Ok(built) => {
                let words: int = if built is Long {
                    2
                } else {
                    1
                };
                &&& encode::plan(line, symbols, q.lc) matches Ok((Action::Encode { insn: i, col }, lc))
                    && i == built && col == insn.mnemonic_col && holds(lc, q.lc + words)
                &&& match reply {
                    Ok(bytes) => encode::pass2_step(line, symbols, q, reply) matches Ok(r) && adds(
                        q,
                        r,
                        bytes,
                        seq![built],
                        words,
                    ),
                    Err(why) => encode::pass2_step(line, symbols, q, reply) == Err::<
                        Pass2,
                        ErrorView,
                    >(
                        ErrorView {
                            line: line.line,
                            col: insn.mnemonic_col,
                            message: "encode failed: "@ + why,
                        },
                    ),
                }
            },
        },
{
    match (encode::machine_of(insn, symbols, q.lc, line.line), reply) {
        (Ok(built), Ok(bytes)) => {
            let r = encode::pass2_step(line, symbols, q, reply)->Ok_0;
            assert(r.instructions =~= q.instructions + seq![built]);
        },
        _ => {},
    }
}

/// What a line asks of pass 2: nothing, the end, a word, zeros or an
/// instruction, and how far it moves it.
pub proof fn law_plan(line: LineView, symbols: Symbols, lc: i64)
    ensures
        ({
            let planned = encode::plan(line, symbols, lc);
            match line.body {
                BodyView::Empty => planned == Ok::<(Action, i64), ErrorView>((Action::Skip, lc)),
                BodyView::Directive(DirectiveView::Equ(_)) => planned == Ok::<
                    (Action, i64),
                    ErrorView,
                >((Action::Skip, lc)),
                BodyView::Directive(DirectiveView::Abs) => planned == Ok::<
                    (Action, i64),
                    ErrorView,
                >((Action::Skip, lc)),
                BodyView::Directive(DirectiveView::End(_)) => planned == Ok::<
                    (Action, i64),
                    ErrorView,
                >((Action::End, lc)),
                BodyView::Directive(DirectiveView::Dc(op)) => symtab::value_at(
                    op,
                    symbols,
                    lc,
                ) matches Ok(v) ==> {
                    &&& planned matches Ok((Action::Word(w), next))
                    &&& (v - w) % 0x1_0000 == 0
                    &&& holds(next, lc + 1)
                },
                BodyView::Directive(DirectiveView::Bss(op)) => symtab::value_at(
                    op,
                    symbols,
                    lc,
                ) matches Ok(n) ==> (n >= 0 ==> {
                    &&& planned matches Ok((Action::Zeros(words), next))
                    &&& words == n
                    &&& holds(next, lc + n)
                }),
                BodyView::Directive(DirectiveView::Org(op)) => symtab::value_at(
                    op,
                    symbols,
                    lc,
                ) matches Ok(v) ==> (v >= lc ==> {
                    &&& planned matches Ok((Action::Zeros(words), next))
                    &&& words == v - lc
                    &&& next == v
                }),
                BodyView::Instruction(insn) => match encode::machine_of(
                    insn,
                    symbols,
                    lc,
                    line.line,
                ) {
                    Err(e) => planned == Err::<(Action, i64), ErrorView>(e),
                    Ok(built) => {
                        &&& planned matches Ok((Action::Encode { insn: asked, col }, next))
                        &&& asked == built
                        &&& col == insn.mnemonic_col
                        &&& built is Short ==> holds(next, lc + 1)
                        &&& built is Long ==> holds(next, lc + 2)
                    },
                },
            }
        }),
{
    symtab::lemma_wrap64_same(lc);
}

/// Pass 2 asks the encoder for the instructions that it builds of the lines
/// it comes to, and for nothing else.
pub proof fn law_request(
    lines: Seq<LineView>,
    symbols: Symbols,
    replies: Seq<ReplyView>,
    k: int,
    built: isa::Instruction,
)
    ensures
        encode::request(lines, symbols, replies, k) == Some(built) <==> {
            &&& encode::pass2_after(lines, symbols, replies, k) matches Ok(q)
            &&& !q.ended
            &&& lines[k].body matches BodyView::Instruction(insn)
            &&& encode::machine_of(insn, symbols, q.lc, lines[k].line) == Ok::<
                isa::Instruction,
                ErrorView,
            >(built)
        },
{
}

/// The answers that pass 2 goes by are those that the encoder gave to what it
/// was asked for.
pub proof fn law_answers<F: Fn(isa::Instruction) -> Reply>(
    encoder: F,
    lines: Seq<LineView>,
    symbols: Symbols,
    replies: Seq<Reply>,
    k: int,
    built: isa::Instruction,
)
    requires
        encode::answers(encoder, lines, symbols, replies),
        0 <= k < lines.len(),
        encode::request(lines, symbols, encode::reply_views(replies), k) == Some(built),
    ensures
        k < replies.len(),
        call_ensures(encoder, (built,), replies[k]),
        replies[k] matches Ok(bytes) ==> encode::reply_views(replies)[k] == Ok::<
            Seq<u8>,
            Seq<char>,
        >(bytes@),
        replies[k] matches Err(why) ==> encode::reply_views(replies)[k] == Err::<
            Seq<u8>,
            Seq<char>,
        >(why@),
{
}

} // verus!
