//! What holds of the assembler as a whole, over all programs.

use crate::encode;
use crate::encode::{Action, Pass2, ReplyView};
use crate::grammar;
use crate::isa;
use crate::layout;
use crate::parser::{BodyView, DirectiveView, InstructionView, LineView, OperandView};
use crate::symtab;
use crate::symtab::{Pass1, Symbols};
use crate::text;
use crate::ErrorView;
use vstd::prelude::*;

verus! {

/// The size that pass 1 reckons with is the size of the instruction that
/// pass 2 builds.
pub proof fn law_size_is_built(insn: InstructionView, symbols: Symbols, lc: i64, line: u32)
    ensures
        encode::machine_of(insn, symbols, lc, line) matches Ok(built) ==> built.words()
            == symtab::instruction_words(insn, encode::is_stretched(insn, symbols, lc, line)),
{
}

/// An instruction is long exactly where a flag or its mnemonic asks for it,
/// or a symbolic operand has a value outside of -128 and 127 or stands in a
/// line that pass 1 stretched: `I` and `L` force the long form, `XIO` has no
/// other, a bare number alone stays short. `WAIT` and the shifts are never
/// long.
pub proof fn law_form(insn: InstructionView, symbols: Symbols, lc: i64, line: u32)
    ensures
        encode::machine_of(insn, symbols, lc, line) matches Ok(built) ==> {
            &&& built is Long <==> !encode::short_only(insn.mnemonic) && (insn.long_flag
                || insn.indirect_flag || insn.mnemonic == "xio"@ || encode::alias_condition(
                insn.mnemonic,
            ) is Some || (encode::symbolic(insn.operand) && (symbols.stretched.contains(line)
                || !(symtab::value_at(insn.operand->0, symbols, lc) matches Ok(v) && -128 <= v
                <= 127))))
            &&& insn.indirect_flag ==> built is Long && built->indirect
            &&& built is Long ==> built->indirect == insn.indirect_flag
        },
{
}

/// An instruction with a symbolic operand and no flag takes the form that
/// the operand's value asks for, unless its mnemonic has one form only or
/// pass 1 stretched the line: short with the value as displacement if it
/// fits, long otherwise.
pub proof fn law_open_form(
    insn: InstructionView,
    op: isa::Opcode,
    symbols: Symbols,
    lc: i64,
    line: u32,
    v: i64,
)
    requires
        encode::is_open(insn),
        encode::opcode_of(insn.mnemonic) == Some(op),
        symtab::value_at(insn.operand->0, symbols, lc) == Ok::<i64, Seq<char>>(v),
    ensures
        -128 <= v <= 127 && !symbols.stretched.contains(line) ==> encode::machine_of(insn, symbols, lc, line) == Ok::<
            isa::Instruction,
            ErrorView,
        >(isa::Instruction::Short { op, tag: insn.tag, disp: v as i8 }),
        !(-128 <= v <= 127 && !symbols.stretched.contains(line)) ==> encode::machine_of(insn, symbols, lc, line) == encode::long_of(
            insn,
            op,
            symbols,
            lc,
            line,
        ),
{
}

/// A name that was just bound has the value it was bound to, every other
/// name is as before, and binding the name again is an error, which tells the
/// line that bound it.
pub proof fn law_define(symbols: Symbols, name: Seq<char>, value: i64, line: u32, col: u32)
    ensures
        symbols.map.contains_key(name) ==> symtab::value_of(symbols, name) == Some(
            symbols.map[name].value,
        ),
        !symbols.map.contains_key(name) ==> symtab::value_of(symbols, name) is None,
        symtab::defined(symbols, name, value, line, col) is Ok <==> symtab::value_of(symbols, name)
            is None,
        symtab::defined(symbols, name, value, line, col) matches Ok(after) ==> {
            &&& symtab::value_of(after, name) == Some(value)
            &&& after.map[name].line == line
            &&& after.map[name].col == col
            &&& after.stretched == symbols.stretched
            &&& forall|other: Seq<char>|
                other != name ==> #[trigger] symtab::value_of(after, other) == symtab::value_of(
                    symbols,
                    other,
                )
            &&& forall|v: i64, l: u32, c: u32|
                symtab::defined(after, name, v, l, c) == Err::<Symbols, ErrorView>(
                    ErrorView {
                        line: l,
                        col: c,
                        message: "duplicate label `"@ + name + "`; previously defined at line "@
                            + text::decimal(line as int),
                    },
                )
        },
{
}

/// A line of pass 1 takes nothing out of the table.
proof fn lemma_step_keeps(line: LineView, p: Pass1)
    ensures
        p.symbols.map.submap_of(symtab::pass1_step(line, p).symbols.map),
{
}

/// What pass 1 has bound stays bound to the same value.
pub proof fn law_bindings_stay(lines: Seq<LineView>, stretched: Set<u32>, n: int, m: int)
    requires
        0 <= n <= m,
    ensures
        symtab::pass1_after(lines, stretched, n).symbols.map.submap_of(
            symtab::pass1_after(lines, stretched, m).symbols.map,
        ),
    decreases m - n,
{
    if n < m {
        let p = symtab::pass1_after(lines, stretched, m - 1);
        law_bindings_stay(lines, stretched, n, m - 1);
        if !p.ended {
            lemma_step_keeps(lines[m - 1], p);
            vstd::map_lib::lemma_submap_of_trans(
                symtab::pass1_after(lines, stretched, n).symbols.map,
                p.symbols.map,
                symtab::pass1_step(lines[m - 1], p).symbols.map,
            );
        }
    }
}

/// An operand that resolves in a table resolves to the same value in every
/// larger one.
proof fn lemma_value_stays(op: OperandView, symbols: Symbols, more: Symbols, lc: i64)
    requires
        symbols.map.submap_of(more.map),
        symtab::value_at(op, symbols, lc) is Ok,
    ensures
        symtab::value_at(op, more, lc) == symtab::value_at(op, symbols, lc),
    decreases op,
{
    match op {
        OperandView::Offset { base, delta } => {
            lemma_value_stays(*base, symbols, more, lc);
        },
        OperandView::Multiply { lhs, rhs } => {
            lemma_value_stays(*rhs, symbols, more, lc);
        },
        _ => {},
    }
}

/// One line moves both passes to the same location, if neither fails.
proof fn lemma_step_agrees(line: LineView, p: Pass1, symbols: Symbols, action: Action, lc: i64)
    requires
        symtab::fault_of(line, p) is None,
        p.symbols.stretched == symbols.stretched,
        symtab::pass1_step(line, p).symbols.map.submap_of(symbols.map),
        symtab::is_out(line, symbols, p.lc) ==> symbols.stretched.contains(line.line),
        encode::plan(line, symbols, p.lc) == Ok::<(Action, i64), ErrorView>((action, lc)),
        !p.ended,
    ensures
        symtab::pass1_step(line, p).lc == lc,
        symtab::pass1_step(line, p).ended <==> action is End,
{
    let q = symtab::pass1_step(line, p);
    match line.body {
        BodyView::Directive(DirectiveView::Org(op)) => {
            lemma_value_stays(op, q.symbols, symbols, p.lc);
        },
        BodyView::Directive(DirectiveView::Bss(op)) => {
            lemma_value_stays(op, q.symbols, symbols, p.lc);
        },
        _ => {},
    }
}

/// What holds of a line in the last walk of a program that passes.
proof fn lemma_last_walk(lines: Seq<LineView>, symbols: Symbols, k: int)
    requires
        0 <= k < lines.len(),
        symtab::pass1_of(lines) == Ok::<Symbols, ErrorView>(symbols),
        !symtab::pass1_after(lines, symbols.stretched, k).ended,
    ensures
        ({
            let p = symtab::pass1_after(lines, symbols.stretched, k);
            &&& symtab::fault_of(lines[k], p) is None
            &&& p.symbols.stretched == symbols.stretched
            &&& symtab::pass1_after(lines, symbols.stretched, k + 1) == symtab::pass1_step(
                lines[k],
                p,
            )
            &&& symtab::pass1_step(lines[k], p).symbols.map.submap_of(symbols.map)
            &&& symtab::is_out(lines[k], symbols, p.lc) ==> symbols.stretched.contains(
                lines[k].line,
            )
        }),
{
    let len = lines.len() as int;
    layout::law_forms_are_settled(lines, symbols, k);
    symtab::lemma_stretched(lines, symbols.stretched, k);
    layout::lemma_no_fault(lines, symbols.stretched, k, len);
    law_bindings_stay(lines, symbols.stretched, k + 1, len);
}

/// The two passes agree on the location of every line: behind the same lines
/// of a program that passes both, they stand at the same place.
pub proof fn law_passes_agree(
    lines: Seq<LineView>,
    symbols: Symbols,
    replies: Seq<ReplyView>,
    n: int,
    q: Pass2,
)
    requires
        0 <= n <= lines.len(),
        symtab::pass1_of(lines) == Ok::<Symbols, ErrorView>(symbols),
        encode::pass2_after(lines, symbols, replies, n) == Ok::<Pass2, ErrorView>(q),
    ensures
        symtab::pass1_after(lines, symbols.stretched, n).lc == q.lc,
        symtab::pass1_after(lines, symbols.stretched, n).ended == q.ended,
    decreases n,
{
    if n > 0 {
        let p = symtab::pass1_after(lines, symbols.stretched, n - 1);
        let q0 = encode::pass2_after(lines, symbols, replies, n - 1)->Ok_0;
        law_passes_agree(lines, symbols, replies, n - 1, q0);
        if !p.ended {
            lemma_last_walk(lines, symbols, n - 1);
            let (action, lc) = encode::plan(lines[n - 1], symbols, q0.lc)->Ok_0;
            lemma_step_agrees(lines[n - 1], p, symbols, action, lc);
        }
    }
}

/// A line of pass 1 binds its label to the location, unless it is an `EQU`.
proof fn lemma_step_binds(line: LineView, p: Pass1)
    requires
        symtab::fault_of(line, p) is None,
        line.label is Some,
        !(line.body is Directive && line.body->Directive_0 is Equ),
    ensures
        symtab::value_of(symtab::pass1_step(line, p).symbols, line.label->0.name) == Some(p.lc),
{
}

/// A label that is not an `EQU`'s has for its value the location at which
/// pass 2 emits the label's line. Labels behind their uses are no different:
/// the table is that of the whole program.
pub proof fn law_label_is_location(
    lines: Seq<LineView>,
    symbols: Symbols,
    replies: Seq<ReplyView>,
    k: int,
    q: Pass2,
)
    requires
        0 <= k < lines.len(),
        symtab::pass1_of(lines) == Ok::<Symbols, ErrorView>(symbols),
        encode::pass2_after(lines, symbols, replies, k) == Ok::<Pass2, ErrorView>(q),
        !q.ended,
        lines[k].label is Some,
        !(lines[k].body is Directive && lines[k].body->Directive_0 is Equ),
    ensures
        symtab::value_of(symbols, lines[k].label->0.name) == Some(q.lc),
{
    let p = symtab::pass1_after(lines, symbols.stretched, k);
    law_passes_agree(lines, symbols, replies, k, q);
    lemma_last_walk(lines, symbols, k);
    lemma_step_binds(lines[k], p);
}

/// An `EQU` label has for its value what the operand is worth at that place.
pub proof fn law_equ_binds(lines: Seq<LineView>, symbols: Symbols, k: int, op: OperandView)
    requires
        0 <= k < lines.len(),
        symtab::pass1_of(lines) == Ok::<Symbols, ErrorView>(symbols),
        !symtab::pass1_after(lines, symbols.stretched, k).ended,
        lines[k].body == BodyView::Directive(DirectiveView::Equ(op)),
    ensures
        lines[k].label is Some,
        ({
            let p = symtab::pass1_after(lines, symbols.stretched, k);
            symtab::value_at(op, p.symbols, p.lc) matches Ok(v) && symtab::value_of(
                symbols,
                lines[k].label->0.name,
            ) == Some(v)
        }),
{
    let p = symtab::pass1_after(lines, symbols.stretched, k);
    lemma_last_walk(lines, symbols, k);
    lemma_equ_binds(lines[k], p, op);
}

proof fn lemma_equ_binds(line: LineView, p: Pass1, op: OperandView)
    requires
        symtab::fault_of(line, p) is None,
        line.body == BodyView::Directive(DirectiveView::Equ(op)),
    ensures
        line.label is Some,
        symtab::value_at(op, p.symbols, p.lc) matches Ok(v) && symtab::value_of(
            symtab::pass1_step(line, p).symbols,
            line.label->0.name,
        ) == Some(v),
{
}

/// Whether the encoder gives every instruction the bytes of its words.
pub open spec fn right_sizes(
    lines: Seq<LineView>,
    symbols: Symbols,
    replies: Seq<ReplyView>,
) -> bool {
    forall|k: int|
        0 <= k < lines.len() ==> (#[trigger] encode::request(lines, symbols, replies, k)
            matches Some(insn) ==> (replies[k] matches Ok(bytes) ==> bytes.len() == 2
            * insn.words()))
}

proof fn lemma_wrap64(n: int)
    requires
        i64::MIN <= n <= i64::MAX,
    ensures
        symtab::wrap64(n) == n,
{
}

/// The words that an action emits.
spec fn words_of(action: Action) -> int {
    match action {
        Action::Zeros(n) => n as int,
        Action::Word(_) => 1,
        Action::Encode { insn, col } => insn.words(),
        _ => 0,
    }
}

/// A line moves the location by the words that it emits.
proof fn lemma_plan_moves(line: LineView, symbols: Symbols, lc: i64, action: Action, next: i64)
    requires
        encode::plan(line, symbols, lc) == Ok::<(Action, i64), ErrorView>((action, next)),
    ensures
        next == symtab::wrap64(lc + words_of(action)),
{
    lemma_wrap64(lc as int);
    lemma_wrap64(next as int);
    match line.body {
        BodyView::Instruction(insn) => {
            law_size_is_built(insn, symbols, lc, line.line);
        },
        _ => {},
    }
}

/// One line of pass 2 emits two bytes for each word that the location moves.
proof fn lemma_step_emits(line: LineView, symbols: Symbols, q: Pass2, reply: ReplyView, r: Pass2)
    requires
        encode::pass2_step(line, symbols, q, reply) == Ok::<Pass2, ErrorView>(r),
        q.bytes.len() == 2 * q.lc,
        r.bytes.len() <= usize::MAX,
        encode::plan(line, symbols, q.lc) matches Ok((Action::Encode { insn, col }, lc)) ==> (
        reply matches Ok(bytes) ==> bytes.len() == 2 * insn.words()),
    ensures
        r.bytes.len() == 2 * r.lc,
{
    let (action, next) = encode::plan(line, symbols, q.lc)->Ok_0;
    lemma_plan_moves(line, symbols, q.lc, action, next);
    assert(r.bytes.len() == q.bytes.len() + 2 * words_of(action));
    lemma_wrap64(q.lc + words_of(action));
}

proof fn lemma_step_grows(line: LineView, symbols: Symbols, q: Pass2, reply: ReplyView, r: Pass2)
    requires
        encode::pass2_step(line, symbols, q, reply) == Ok::<Pass2, ErrorView>(r),
    ensures
        q.bytes.is_prefix_of(r.bytes),
        q.instructions.is_prefix_of(r.instructions),
{
}

/// Pass 2 only ever adds to its output.
pub proof fn law_output_grows(
    lines: Seq<LineView>,
    symbols: Symbols,
    replies: Seq<ReplyView>,
    n: int,
    m: int,
    q: Pass2,
    r: Pass2,
)
    requires
        0 <= n <= m,
        encode::pass2_after(lines, symbols, replies, n) == Ok::<Pass2, ErrorView>(q),
        encode::pass2_after(lines, symbols, replies, m) == Ok::<Pass2, ErrorView>(r),
    ensures
        q.bytes.is_prefix_of(r.bytes),
        q.instructions.is_prefix_of(r.instructions),
    decreases m - n,
{
    if n < m {
        let before = encode::pass2_after(lines, symbols, replies, m - 1)->Ok_0;
        law_output_grows(lines, symbols, replies, n, m - 1, q, before);
        if !before.ended {
            lemma_step_grows(lines[m - 1], symbols, before, replies[m - 1], r);
        }
    }
}

/// The location counter counts the words that were emitted: with an encoder
/// that gives every instruction the bytes of its words, the output behind any
/// line is two bytes for each word up to there. (The output is a vector, so
/// its length fits a `usize`.)
pub proof fn law_location_counts_words(
    lines: Seq<LineView>,
    symbols: Symbols,
    replies: Seq<ReplyView>,
    n: int,
    q: Pass2,
)
    requires
        0 <= n <= lines.len(),
        encode::pass2_after(lines, symbols, replies, n) == Ok::<Pass2, ErrorView>(q),
        right_sizes(lines, symbols, replies),
        q.bytes.len() <= usize::MAX,
    ensures
        q.bytes.len() == 2 * q.lc,
    decreases n,
{
    if n > 0 {
        let before = encode::pass2_after(lines, symbols, replies, n - 1)->Ok_0;
        law_output_grows(lines, symbols, replies, n - 1, n, before, q);
        law_location_counts_words(lines, symbols, replies, n - 1, before);
        if !before.ended {
            assert(encode::request(lines, symbols, replies, n - 1) matches Some(insn) ==> (
            replies[n - 1] matches Ok(bytes) ==> bytes.len() == 2 * insn.words()));
            lemma_step_emits(lines[n - 1], symbols, before, replies[n - 1], q);
        }
    }
}

/// A label names the word of the output at which its line begins: what pass
/// 2 has emitted before the line is the beginning of the output, and takes
/// two bytes for each word of the label's value.
pub proof fn law_label_is_address(
    lines: Seq<LineView>,
    symbols: Symbols,
    replies: Seq<ReplyView>,
    k: int,
    q: Pass2,
    out: encode::OutputView,
)
    requires
        0 <= k < lines.len(),
        symtab::pass1_of(lines) == Ok::<Symbols, ErrorView>(symbols),
        encode::pass2_of(lines, symbols, replies) == Ok::<encode::OutputView, ErrorView>(out),
        encode::pass2_after(lines, symbols, replies, k) == Ok::<Pass2, ErrorView>(q),
        !q.ended,
        right_sizes(lines, symbols, replies),
        out.bytes.len() <= usize::MAX,
        lines[k].label is Some,
        !(lines[k].body is Directive && lines[k].body->Directive_0 is Equ),
    ensures
        q.bytes.is_prefix_of(out.bytes),
        symtab::value_of(symbols, lines[k].label->0.name) matches Some(v) && q.bytes.len() == 2 * v,
{
    let r = encode::pass2_after(lines, symbols, replies, lines.len() as int)->Ok_0;
    law_output_grows(lines, symbols, replies, k, lines.len() as int, q, r);
    law_location_counts_words(lines, symbols, replies, k, q);
    law_label_is_location(lines, symbols, replies, k, q);
}

/// Whether an entry of the instruction list stands for a run of bytes: it is
/// that of a data word with these two bytes, or an instruction for which some
/// line asked the encoder and got them.
pub open spec fn stands_for(
    entry: isa::Instruction,
    code: Seq<u8>,
    lines: Seq<LineView>,
    symbols: Symbols,
    replies: Seq<ReplyView>,
) -> bool {
    ||| exists|w: u16| entry == #[trigger] encode::data_entry(w) && code == encode::word_bytes(w)
    ||| exists|k: int|
        0 <= k < lines.len() && #[trigger] encode::request(lines, symbols, replies, k) == Some(
            entry,
        ) && replies[k] == Ok::<Seq<u8>, Seq<char>>(code)
}

/// Whether `cuts` divides the bytes into one run for each entry of the
/// instruction list.
pub open spec fn divides(
    cuts: Seq<int>,
    q: Pass2,
    lines: Seq<LineView>,
    symbols: Symbols,
    replies: Seq<ReplyView>,
) -> bool {
    &&& cuts.len() == q.instructions.len() + 1
    &&& cuts[0] == 0
    &&& cuts.last() == q.bytes.len()
    &&& forall|i: int|
        0 <= i < q.instructions.len() ==> {
            &&& 0 <= #[trigger] cuts[i] <= cuts[i + 1] <= q.bytes.len()
            &&& stands_for(
                q.instructions[i],
                q.bytes.subrange(cuts[i], cuts[i + 1]),
                lines,
                symbols,
                replies,
            )
        }
}

/// More output leaves the runs before it as they are.
proof fn lemma_divides_more(
    cuts: Seq<int>,
    q: Pass2,
    more: Seq<int>,
    r: Pass2,
    lines: Seq<LineView>,
    symbols: Symbols,
    replies: Seq<ReplyView>,
)
    requires
        divides(cuts, q, lines, symbols, replies),
        q.bytes.is_prefix_of(r.bytes),
        q.instructions.is_prefix_of(r.instructions),
        cuts.is_prefix_of(more),
        more.len() == r.instructions.len() + 1,
        more.last() == r.bytes.len(),
        forall|i: int|
            q.instructions.len() <= i < r.instructions.len() ==> {
                &&& 0 <= #[trigger] more[i] <= more[i + 1] <= r.bytes.len()
                &&& stands_for(
                    r.instructions[i],
                    r.bytes.subrange(more[i], more[i + 1]),
                    lines,
                    symbols,
                    replies,
                )
            },
    ensures
        divides(more, r, lines, symbols, replies),
{
    assert(more[0] == cuts[0]);
    assert forall|i: int| 0 <= i < r.instructions.len() implies {
        &&& 0 <= #[trigger] more[i] <= more[i + 1] <= r.bytes.len()
        &&& stands_for(
            r.instructions[i],
            r.bytes.subrange(more[i], more[i + 1]),
            lines,
            symbols,
            replies,
        )
    } by {
        if i < q.instructions.len() {
            assert(more[i] == cuts[i]);
            assert(more[i + 1] == cuts[i + 1]);
            assert(r.instructions[i] == q.instructions[i]);
            assert(r.bytes.subrange(more[i], more[i + 1]) =~= q.bytes.subrange(
                cuts[i],
                cuts[i + 1],
            ));
        }
    }
}

/// One more entry and its bytes.
proof fn lemma_divides_one(
    cuts: Seq<int>,
    q: Pass2,
    r: Pass2,
    entry: isa::Instruction,
    code: Seq<u8>,
    lines: Seq<LineView>,
    symbols: Symbols,
    replies: Seq<ReplyView>,
)
    requires
        divides(cuts, q, lines, symbols, replies),
        r.bytes == q.bytes + code,
        r.instructions == q.instructions.push(entry),
        stands_for(entry, code, lines, symbols, replies),
    ensures
        divides(cuts.push(r.bytes.len() as int), r, lines, symbols, replies),
{
    let size = q.bytes.len() as int;
    let more = cuts.push(r.bytes.len() as int);
    assert(r.bytes.subrange(size, r.bytes.len() as int) =~= code);
    lemma_divides_more(cuts, q, more, r, lines, symbols, replies);
}

/// Some zero words more.
proof fn lemma_divides_zeros(
    cuts: Seq<int>,
    q: Pass2,
    r: Pass2,
    n: u64,
    lines: Seq<LineView>,
    symbols: Symbols,
    replies: Seq<ReplyView>,
)
    requires
        divides(cuts, q, lines, symbols, replies),
        r.bytes == q.bytes + Seq::new((2 * n) as nat, |i: int| 0u8),
        r.instructions == q.instructions + Seq::new(n as nat, |i: int| encode::data_entry(0)),
    ensures
        divides(
            cuts + Seq::new(n as nat, |i: int| q.bytes.len() + 2 * (i + 1)),
            r,
            lines,
            symbols,
            replies,
        ),
{
    let size = q.bytes.len() as int;
    let count = q.instructions.len() as int;
    let more = cuts + Seq::new(n as nat, |i: int| q.bytes.len() + 2 * (i + 1));
    assert forall|i: int| count <= i < r.instructions.len() implies {
        &&& 0 <= #[trigger] more[i] <= more[i + 1] <= r.bytes.len()
        &&& stands_for(
            r.instructions[i],
            r.bytes.subrange(more[i], more[i + 1]),
            lines,
            symbols,
            replies,
        )
    } by {
        assert(more[i] == size + 2 * (i - count));
        assert(more[i + 1] == more[i] + 2);
        assert(r.instructions[i] == encode::data_entry(0));
        assert(r.bytes.subrange(more[i], more[i + 1]) =~= encode::word_bytes(0));
    }
    lemma_divides_more(cuts, q, more, r, lines, symbols, replies);
}

/// One line more.
proof fn lemma_divides_step(
    cuts: Seq<int>,
    q: Pass2,
    r: Pass2,
    k: int,
    lines: Seq<LineView>,
    symbols: Symbols,
    replies: Seq<ReplyView>,
) -> (more: Seq<int>)
    requires
        0 <= k < lines.len(),
        divides(cuts, q, lines, symbols, replies),
        encode::pass2_after(lines, symbols, replies, k) == Ok::<Pass2, ErrorView>(q),
        !q.ended,
        encode::pass2_step(lines[k], symbols, q, replies[k]) == Ok::<Pass2, ErrorView>(r),
    ensures
        divides(more, r, lines, symbols, replies),
{
    let (action, lc) = encode::plan(lines[k], symbols, q.lc)->Ok_0;
    match action {
        Action::Zeros(n) => {
            lemma_divides_zeros(cuts, q, r, n, lines, symbols, replies);
            cuts + Seq::new(n as nat, |i: int| q.bytes.len() + 2 * (i + 1))
        },
        Action::Word(w) => {
            let entry = encode::data_entry(w);
            lemma_divides_one(cuts, q, r, entry, encode::word_bytes(w), lines, symbols, replies);
            cuts.push(r.bytes.len() as int)
        },
        Action::Encode { insn, col } => {
            let code = replies[k]->Ok_0;
            assert(encode::request(lines, symbols, replies, k) == Some(insn));
            lemma_divides_one(cuts, q, r, insn, code, lines, symbols, replies);
            cuts.push(r.bytes.len() as int)
        },
        _ => cuts,
    }
}

/// The instruction list is parallel to the bytes: the bytes divide, in
/// order, into what the entries of the list stand for.
pub proof fn law_output_is_parallel(
    lines: Seq<LineView>,
    symbols: Symbols,
    replies: Seq<ReplyView>,
    n: int,
    q: Pass2,
) -> (cuts: Seq<int>)
    requires
        0 <= n <= lines.len(),
        encode::pass2_after(lines, symbols, replies, n) == Ok::<Pass2, ErrorView>(q),
    ensures
        divides(cuts, q, lines, symbols, replies),
    decreases n,
{
    if n <= 0 {
        seq![0int]
    } else {
        let before = encode::pass2_after(lines, symbols, replies, n - 1)->Ok_0;
        let cuts = law_output_is_parallel(lines, symbols, replies, n - 1, before);
        if before.ended {
            cuts
        } else {
            lemma_divides_step(cuts, before, q, n - 1, lines, symbols, replies)
        }
    }
}

proof fn lemma_pass1_append(
    lines: Seq<LineView>,
    tail: Seq<LineView>,
    stretched: Set<u32>,
    n: int,
)
    requires
        n <= lines.len(),
    ensures
        symtab::pass1_after(lines + tail, stretched, n) == symtab::pass1_after(lines, stretched, n),
        symtab::fault_within(lines + tail, stretched, n) == symtab::fault_within(
            lines,
            stretched,
            n,
        ),
    decreases n,
{
    if n > 0 {
        lemma_pass1_append(lines, tail, stretched, n - 1);
        assert((lines + tail)[n - 1] == lines[n - 1]);
    }
}

proof fn lemma_grown_append(lines: Seq<LineView>, tail: Seq<LineView>, symbols: Symbols, n: int)
    requires
        n <= lines.len(),
    ensures
        symtab::grown(lines + tail, symbols, n) == symtab::grown(lines, symbols, n),
    decreases n,
{
    if n > 0 {
        lemma_grown_append(lines, tail, symbols, n - 1);
        lemma_pass1_append(lines, tail, symbols.stretched, n - 1);
        assert((lines + tail)[n - 1] == lines[n - 1]);
    }
}

/// Whether a line is an `END`.
pub open spec fn ends(line: LineView) -> bool {
    line.body is Directive && line.body->Directive_0 is End
}

/// A walk over a program that ends finds the same with more lines behind it.
proof fn lemma_walk_append(lines: Seq<LineView>, tail: Seq<LineView>, stretched: Set<u32>)
    requires
        lines.len() > 0,
        ends(lines.last()),
    ensures
        ({
            let n = lines.len() as int;
            let m = (lines + tail).len() as int;
            let symbols = symtab::walk_of(lines, stretched);
            &&& symtab::walk_of(lines + tail, stretched) == symbols
            &&& symtab::fault_within(lines + tail, stretched, m) == symtab::fault_within(
                lines,
                stretched,
                n,
            )
            &&& symtab::grown(lines + tail, symbols, m) == symtab::grown(lines, symbols, n)
        }),
{
    let n = lines.len() as int;
    let m = (lines + tail).len() as int;
    let symbols = symtab::walk_of(lines, stretched);
    symtab::lemma_stretched(lines, stretched, n);
    lemma_pass1_append(lines, tail, stretched, n);
    symtab::lemma_pass1_stays(lines + tail, stretched, n, m);
    lemma_grown_append(lines, tail, symbols, n);
    symtab::lemma_grown_stays(lines + tail, symbols, n, m);
}

proof fn lemma_settled_append(lines: Seq<LineView>, tail: Seq<LineView>, stretched: Set<u32>)
    requires
        lines.len() > 0,
        ends(lines.last()),
    ensures
        symtab::settled_from(lines + tail, stretched) == symtab::settled_from(lines, stretched),
    decreases symtab::loose(lines, stretched, lines.len() as int),
{
    let symbols = symtab::walk_of(lines, stretched);
    let more = symtab::grown(lines, symbols, lines.len() as int);
    lemma_walk_append(lines, tail, stretched);
    if more != stretched {
        symtab::lemma_growth_ends(lines, stretched);
        lemma_settled_append(lines, tail, more);
    }
}

pub(crate) proof fn lemma_pass2_append(
    lines: Seq<LineView>,
    tail: Seq<LineView>,
    symbols: Symbols,
    replies: Seq<ReplyView>,
    n: int,
)
    requires
        n <= lines.len(),
    ensures
        encode::pass2_after(lines + tail, symbols, replies, n) == encode::pass2_after(
            lines,
            symbols,
            replies,
            n,
        ),
    decreases n,
{
    if n > 0 {
        lemma_pass2_append(lines, tail, symbols, replies, n - 1);
        assert((lines + tail)[n - 1] == lines[n - 1]);
    }
}

/// An `END` ends the program: nothing behind it has any effect, on symbols or
/// output, and the line itself emits nothing.
#[verifier::spinoff_prover]
pub proof fn law_end_ends(
    lines: Seq<LineView>,
    tail: Seq<LineView>,
    symbols: Symbols,
    replies: Seq<ReplyView>,
)
    requires
        lines.len() > 0,
        lines.last().body is Directive,
        lines.last().body->Directive_0 is End,
    ensures
        symtab::pass1_of(lines + tail) == symtab::pass1_of(lines),
        encode::pass2_of(lines + tail, symbols, replies) == encode::pass2_of(
            lines,
            symbols,
            replies,
        ),
        encode::pass2_of(lines, symbols, replies) == encode::pass2_of(
            lines.drop_last(),
            symbols,
            replies,
        ),
{
    let n = lines.len() as int;
    let m = (lines + tail).len() as int;
    lemma_settled_append(lines, tail, Set::empty());
    lemma_walk_append(lines, tail, symtab::settled_of(lines).stretched);
    lemma_pass2_append(lines, tail, symbols, replies, n);
    encode::lemma_pass2_stays(lines + tail, symbols, replies, n, m);
    let before = lines.drop_last();
    let last = seq![lines.last()];
    assert(before + last =~= lines);
    lemma_pass2_append(before, last, symbols, replies, n - 1);
}

/// The proper mnemonics: one for each operation.
pub open spec fn is_proper(mnemonic: Seq<char>) -> bool {
    ||| mnemonic == "ld"@
    ||| mnemonic == "ldd"@
    ||| mnemonic == "sto"@
    ||| mnemonic == "std"@
    ||| mnemonic == "ldx"@
    ||| mnemonic == "stx"@
    ||| mnemonic == "lds"@
    ||| mnemonic == "sts"@
    ||| mnemonic == "a"@
    ||| mnemonic == "ad"@
    ||| mnemonic == "s"@
    ||| mnemonic == "sd"@
    ||| mnemonic == "m"@
    ||| mnemonic == "d"@
    ||| mnemonic == "and"@
    ||| mnemonic == "or"@
    ||| mnemonic == "eor"@
    ||| mnemonic == "sla"@
    ||| mnemonic == "sra"@
    ||| mnemonic == "bsc"@
    ||| mnemonic == "bsi"@
    ||| mnemonic == "mdx"@
    ||| mnemonic == "wait"@
    ||| mnemonic == "xio"@
}

/// Different proper mnemonics name different operations.
proof fn lemma_proper_differ(a: Seq<char>, b: Seq<char>)
    requires
        is_proper(a),
        is_proper(b),
        encode::opcode_of(a) == encode::opcode_of(b),
    ensures
        a == b,
{
    encode::lemma_spellings();
}

/// A text names an operation if it is a proper mnemonic, a shift of the pair
/// or a branch with its condition in the name, and no other text does: none
/// with a capital letter. Different proper mnemonics name different
/// operations; the shifts of the pair name those of the shifts, and the
/// branches that of `BSC`.
pub proof fn law_mnemonics(a: Seq<char>, b: Seq<char>)
    ensures
        encode::opcode_of(a) is Some <==> is_proper(a) || encode::shifts_together(a)
            || encode::alias_condition(a) is Some,
        encode::opcode_of(a) is Some ==> text::lower(a) == a,
        is_proper(a) && is_proper(b) && a != b ==> encode::opcode_of(a) != encode::opcode_of(b),
        a == "slt"@ ==> encode::opcode_of(a) == encode::opcode_of("sla"@),
        a == "srt"@ ==> encode::opcode_of(a) == encode::opcode_of("sra"@),
        encode::alias_condition(a) is Some ==> encode::opcode_of(a) == encode::opcode_of("bsc"@),
{
    encode::lemma_spellings();
    if is_proper(a) && is_proper(b) && a != b && encode::opcode_of(a) == encode::opcode_of(b) {
        lemma_proper_differ(a, b);
    }
    if encode::opcode_of(a) is Some {
        assert(1 <= a.len() <= 4);
        assert forall|i: int| 0 <= i < a.len() implies text::lower_char(#[trigger] a[i]) == a[i] by {
            assert(i == 0 || i == 1 || i == 2 || i == 3);
            assert('a' <= a[i] && a[i] <= 'z');
        }
        assert(text::lower(a) =~= a);
    }
}

/// A sign before a number works alike for all ways to write one: `-` gives
/// the negative, as 64 bits hold it, `+` the number itself; and what is no
/// number is none with a sign before it.
pub proof fn law_sign(s: Seq<char>)
    requires
        s.len() > 0 ==> !grammar::is_sign(s[0]),
    ensures
        grammar::number(seq!['+'] + s) == grammar::number(s),
        grammar::number(seq!['-'] + s) == match grammar::number(s) {
            None => None::<i64>,
            Some(n) => Some(
                if n == i64::MIN {
                    i64::MIN
                } else {
                    (-n) as i64
                },
            ),
        },
{
    assert((seq!['-'] + s).skip(1) =~= s);
    assert((seq!['+'] + s).skip(1) =~= s);
}

/// A conditional branch is `BSC` in long form with the mask that its name
/// stands for.
pub proof fn law_alias_is_bsc(insn: InstructionView, symbols: Symbols, lc: i64, line: u32, mask: u8)
    requires
        encode::alias_condition(insn.mnemonic) == Some(mask),
        insn.mask is None,
    ensures
        encode::machine_of(insn, symbols, lc, line) == encode::machine_of(
            InstructionView {
                mnemonic: "bsc"@,
                long_flag: true,
                mask: Some(OperandView::Number(mask as i64)),
                ..insn
            },
            symbols,
            lc,
            line,
        ),
{
    encode::lemma_spellings();
}

/// `SLT` and `SRT` with a count are `SLA` and `SRA` with the high bit of the
/// displacement set: a displacement that is 128 less.
pub proof fn law_shift_together(
    insn: InstructionView,
    symbols: Symbols,
    lc: i64,
    line: u32,
    count: i64,
)
    requires
        0 <= count <= 0x7f,
        insn.operand == Some(OperandView::Number(count)),
        !insn.long_flag,
        !insn.indirect_flag,
    ensures
        insn.mnemonic == "slt"@ ==> encode::machine_of(insn, symbols, lc, line)
            == encode::machine_of(
            InstructionView {
                mnemonic: "sla"@,
                operand: Some(OperandView::Number((count - 128) as i64)),
                ..insn
            },
            symbols,
            lc,
            line,
        ),
        insn.mnemonic == "srt"@ ==> encode::machine_of(insn, symbols, lc, line)
            == encode::machine_of(
            InstructionView {
                mnemonic: "sra"@,
                operand: Some(OperandView::Number((count - 128) as i64)),
                ..insn
            },
            symbols,
            lc,
            line,
        ),
{
    encode::lemma_spellings();
}

proof fn lemma_find_bounds(s: Seq<char>, c: char, pos: int)
    requires
        0 <= pos <= s.len(),
    ensures
        pos <= text::find(s, c, pos) <= s.len(),
    decreases s.len() - pos,
{
    if pos < s.len() && s[pos] != c {
        lemma_find_bounds(s, c, pos + 1);
    }
}

/// What follows a separator has no part in where the first separator is.
proof fn lemma_find_append(s: Seq<char>, c: char, tail: Seq<char>, pos: int)
    requires
        0 <= pos <= s.len(),
    ensures
        text::find(s.push(c) + tail, c, pos) == text::find(s, c, pos),
    decreases s.len() - pos,
{
    let all = s.push(c) + tail;
    if pos < s.len() {
        assert(all[pos] == s[pos]);
        if s[pos] != c {
            lemma_find_append(s, c, tail, pos + 1);
        }
    } else {
        assert(all[pos] == c);
    }
}

/// A comment says nothing: a line means the same with a `;` and any text
/// behind it.
pub proof fn law_comment_says_nothing(line: u32, raw: Seq<char>, comment: Seq<char>)
    ensures
        grammar::line_of(line, raw.push(';') + comment) == grammar::line_of(line, raw),
{
    reveal(grammar::line_of);
    let end = text::find(raw, ';', 0);
    lemma_find_bounds(raw, ';', 0);
    lemma_find_append(raw, ';', comment, 0);
    assert((raw.push(';') + comment).take(end) =~= raw.take(end));
}

/// A line that is parsed keeps its number.
proof fn lemma_line_number(line: u32, raw: Seq<char>)
    ensures
        grammar::line_of(line, raw) matches Ok(l) ==> l.line == line,
{
    reveal(grammar::line_of);
}

proof fn lemma_operand_error(line: u32, col: u32, token: Seq<char>)
    ensures
        grammar::operand_of(line, col, token) matches Err(e) ==> e.line == line && e.col == col,
    decreases token.len(),
{
    let s = text::trim(token);
    if s.len() > 0 {
        match grammar::offset_parts(s) {
            Some((base, delta)) => {
                grammar::lemma_trim_len(token);
                grammar::lemma_split_point(s, s.len() - 1);
                lemma_operand_error(line, col, base);
            },
            None => {},
        }
    }
}

pub(crate) proof fn lemma_operand_at_error(line: u32, s: Seq<char>, pos: int)
    ensures
        grammar::operand_at(line, s, pos) matches Err(e) ==> e.line == line && e.col == text::column(
            s,
            pos,
        ),
{
    match grammar::token_end(s, pos) {
        Some(end) => {
            lemma_operand_error(line, text::column(s, pos), s.subrange(pos, end));
        },
        None => {},
    }
}

proof fn lemma_body_error(line: u32, s: Seq<char>, pos: int, name: Seq<char>, col: u32)
    ensures
        grammar::body_at(line, s, pos, name, col) matches Err(e) ==> e.line == line,
{
    lemma_operand_at_error(line, s, text::skip_blanks(s, pos));
    let flags = grammar::flags_at(s, pos, grammar::no_operand(name), false, false);
    let (tag, start) = grammar::tag_at(s, flags.pos);
    lemma_operand_at_error(line, s, start);
    match grammar::operand_at(line, s, start) {
        Ok((operand, end)) => {
            lemma_operand_at_error(
                line,
                s,
                text::skip_blanks(s, text::skip_blanks(s, end) + 1),
            );
        },
        Err(_) => {},
    }
}

/// A line's error carries the line's number.
proof fn lemma_line_error(line: u32, raw: Seq<char>)
    ensures
        grammar::line_of(line, raw) matches Err(e) ==> e.line == line,
{
    reveal(grammar::line_of);
    let s = grammar::without_comment(raw);
    let (label, after_label) = grammar::label_at(s, text::skip_blanks(s, 0));
    let start = text::skip_blanks(s, after_label);
    match grammar::ident_end(s, start) {
        Some(end) => {
            lemma_body_error(
                line,
                s,
                end,
                text::lower(s.subrange(start, end)),
                text::column(s, start),
            );
        },
        None => {},
    }
}

/// A source that parses gives a line for each of its lines, with their
/// numbers from 1.
pub proof fn law_lines_are_numbered(lines: Seq<Seq<char>>, n: int, parsed: Seq<LineView>)
    requires
        0 <= n <= lines.len(),
        grammar::source_lines(lines, n) == Ok::<Seq<LineView>, ErrorView>(parsed),
    ensures
        parsed.len() == n,
        forall|k: int|
            0 <= k < n ==> (#[trigger] parsed[k]).line == text::wrap32(k + 1) && grammar::line_of(
                text::wrap32(k + 1),
                lines[k],
            ) == Ok::<LineView, ErrorView>(parsed[k]),
    decreases n,
{
    if n > 0 {
        let before = grammar::source_lines(lines, n - 1)->Ok_0;
        law_lines_are_numbered(lines, n - 1, before);
        lemma_line_number(text::wrap32(n), lines[n - 1]);
        assert forall|k: int| 0 <= k < n implies (#[trigger] parsed[k]).line == text::wrap32(k + 1)
            && grammar::line_of(text::wrap32(k + 1), lines[k]) == Ok::<LineView, ErrorView>(
            parsed[k],
        ) by {
            if k < n - 1 {
                assert(parsed[k] == before[k]);
            }
        }
    }
}

/// The error of a source that does not parse is that of its first bad line,
/// and carries that line's number.
pub proof fn law_parse_error_line(lines: Seq<Seq<char>>, n: int, e: ErrorView) -> (k: int)
    requires
        0 <= n <= lines.len(),
        grammar::source_lines(lines, n) == Err::<Seq<LineView>, ErrorView>(e),
    ensures
        0 <= k < n,
        grammar::source_lines(lines, k) is Ok,
        grammar::line_of(text::wrap32(k + 1), lines[k]) == Err::<LineView, ErrorView>(e),
        e.line == text::wrap32(k + 1),
    decreases n,
{
    if grammar::source_lines(lines, n - 1) is Err {
        law_parse_error_line(lines, n - 1, e)
    } else {
        lemma_line_error(text::wrap32(n), lines[n - 1]);
        n - 1
    }
}

proof fn lemma_pass2_step_error(line: LineView, symbols: Symbols, q: Pass2, reply: ReplyView)
    ensures
        encode::pass2_step(line, symbols, q, reply) matches Err(e) ==> e.line == line.line,
{
}

/// The error of pass 2 is that of the first line that it cannot emit, and
/// carries that line's number.
pub proof fn law_pass2_error_line(
    lines: Seq<LineView>,
    symbols: Symbols,
    replies: Seq<ReplyView>,
    n: int,
    e: ErrorView,
) -> (k: int)
    requires
        0 <= n <= lines.len(),
        encode::pass2_after(lines, symbols, replies, n) == Err::<Pass2, ErrorView>(e),
    ensures
        0 <= k < n,
        encode::pass2_after(lines, symbols, replies, k) matches Ok(q) && encode::pass2_step(
            lines[k],
            symbols,
            q,
            replies[k],
        ) == Err::<Pass2, ErrorView>(e),
        e.line == lines[k].line,
    decreases n,
{
    if encode::pass2_after(lines, symbols, replies, n - 1) is Err {
        law_pass2_error_line(lines, symbols, replies, n - 1, e)
    } else {
        lemma_pass2_step_error(
            lines[n - 1],
            symbols,
            encode::pass2_after(lines, symbols, replies, n - 1)->Ok_0,
            replies[n - 1],
        );
        n - 1
    }
}

/// A parsed instruction has its mnemonic in lower case and a tag up to 3.
pub proof fn law_parsed_instruction(line: u32, raw: Seq<char>, l: LineView, insn: InstructionView)
    requires
        grammar::line_of(line, raw) == Ok::<LineView, ErrorView>(l),
        l.body == BodyView::Instruction(insn),
    ensures
        text::lower(insn.mnemonic) == insn.mnemonic,
        insn.tag <= 3,
{
    reveal(grammar::line_of);
    let s = grammar::without_comment(raw);
    let (label, after_label) = grammar::label_at(s, text::skip_blanks(s, 0));
    let start = text::skip_blanks(s, after_label);
    let end = grammar::ident_end(s, start)->0;
    let name = text::lower(s.subrange(start, end));
    assert(text::lower(name) =~= name);
    lemma_body_instruction(line, s, end, name, text::column(s, start), insn);
}

proof fn lemma_body_instruction(
    line: u32,
    s: Seq<char>,
    pos: int,
    name: Seq<char>,
    col: u32,
    insn: InstructionView,
)
    requires
        grammar::body_at(line, s, pos, name, col) matches Ok((body, end)) && body
            == BodyView::Instruction(insn),
    ensures
        insn.mnemonic == name,
        insn.tag <= 3,
{
}

} // verus!
