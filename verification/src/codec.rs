//! Assembly with an encoder that gives an instruction the same answer each
//! time it is asked. What two calls put out is then comparable.

use crate::disasm;
use crate::disasm::{DecodeReply, Decoded};
use crate::encode;
use crate::encode::{Action, OutputView, Pass2, Reply, ReplyView};
use crate::grammar;
use crate::isa::Instruction;
use crate::laws;
use crate::parser::{BodyView, DirectiveView, InstructionView, LineView, OperandView};
use crate::roundtrip;
use crate::symtab;
use crate::symtab::Symbols;
use crate::text;
use crate::ErrorView;
use vstd::prelude::*;

verus! {

/// What an encoder answers to each instruction.
pub type Code = spec_fn(Instruction) -> ReplyView;

/// Whether an encoder answers as `code` says.
pub open spec fn follows<F: Fn(Instruction) -> Reply>(encoder: F, code: Code) -> bool {
    forall|insn: Instruction, reply: Reply| #[trigger]
        call_ensures(encoder, (insn,), reply) ==> encode::reply_view(reply) == code(insn)
}

/// Whether `code` gives every instruction that it encodes the bytes of its
/// words.
pub open spec fn is_sized(code: Code) -> bool {
    forall|insn: Instruction| #[trigger]
        code(insn) matches Ok(bytes) ==> bytes.len() == 2 * insn.words()
}

/// What `code` answers to a line at a location; no line that asks nothing
/// looks at it.
pub open spec fn reply_to(line: LineView, symbols: Symbols, lc: i64, code: Code) -> ReplyView {
    match encode::plan(line, symbols, lc) {
        Ok((Action::Encode { insn, col }, next)) => code(insn),
        _ => Ok(seq![]),
    }
}

/// Pass 2 behind the first `n` lines, with the answers of `code`.
pub open spec fn coded_after(lines: Seq<LineView>, symbols: Symbols, code: Code, n: int) -> Result<
    Pass2,
    ErrorView,
>
    decreases n,
{
    if n <= 0 {
        Ok(encode::pass2_start())
    } else {
        match coded_after(lines, symbols, code, n - 1) {
            Err(e) => Err(e),
            Ok(p) => if p.ended {
                Ok(p)
            } else {
                let line = lines[n - 1];
                encode::pass2_step(line, symbols, p, reply_to(line, symbols, p.lc, code))
            },
        }
    }
}

/// What pass 2 puts out with the answers of `code`, or its first error.
pub open spec fn pass2_coded(lines: Seq<LineView>, symbols: Symbols, code: Code) -> Result<
    OutputView,
    ErrorView,
> {
    match coded_after(lines, symbols, code, lines.len() as int) {
        Ok(p) => Ok(OutputView { bytes: p.bytes, symbols, instructions: p.instructions }),
        Err(e) => Err(e),
    }
}

/// What assembling a source text puts out with the answers of `code`, or the
/// first error.
pub open spec fn assembly_coded(source: Seq<char>, code: Code) -> Result<OutputView, ErrorView> {
    match grammar::source_of(source) {
        Err(e) => Err(e),
        Ok(lines) => match symtab::pass1_of(lines) {
            Err(e) => Err(e),
            Ok(symbols) => pass2_coded(lines, symbols, code),
        },
    }
}

/// Whether the answers are those of `code`.
spec fn is_coded(
    lines: Seq<LineView>,
    symbols: Symbols,
    replies: Seq<ReplyView>,
    code: Code,
) -> bool {
    forall|k: int|
        0 <= k < lines.len() ==> (#[trigger] encode::request(lines, symbols, replies, k)
            matches Some(insn) ==> replies[k] == code(insn))
}

proof fn lemma_coded(
    lines: Seq<LineView>,
    symbols: Symbols,
    replies: Seq<ReplyView>,
    code: Code,
    n: int,
)
    requires
        n <= lines.len(),
        is_coded(lines, symbols, replies, code),
    ensures
        encode::pass2_after(lines, symbols, replies, n) == coded_after(lines, symbols, code, n),
    decreases n,
{
    if n > 0 {
        lemma_coded(lines, symbols, replies, code, n - 1);
        assert(encode::request(lines, symbols, replies, n - 1) matches Some(insn) ==> replies[n - 1]
            == code(insn));
    }
}

/// The answers of `code` to all lines.
spec fn coded_replies(lines: Seq<LineView>, symbols: Symbols, code: Code) -> Seq<ReplyView> {
    Seq::new(
        lines.len(),
        |k: int|
            match coded_after(lines, symbols, code, k) {
                Ok(p) => reply_to(lines[k], symbols, p.lc, code),
                Err(_) => Ok(seq![]),
            },
    )
}

proof fn lemma_coded_replies(lines: Seq<LineView>, symbols: Symbols, code: Code, n: int)
    requires
        n <= lines.len(),
    ensures
        encode::pass2_after(lines, symbols, coded_replies(lines, symbols, code), n) == coded_after(
            lines,
            symbols,
            code,
            n,
        ),
    decreases n,
{
    if n > 0 {
        lemma_coded_replies(lines, symbols, code, n - 1);
    }
}

/// With an encoder that always answers alike, the output depends on nothing
/// but the source: what `assemble` returns is what `code` makes of the text.
pub proof fn law_encoder_decides<F: Fn(Instruction) -> Reply>(
    encoder: F,
    code: Code,
    source: Seq<char>,
    replies: Seq<Reply>,
)
    requires
        follows(encoder, code),
        crate::source_answers(encoder, source, replies),
    ensures
        crate::assembly_of(source, encode::reply_views(replies)) == assembly_coded(source, code),
{
    match grammar::source_of(source) {
        Ok(lines) => match symtab::pass1_of(lines) {
            Ok(symbols) => {
                law_encoder_decides_pass2(encoder, code, lines, symbols, replies);
            },
            Err(_) => {},
        },
        Err(_) => {},
    }
}

/// What `emit_pass2` returns with an encoder that always answers alike is
/// what `code` makes of the lines.
pub proof fn law_encoder_decides_pass2<F: Fn(Instruction) -> Reply>(
    encoder: F,
    code: Code,
    lines: Seq<LineView>,
    symbols: Symbols,
    replies: Seq<Reply>,
)
    requires
        follows(encoder, code),
        encode::answers(encoder, lines, symbols, replies),
    ensures
        encode::pass2_of(lines, symbols, encode::reply_views(replies)) == pass2_coded(
            lines,
            symbols,
            code,
        ),
{
    let given = encode::reply_views(replies);
    assert forall|k: int| 0 <= k < lines.len() implies (
    #[trigger] encode::request(lines, symbols, given, k) matches Some(insn) ==> given[k] == code(
        insn,
    )) by {
        match encode::request(lines, symbols, given, k) {
            Some(insn) => {
                assert(call_ensures(encoder, (insn,), replies[k]));
                assert(given[k] == encode::reply_view(replies[k]));
            },
            None => {},
        }
    }
    lemma_coded(lines, symbols, given, code, lines.len() as int);
}

proof fn lemma_coded_append(
    lines: Seq<LineView>,
    tail: Seq<LineView>,
    symbols: Symbols,
    code: Code,
    n: int,
)
    requires
        n <= lines.len(),
    ensures
        coded_after(lines + tail, symbols, code, n) == coded_after(lines, symbols, code, n),
    decreases n,
{
    if n > 0 {
        lemma_coded_append(lines, tail, symbols, code, n - 1);
        assert((lines + tail)[n - 1] == lines[n - 1]);
    }
}

proof fn lemma_coded_stays(lines: Seq<LineView>, symbols: Symbols, code: Code, n: int, m: int)
    requires
        0 <= n <= m,
        coded_after(lines, symbols, code, n) matches Ok(p) ==> p.ended,
    ensures
        coded_after(lines, symbols, code, m) == coded_after(lines, symbols, code, n),
    decreases m - n,
{
    if n < m {
        lemma_coded_stays(lines, symbols, code, n, m - 1);
    }
}

/// Nothing from an `END` on is emitted, or looked at: the output, or the
/// error, is that of the lines before it.
pub proof fn law_end_emits_nothing(lines: Seq<LineView>, symbols: Symbols, code: Code, k: int)
    requires
        0 <= k < lines.len(),
        laws::ends(lines[k]),
    ensures
        pass2_coded(lines, symbols, code) == pass2_coded(lines.take(k), symbols, code),
{
    lemma_coded_append(lines.take(k), lines.skip(k), symbols, code, k);
    assert(lines.take(k) + lines.skip(k) =~= lines);
    lemma_coded_stays(lines, symbols, code, k + 1, lines.len() as int);
}

proof fn lemma_coded_grows(
    lines: Seq<LineView>,
    symbols: Symbols,
    code: Code,
    n: int,
    m: int,
)
    requires
        0 <= n <= m <= lines.len(),
        coded_after(lines, symbols, code, m) is Ok,
    ensures
        coded_after(lines, symbols, code, n) is Ok,
        coded_after(lines, symbols, code, n)->Ok_0.bytes.is_prefix_of(
            coded_after(lines, symbols, code, m)->Ok_0.bytes,
        ),
        coded_after(lines, symbols, code, n)->Ok_0.instructions.is_prefix_of(
            coded_after(lines, symbols, code, m)->Ok_0.instructions,
        ),
    decreases m - n,
{
    if n < m {
        lemma_coded_grows(lines, symbols, code, n, m - 1);
        let replies = coded_replies(lines, symbols, code);
        lemma_coded_replies(lines, symbols, code, m - 1);
        lemma_coded_replies(lines, symbols, code, m);
        laws::law_output_grows(
            lines,
            symbols,
            replies,
            m - 1,
            m,
            coded_after(lines, symbols, code, m - 1)->Ok_0,
            coded_after(lines, symbols, code, m)->Ok_0,
        );
    }
}

/// The output is in source order: where a program is emitted, every
/// beginning of it is, and later lines alter nothing of what that puts out.
pub proof fn law_later_lines_add(
    lines: Seq<LineView>,
    tail: Seq<LineView>,
    symbols: Symbols,
    code: Code,
    out: OutputView,
)
    requires
        pass2_coded(lines + tail, symbols, code) == Ok::<OutputView, ErrorView>(out),
    ensures
        pass2_coded(lines, symbols, code) matches Ok(first) && first.bytes.is_prefix_of(out.bytes)
            && first.instructions.is_prefix_of(out.instructions),
{
    let n = lines.len() as int;
    lemma_coded_append(lines, tail, symbols, code, n);
    lemma_coded_grows(lines + tail, symbols, code, n, (lines + tail).len() as int);
}

/// The size that pass 1 reserves for an instruction is the size that pass 2
/// emits: one word in short form, two in long form.
pub proof fn law_size_is_emitted(
    line: LineView,
    insn: InstructionView,
    symbols: Symbols,
    code: Code,
    out: OutputView,
)
    requires
        is_sized(code),
        line.body == BodyView::Instruction(insn),
        pass2_coded(seq![line], symbols, code) == Ok::<OutputView, ErrorView>(out),
    ensures
        ({
            let words = symtab::instruction_words(
                insn,
                encode::is_stretched(insn, symbols, 0, line.line),
            );
            &&& out.bytes.len() == 2 * words
            &&& out.instructions.len() == 1
            &&& words == if out.instructions[0] is Long {
                2int
            } else {
                1
            }
        }),
{
    let lines = seq![line];
    reveal_with_fuel(coded_after, 2);
    assert(lines[0] == line);
    laws::law_size_is_built(insn, symbols, 0, line.line);
    let built = encode::machine_of(insn, symbols, 0, line.line)->Ok_0;
    assert(code(built) is Ok);
    assert(out.bytes =~= code(built)->Ok_0);
    assert(out.instructions =~= seq![built]);
}

proof fn lemma_not_ended(lines: Seq<LineView>, symbols: Symbols, code: Code, n: int)
    requires
        0 <= n <= lines.len(),
        forall|j: int| 0 <= j < n ==> !laws::ends(#[trigger] lines[j]),
    ensures
        coded_after(lines, symbols, code, n) matches Ok(q) ==> !q.ended,
    decreases n,
{
    if n > 0 {
        lemma_not_ended(lines, symbols, code, n - 1);
        assert(!laws::ends(lines[n - 1]));
    }
}

proof fn lemma_right_sizes(lines: Seq<LineView>, symbols: Symbols, code: Code)
    requires
        is_sized(code),
    ensures
        laws::right_sizes(lines, symbols, coded_replies(lines, symbols, code)),
{
    let replies = coded_replies(lines, symbols, code);
    assert forall|j: int| 0 <= j < lines.len() implies (
    #[trigger] encode::request(lines, symbols, replies, j) matches Some(insn) ==> (
    replies[j] matches Ok(bytes) ==> bytes.len() == 2 * insn.words())) by {
        lemma_coded_replies(lines, symbols, code, j);
        match encode::request(lines, symbols, replies, j) {
            Some(insn) => {
                assert(replies[j] == code(insn));
            },
            None => {},
        }
    }
}

proof fn lemma_dc_emits(
    line: LineView,
    symbols: Symbols,
    q: Pass2,
    reply: ReplyView,
    r: Pass2,
    op: OperandView,
)
    requires
        line.body == BodyView::Directive(DirectiveView::Dc(op)),
        encode::pass2_step(line, symbols, q, reply) == Ok::<Pass2, ErrorView>(r),
    ensures
        symtab::value_at(op, symbols, q.lc) matches Ok(v) && r.bytes == q.bytes
            + encode::word_bytes(encode::low_word(v)),
{
}

/// Where a part of the bytes lies that comes right behind a beginning of them.
proof fn lemma_prefix_part(first: Seq<u8>, part: Seq<u8>, all: Seq<u8>)
    requires
        (first + part).is_prefix_of(all),
    ensures
        first.len() + part.len() <= all.len(),
        all.subrange(first.len() as int, (first.len() + part.len()) as int) == part,
{
    let low = first.len() as int;
    let high = (first.len() + part.len()) as int;
    assert forall|i: int| 0 <= i < part.len() implies all.subrange(low, high)[i] == part[i] by {
        assert((first + part)[low + i] == all.subrange(0, high)[low + i]);
    }
    assert(all.subrange(low, high) =~= part);
}

/// Where pass 2 stands at a labelled line.
proof fn lemma_label_address(
    lines: Seq<LineView>,
    symbols: Symbols,
    code: Code,
    out: OutputView,
    k: int,
)
    requires
        is_sized(code),
        symtab::pass1_of(lines) == Ok::<Symbols, ErrorView>(symbols),
        pass2_coded(lines, symbols, code) == Ok::<OutputView, ErrorView>(out),
        out.bytes.len() <= usize::MAX,
        0 <= k < lines.len(),
        forall|j: int| 0 <= j < k ==> !laws::ends(#[trigger] lines[j]),
        lines[k].label is Some,
        !(lines[k].body is Directive && lines[k].body->Directive_0 is Equ),
    ensures
        coded_after(lines, symbols, code, k) matches Ok(q) && !q.ended && q.bytes.len() == 2 * q.lc
            && symtab::value_of(symbols, lines[k].label->0.name) == Some(q.lc),
{
    let len = lines.len() as int;
    let replies = coded_replies(lines, symbols, code);
    lemma_coded_grows(lines, symbols, code, k, len);
    lemma_coded_replies(lines, symbols, code, k);
    lemma_coded_replies(lines, symbols, code, len);
    lemma_not_ended(lines, symbols, code, k);
    lemma_right_sizes(lines, symbols, code);
    let q = coded_after(lines, symbols, code, k)->Ok_0;
    laws::law_label_is_address(lines, symbols, replies, k, q, out);
    laws::law_label_is_location(lines, symbols, replies, k, q);
}

/// A label's value is where its word lies in the output: at twice that place
/// the bytes of a labelled `DC` are the low 16 bits of its operand.
pub proof fn law_word_lies_at_its_label(
    lines: Seq<LineView>,
    symbols: Symbols,
    code: Code,
    out: OutputView,
    k: int,
    op: OperandView,
)
    requires
        is_sized(code),
        symtab::pass1_of(lines) == Ok::<Symbols, ErrorView>(symbols),
        pass2_coded(lines, symbols, code) == Ok::<OutputView, ErrorView>(out),
        out.bytes.len() <= usize::MAX,
        0 <= k < lines.len(),
        forall|j: int| 0 <= j < k ==> !laws::ends(#[trigger] lines[j]),
        lines[k].label is Some,
        lines[k].body == BodyView::Directive(DirectiveView::Dc(op)),
    ensures
        symtab::value_of(symbols, lines[k].label->0.name) matches Some(a) && 0 <= a && 2 * a + 2
            <= out.bytes.len() && (symtab::value_at(op, symbols, a) matches Ok(v)
            && out.bytes.subrange(2 * a, 2 * a + 2) == encode::word_bytes(encode::low_word(v))),
{
    let len = lines.len() as int;
    lemma_label_address(lines, symbols, code, out, k);
    let q = coded_after(lines, symbols, code, k)->Ok_0;
    lemma_coded_grows(lines, symbols, code, k + 1, len);
    let r = coded_after(lines, symbols, code, k + 1)->Ok_0;
    lemma_dc_emits(lines[k], symbols, q, reply_to(lines[k], symbols, q.lc, code), r, op);
    let v = symtab::value_at(op, symbols, q.lc)->Ok_0;
    lemma_prefix_part(q.bytes, encode::word_bytes(encode::low_word(v)), out.bytes);
}

/// The codes of instructions, one behind the other.
spec fn joined(insns: Seq<Instruction>, code: Code, n: int) -> Seq<u8>
    decreases n,
{
    if n <= 0 {
        seq![]
    } else {
        joined(insns, code, n - 1) + code(insns[n - 1])->Ok_0
    }
}

proof fn lemma_joined_same(a: Seq<Instruction>, b: Seq<Instruction>, code: Code, n: int)
    requires
        n <= a.len(),
        a.is_prefix_of(b),
    ensures
        joined(a, code, n) == joined(b, code, n),
    decreases n,
{
    if n > 0 {
        lemma_joined_same(a, b, code, n - 1);
        assert(a[n - 1] == b[n - 1]);
    }
}

/// A program without data words is the codes of its instructions.
proof fn lemma_code_is_joined(
    lines: Seq<LineView>,
    symbols: Symbols,
    code: Code,
    n: int,
    q: Pass2,
)
    requires
        0 <= n <= lines.len(),
        forall|k: int| 0 <= k < lines.len() ==> roundtrip::emits_code(#[trigger] lines[k]),
        coded_after(lines, symbols, code, n) == Ok::<Pass2, ErrorView>(q),
    ensures
        q.bytes == joined(q.instructions, code, q.instructions.len() as int),
        forall|i: int| 0 <= i < q.instructions.len() ==> code(#[trigger] q.instructions[i]) is Ok,
    decreases n,
{
    if n > 0 {
        let before = coded_after(lines, symbols, code, n - 1)->Ok_0;
        lemma_code_is_joined(lines, symbols, code, n - 1, before);
        let line = lines[n - 1];
        assert(roundtrip::emits_code(line));
        if !before.ended {
            match line.body {
                BodyView::Instruction(insn) => {
                    let built = encode::machine_of(insn, symbols, before.lc, line.line)->Ok_0;
                    assert(q.instructions == before.instructions.push(built));
                    lemma_joined_same(
                        before.instructions,
                        q.instructions,
                        code,
                        before.instructions.len() as int,
                    );
                },
                _ => {
                    assert(q.instructions == before.instructions);
                    assert(q.bytes == before.bytes);
                },
            }
        }
    }
}

proof fn lemma_joined_prefix(insns: Seq<Instruction>, code: Code, n: int, m: int)
    requires
        0 <= n <= m,
    ensures
        joined(insns, code, n).is_prefix_of(joined(insns, code, m)),
    decreases m - n,
{
    if n < m {
        lemma_joined_prefix(insns, code, n, m - 1);
    }
}

/// Where the code of an instruction lies among the others.
proof fn lemma_joined_at(insns: Seq<Instruction>, code: Code, k: int)
    requires
        0 <= k < insns.len(),
    ensures
        ({
            let all = joined(insns, code, insns.len() as int);
            let low = joined(insns, code, k).len() as int;
            let c = code(insns[k])->Ok_0;
            &&& low + c.len() <= all.len()
            &&& all.subrange(low, low + c.len()) == c
            &&& joined(insns, code, k + 1).len() == low + c.len()
        }),
{
    let all = joined(insns, code, insns.len() as int);
    let low = joined(insns, code, k).len() as int;
    let c = code(insns[k])->Ok_0;
    lemma_joined_prefix(insns, code, k + 1, insns.len() as int);
    lemma_prefix_part(joined(insns, code, k), c, all);
}

/// Whether a decoder reads what `code` writes: where the bytes of an
/// instruction stand that has a line of source, it finds the instruction,
/// its size, and its operation's proper mnemonic.
pub open spec fn reads<D: Fn(&[u8], usize) -> DecodeReply>(decoder: D, code: Code) -> bool {
    forall|bytes: &[u8], offset: usize, reply: DecodeReply, insn: Instruction|
        #![trigger call_ensures(decoder, (bytes, offset), reply), code(insn)]
        call_ensures(decoder, (bytes, offset), reply) && roundtrip::sourced(insn) ==> (code(
            insn,
        ) matches Ok(c) ==> (offset + c.len() <= bytes@.len() && bytes@.subrange(
            offset as int,
            offset + c.len(),
        ) == c ==> {
            &&& reply matches Ok(item)
            &&& item.insn == insn
            &&& item.size == c.len()
            &&& roundtrip::names(item.mnemonic@, insn.operation())
        }))
}

/// Whether the decoder found instruction `k` where its code lies.
spec fn is_read(
    items: Seq<Decoded>,
    insns: Seq<Instruction>,
    code: Code,
    bytes: Seq<u8>,
    k: int,
) -> bool {
    &&& items[k].insn == insns[k]
    &&& roundtrip::names(items[k].mnemonic@, insns[k].operation())
    &&& code(insns[k]) == Ok::<Seq<u8>, Seq<char>>(
        bytes.subrange(
            disasm::offset_of(disasm::decoded_views(items), k) as int,
            disasm::offset_of(disasm::decoded_views(items), k + 1) as int,
        ),
    )
}

/// What a decoder finds in the codes of instructions is the instructions.
proof fn lemma_reads_back<D: Fn(&[u8], usize) -> DecodeReply>(
    decoder: D,
    code: Code,
    bytes: &[u8],
    insns: Seq<Instruction>,
    items: Seq<Decoded>,
    n: int,
)
    requires
        reads(decoder, code),
        is_sized(code),
        disasm::found(decoder, bytes, items),
        bytes@ == joined(insns, code, insns.len() as int),
        bytes@.len() <= usize::MAX,
        forall|i: int|
            0 <= i < insns.len() ==> roundtrip::sourced(#[trigger] insns[i]) && code(insns[i]) is Ok,
        0 <= n <= items.len(),
    ensures
        n <= insns.len(),
        disasm::offset_of(disasm::decoded_views(items), n) == joined(insns, code, n).len(),
        forall|k: int| 0 <= k < n ==> #[trigger] is_read(items, insns, code, bytes@, k),
    decreases n,
{
    let views = disasm::decoded_views(items);
    if n > 0 {
        lemma_reads_back(decoder, code, bytes, insns, items, n - 1);
        let offset = disasm::offset_of(views, n - 1);
        assert(offset < bytes@.len());
        if n - 1 >= insns.len() {
            assert(n - 1 == insns.len());
        }
        let insn = insns[n - 1];
        assert(roundtrip::sourced(insn));
        let c = code(insn)->Ok_0;
        assert(code(insn) matches Ok(b) ==> b.len() == 2 * insn.words());
        lemma_joined_at(insns, code, n - 1);
        let reply = Ok::<Decoded, String>(items[n - 1]);
        assert(call_ensures(decoder, (bytes, offset as usize), reply));
        assert(views[n - 1] == items[n - 1]@);
        assert(is_read(items, insns, code, bytes@, n - 1));
    }
}

/// From text to bytes and back, over the calls themselves: a program that
/// assembles and holds no data words is disassembled to a text that
/// assembles to the same bytes and instructions. `items` is what
/// `disassemble` finds in the bytes, with a decoder that reads what the
/// encoder writes.
pub proof fn law_disassembly_comes_back<D: Fn(&[u8], usize) -> DecodeReply>(
    source: Seq<char>,
    code: Code,
    out: OutputView,
    decoder: D,
    bytes: &[u8],
    items: Seq<Decoded>,
)
    requires
        is_sized(code),
        reads(decoder, code),
        assembly_coded(source, code) == Ok::<OutputView, ErrorView>(out),
        grammar::source_of(source) matches Ok(lines) && forall|k: int|
            0 <= k < lines.len() ==> roundtrip::emits_code(#[trigger] lines[k]),
        bytes@ == out.bytes,
        bytes@.len() <= usize::MAX,
        disasm::found(decoder, bytes, items),
        disasm::offset_of(disasm::decoded_views(items), items.len() as int) >= bytes@.len(),
    ensures
        assembly_coded(
            disasm::listing(disasm::decoded_views(items), items.len() as int),
            code,
        ) == Ok::<OutputView, ErrorView>(
            OutputView {
                bytes: out.bytes,
                symbols: symtab::no_symbols(Set::empty()),
                instructions: out.instructions,
            },
        ),
{
    let lines = grammar::source_of(source)->Ok_0;
    let symbols = symtab::pass1_of(lines)->Ok_0;
    let len = lines.len() as int;
    let q = coded_after(lines, symbols, code, len)->Ok_0;
    let views = disasm::decoded_views(items);
    let count = items.len() as int;
    let replies = coded_replies(lines, symbols, code);
    lemma_code_is_joined(lines, symbols, code, len, q);
    lemma_coded_replies(lines, symbols, code, len);
    lemma_source_is_sourced(source, lines, symbols, replies, q);
    lemma_reads_back(decoder, code, bytes, out.instructions, items, count);
    if count < out.instructions.len() {
        let next = out.instructions[count];
        assert(code(next) is Ok);
        assert(code(next) matches Ok(b) ==> b.len() == 2 * next.words());
        lemma_joined_at(out.instructions, code, count);
    }
    let again = Seq::new(items.len(), |k: int| code(items[k].insn));
    assert forall|k: int| 0 <= k < views.len() implies (#[trigger] views[k]).insn
        == out.instructions[k] && roundtrip::names(
        views[k].mnemonic,
        views[k].insn.operation(),
    ) by {
        assert(views[k] == items[k]@);
        assert(is_read(items, out.instructions, code, bytes@, k));
    }
    assert forall|k: int| 0 <= k < views.len() implies #[trigger] again[k] == Ok::<
        Seq<u8>,
        Seq<char>,
    >(
        out.bytes.subrange(
            disasm::offset_of(views, k) as int,
            disasm::offset_of(views, k + 1) as int,
        ),
    ) by {
        assert(is_read(items, out.instructions, code, bytes@, k));
    }
    assert forall|k: int| 0 <= k < views.len() implies roundtrip::has_source(
        (#[trigger] views[k]).insn,
        views[k].mnemonic,
    ) by {
        assert(roundtrip::sourced(out.instructions[k]));
    }
    roundtrip::law_assembled_round_trip(source, replies, out, views, again);
    lemma_listing_coded(views, code, again);
}

/// The instructions of a program without data words have lines of source.
proof fn lemma_source_is_sourced(
    source: Seq<char>,
    lines: Seq<LineView>,
    symbols: Symbols,
    replies: Seq<ReplyView>,
    q: Pass2,
)
    requires
        grammar::source_of(source) == Ok::<Seq<LineView>, ErrorView>(lines),
        forall|k: int| 0 <= k < lines.len() ==> roundtrip::emits_code(#[trigger] lines[k]),
        encode::pass2_after(lines, symbols, replies, lines.len() as int) == Ok::<Pass2, ErrorView>(
            q,
        ),
    ensures
        forall|i: int|
            0 <= i < q.instructions.len() ==> roundtrip::sourced(#[trigger] q.instructions[i]),
{
    let raw = text::lines_of(source);
    laws::law_lines_are_numbered(raw, raw.len() as int, lines);
    assert forall|k: int| 0 <= k < lines.len() implies (
    (#[trigger] lines[k]).body matches BodyView::Instruction(insn) ==> insn.tag <= 3) by {
        match lines[k].body {
            BodyView::Instruction(insn) => {
                laws::law_parsed_instruction(text::wrap32(k + 1), raw[k], lines[k], insn);
            },
            _ => {},
        }
    }
    roundtrip::lemma_code_is_sourced(lines, symbols, replies, lines.len() as int, q);
}

/// The answers to a listing are those of `code` to its instructions.
proof fn lemma_listing_coded(
    items: Seq<disasm::DecodedView>,
    code: Code,
    again: Seq<ReplyView>,
)
    requires
        forall|k: int|
            0 <= k < items.len() ==> roundtrip::has_source(
                (#[trigger] items[k]).insn,
                items[k].mnemonic,
            ),
        again.len() == items.len(),
        forall|k: int| 0 <= k < items.len() ==> #[trigger] again[k] == code(items[k].insn),
    ensures
        crate::assembly_of(disasm::listing(items, items.len() as int), again) == assembly_coded(
            disasm::listing(items, items.len() as int),
            code,
        ),
{
    let n = items.len() as int;
    let lines = roundtrip::listing_lines(items, n);
    roundtrip::lemma_listing_source(items);
    match symtab::pass1_of(lines) {
        Ok(symbols) => {
            assert forall|k: int| 0 <= k < lines.len() implies (
            #[trigger] encode::request(lines, symbols, again, k) matches Some(insn) ==> again[k]
                == code(insn)) by {
                match encode::pass2_after(lines, symbols, again, k) {
                    Ok(p) => {
                        assert(roundtrip::has_source(items[k].insn, items[k].mnemonic));
                        roundtrip::law_line_round_trip(
                            items[k].insn,
                            items[k].mnemonic,
                            text::wrap32(k + 1),
                            symbols,
                            p.lc,
                        );
                    },
                    Err(_) => {},
                }
            }
            lemma_coded(lines, symbols, again, code, lines.len() as int);
        },
        Err(_) => {},
    }
}

} // verus!
