//! The lines of a source, and the text that the disassembler writes.

use crate::disasm;
use crate::disasm::{DecodeReply, Decoded, DecodedView};
use crate::grammar;
use crate::isa::Instruction;
use crate::laws;
use crate::parser::LineView;
use crate::roundtrip;
use crate::text;
use crate::ErrorView;
use vstd::prelude::*;

verus! {

/// The number of place `k` of a source's lines, counted from 1.
pub open spec fn number_of(k: int) -> u32 {
    ((k + 1) % 0x1_0000_0000) as u32
}

/// A line feed ends a line, and takes one carriage return before it along;
/// the last line needs none.
pub proof fn law_lines(a: Seq<char>, b: Seq<char>)
    requires
        forall|i: int| 0 <= i < a.len() ==> #[trigger] a[i] != '\n',
    ensures
        text::lines_of(Seq::<char>::empty()).len() == 0,
        a.len() > 0 ==> text::lines_of(a) == seq![a],
        text::lines_of(a.push('\n') + b) == seq![
            if a.len() > 0 && a.last() == '\r' {
                a.drop_last()
            } else {
                a
            },
        ] + text::lines_of(b),
{
    let n = a.len() as int;
    let s = a.push('\n') + b;
    roundtrip::lemma_find_none(a, '\n', 0);
    assert forall|i: int| 0 <= i < n implies #[trigger] s[i] != '\n' by {
        assert(s[i] == a[i]);
    }
    assert(s[n] == '\n');
    roundtrip::lemma_find_first(s, '\n', 0, n);
    assert(s.take(n) =~= a);
    assert(s.skip(n + 1) =~= b);
}

/// A source is read line by line, with the lines' numbers: it is what all of
/// them mean, or the error of the first that has one.
pub proof fn law_source(source: Seq<char>)
    ensures
        ({
            let lines = text::lines_of(source);
            match grammar::source_of(source) {
                Ok(parsed) => {
                    &&& parsed.len() == lines.len()
                    &&& forall|k: int|
                        0 <= k < lines.len() ==> grammar::line_of(number_of(k), lines[k]) == Ok::<
                            LineView,
                            ErrorView,
                        >(#[trigger] parsed[k])
                },
                Err(e) => exists|k: int|
                    {
                        &&& 0 <= k < lines.len()
                        &&& grammar::line_of(number_of(k), #[trigger] lines[k]) == Err::<
                            LineView,
                            ErrorView,
                        >(e)
                        &&& forall|j: int|
                            0 <= j < k ==> grammar::line_of(number_of(j), #[trigger] lines[j]) is Ok
                    },
            }
        }),
{
    let lines = text::lines_of(source);
    let n = lines.len() as int;
    match grammar::source_of(source) {
        Ok(parsed) => {
            laws::law_lines_are_numbered(lines, n, parsed);
        },
        Err(e) => {
            let k = laws::law_parse_error_line(lines, n, e);
            let before = grammar::source_lines(lines, k)->Ok_0;
            laws::law_lines_are_numbered(lines, k, before);
            assert forall|j: int| 0 <= j < k implies grammar::line_of(
                number_of(j),
                #[trigger] lines[j],
            ) is Ok by {
                assert(grammar::line_of(text::wrap32(j + 1), lines[j]) == Ok::<LineView, ErrorView>(
                    before[j],
                ));
            }
            assert(grammar::line_of(number_of(k), lines[k]) == Err::<LineView, ErrorView>(e));
        },
    }
}

/// What the disassembler writes for an instruction: eight blanks, the
/// mnemonic, ` L` and ` I` where they apply, the tag if it is not 0, the
/// operand, in decimal or as a word in hexadecimal, and the mask if it is not
/// 0.
pub proof fn law_rendered(insn: Instruction, mnemonic: Seq<char>)
    ensures
        ({
            let start = "        "@ + mnemonic;
            let line = disasm::rendered(insn, mnemonic);
            match insn {
                Instruction::Short { op, tag, disp } => {
                    &&& tag == 0 ==> line == start + " "@ + text::decimal(disp as int)
                    &&& tag != 0 ==> line == start + " "@ + text::decimal(tag as int) + seq![',']
                        + text::decimal(disp as int)
                },
                Instruction::Long { op, tag, indirect, mask, address } => {
                    let flags = if indirect {
                        start + " L I "@
                    } else {
                        start + " L "@
                    };
                    let front = if tag == 0 {
                        flags
                    } else {
                        flags + text::decimal(tag as int) + seq![',']
                    };
                    &&& mask == 0 ==> line == front + text::hex_word(address)
                    &&& mask != 0 ==> line == front + text::hex_word(address) + seq![',']
                        + text::hexadecimal(mask as i64)
                },
            }
        }),
{
    let start = "        "@ + mnemonic;
    let line = disasm::rendered(insn, mnemonic);
    reveal_strlit(" ");
    reveal_strlit(" L");
    reveal_strlit(" I");
    reveal_strlit(" L ");
    reveal_strlit(" L I ");
    match insn {
        Instruction::Short { op, tag, disp } => {
            if tag == 0 {
                assert(line =~= start + " "@ + text::decimal(disp as int));
            } else {
                assert(line =~= start + " "@ + text::decimal(tag as int) + seq![',']
                    + text::decimal(disp as int));
            }
        },
        Instruction::Long { op, tag, indirect, mask, address } => {
            let flags = if indirect {
                start + " L I "@
            } else {
                start + " L "@
            };
            let front = if tag == 0 {
                flags
            } else {
                flags + text::decimal(tag as int) + seq![',']
            };
            if mask == 0 {
                assert(line =~= front + text::hex_word(address));
            } else {
                assert(line =~= front + text::hex_word(address) + seq![',']
                    + text::hexadecimal(mask as i64));
            }
        },
    }
}

/// A listing is the instructions' lines, one behind the other, each with a
/// line feed; the place behind them is the sum of their sizes.
pub proof fn law_listing(items: Seq<DecodedView>, n: int)
    requires
        0 <= n < items.len(),
    ensures
        disasm::listing(items, 0).len() == 0,
        disasm::listing(items, n + 1) == disasm::listing(items, n) + disasm::rendered(
            items[n].insn,
            items[n].mnemonic,
        ) + seq!['\n'],
        disasm::offset_of(items, 0) == 0,
        disasm::offset_of(items, n + 1) - disasm::offset_of(items, n) == items[n].size,
{
    assert(disasm::listing(items, n + 1) =~= disasm::listing(items, n) + disasm::rendered(
        items[n].insn,
        items[n].mnemonic,
    ) + seq!['\n']);
}

/// Bytes that decode to nothing are told by the number of the instruction
/// that is missed, from 1, in column 1, and by their place.
pub proof fn law_decode_error(count: int, offset: int, why: Seq<char>)
    ensures
        disasm::decode_error(count, offset, why) == (ErrorView {
            line: number_of(count),
            col: 1,
            message: "decode failed at byte "@ + text::decimal(offset) + ": "@ + why,
        }),
{
}

/// The decoder is asked for one place after the other: at the beginning, and
/// then behind each instruction that it finds, as long as that is within the
/// bytes.
pub proof fn law_found<F: Fn(&[u8], usize) -> DecodeReply>(
    decoder: F,
    bytes: &[u8],
    items: Seq<Decoded>,
    item: Decoded,
)
    ensures
        disasm::found(decoder, bytes, Seq::<Decoded>::empty()),
        disasm::found(decoder, bytes, items.push(item)) <==> {
            let offset = disasm::offset_of(disasm::decoded_views(items), items.len() as int);
            &&& disasm::found(decoder, bytes, items)
            &&& offset < bytes@.len()
            &&& call_ensures(decoder, (bytes, offset as usize), Ok::<Decoded, String>(item))
        },
        disasm::offset_of(disasm::decoded_views(items.push(item)), (items.len() + 1) as int)
            == disasm::offset_of(disasm::decoded_views(items), items.len() as int) + item.size,
{
    let n = items.len() as int;
    let more = items.push(item);
    disasm::lemma_found_grow(items, item);
    if disasm::found(decoder, bytes, more) {
        assert forall|k: int| 0 <= k < n implies {
            let offset = #[trigger] disasm::offset_of(disasm::decoded_views(items), k);
            &&& offset < bytes@.len()
            &&& call_ensures(decoder, (bytes, offset as usize), Ok::<Decoded, String>(items[k]))
        } by {
            assert(disasm::offset_of(disasm::decoded_views(more), k) == disasm::offset_of(
                disasm::decoded_views(items),
                k,
            ));
            assert(more[k] == items[k]);
        }
        assert(disasm::offset_of(disasm::decoded_views(more), n) == disasm::offset_of(
            disasm::decoded_views(items),
            n,
        ));
        assert(more[n] == item);
    }
    if disasm::found(decoder, bytes, items) {
        assert forall|k: int| 0 <= k < n implies {
            let offset = #[trigger] disasm::offset_of(disasm::decoded_views(more), k);
            &&& offset < bytes@.len()
            &&& call_ensures(decoder, (bytes, offset as usize), Ok::<Decoded, String>(more[k]))
        } by {
            assert(disasm::offset_of(disasm::decoded_views(items), k) < bytes@.len());
            assert(more[k] == items[k]);
        }
    }
}

/// An error in text is its line and its column, each with a colon behind it,
/// and then, behind a blank, its message.
pub proof fn law_error_text(e: ErrorView)
    ensures
        ({
            let line = text::decimal(e.line as int);
            let col = text::decimal(e.col as int);
            let s = crate::error_text(e);
            let p = line.len() as int;
            let q = p + 1 + col.len();
            &&& s.len() == q + 2 + e.message.len()
            &&& s.take(p) == line
            &&& s[p] == ':'
            &&& s.subrange(p + 1, q) == col
            &&& s[q] == ':'
            &&& s[q + 1] == ' '
            &&& s.skip(q + 2) == e.message
        }),
{
    let line = text::decimal(e.line as int);
    let col = text::decimal(e.col as int);
    let s = crate::error_text(e);
    let p = line.len() as int;
    let q = p + 1 + col.len();
    assert(s.take(p) =~= line);
    assert(s.subrange(p + 1, q) =~= col);
    assert(s.skip(q + 2) =~= e.message);
}

} // verus!
