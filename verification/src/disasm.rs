//! Disassembler: bytes become source text.
//!
//! The text is in the form that survives a round trip: assembled again, it
//! gives the same instructions. Names are not in the bytes and cannot be
//! recovered; operands come out as numbers.

use crate::isa::Instruction;
use crate::text;
use crate::{AsmError, ErrorView};
use vstd::prelude::*;

verus! {

/// What an instruction decoder finds at a place in the bytes.
#[derive(Debug, Clone, PartialEq, Eq)]
pub struct Decoded {
    pub insn: Instruction,
    /// The mnemonic of the instruction's operation.
    pub mnemonic: String,
    /// The number of bytes that the instruction takes.
    pub size: usize,
}

/// What an instruction decoder answers: an instruction, or a description of
/// why there is none.
pub type DecodeReply = Result<Decoded, String>;

/// [`Decoded`] with its mnemonic as a character sequence.
pub struct DecodedView {
    pub insn: Instruction,
    pub mnemonic: Seq<char>,
    pub size: nat,
}

impl View for Decoded {
    type V = DecodedView;

    open spec fn view(&self) -> DecodedView {
        DecodedView { insn: self.insn, mnemonic: self.mnemonic@, size: self.size as nat }
    }
}

pub open spec fn decoded_views(items: Seq<Decoded>) -> Seq<DecodedView> {
    items.map_values(|item: Decoded| item@)
}

/// The tag of an operand, with its comma; nothing for tag 0.
pub open spec fn tag_text(tag: u8) -> Seq<char> {
    if tag == 0 {
        seq![]
    } else {
        text::decimal(tag as int).push(',')
    }
}

/// The mask of a long instruction, behind a comma; nothing for mask 0.
pub open spec fn mask_text(mask: u8) -> Seq<char> {
    if mask == 0 {
        seq![]
    } else {
        seq![','] + text::hexadecimal(mask as i64)
    }
}

/// The line that stands for an instruction.
pub open spec fn rendered(insn: Instruction, mnemonic: Seq<char>) -> Seq<char> {
    match insn {
        Instruction::Short { op, tag, disp } => "        "@ + mnemonic + " "@ + tag_text(tag)
            + text::decimal(disp as int),
        Instruction::Long { op, tag, indirect, mask, address } => "        "@ + mnemonic + " L"@
            + (if indirect {
            " I"@
        } else {
            seq![]
        }) + " "@ + tag_text(tag) + text::hex_word(address) + mask_text(mask),
    }
}

/// Appends the tag of an operand.
fn push_tag(out: &mut String, tag: u8)
    ensures
        final(out)@ == old(out)@ + tag_text(tag),
{
    if tag != 0 {
        text::push_decimal(out, tag as i64);
        out.push(',');
    }
    assert(out@ =~= old(out)@ + tag_text(tag));
}

/// Renders one instruction as a line of source, without a line feed.
pub fn render_instruction(insn: &Instruction, mnemonic: &str) -> (s: String)
    ensures
        s@ == rendered(*insn, mnemonic@),
{
    let mut s = "        ".to_owned();
    s.append(mnemonic);
    match insn {
        Instruction::Short { op: _, tag, disp } => {
            s.append(" ");
            push_tag(&mut s, *tag);
            text::push_decimal(&mut s, *disp as i64);
        },
        Instruction::Long { op: _, tag, indirect, mask, address } => {
            s.append(" L");
            if *indirect {
                s.append(" I");
            }
            s.append(" ");
            push_tag(&mut s, *tag);
            text::push_hex_word(&mut s, *address);
            if *mask != 0 {
                s.push(',');
                text::push_hexadecimal(&mut s, *mask as i64);
            }
        },
    }
    assert(s@ =~= rendered(*insn, mnemonic@));
    s
}

/// The place behind the first `n` of the decoded instructions.
pub open spec fn offset_of(items: Seq<DecodedView>, n: int) -> nat
    decreases n,
{
    if n <= 0 {
        0
    } else {
        offset_of(items, n - 1) + items[n - 1].size
    }
}

/// The first `n` of the decoded instructions, a line each.
pub open spec fn listing(items: Seq<DecodedView>, n: int) -> Seq<char>
    decreases n,
{
    if n <= 0 {
        seq![]
    } else {
        listing(items, n - 1) + rendered(items[n - 1].insn, items[n - 1].mnemonic).push('\n')
    }
}

/// The error of bytes that decode to nothing: its line is the 1-based number
/// of the instruction.
pub open spec fn decode_error(count: int, offset: int, why: Seq<char>) -> ErrorView {
    ErrorView {
        line: text::wrap32(count + 1),
        col: 1,
        message: "decode failed at byte "@ + text::decimal(offset) + ": "@ + why,
    }
}

/// Whether `items` is what `decoder` finds, one behind the other, from the
/// beginning of the bytes.
pub open spec fn found<F: Fn(&[u8], usize) -> DecodeReply>(
    decoder: F,
    bytes: &[u8],
    items: Seq<Decoded>,
) -> bool {
    forall|k: int|
        0 <= k < items.len() ==> {
            let offset = #[trigger] offset_of(decoded_views(items), k);
            &&& offset < bytes@.len()
            &&& call_ensures(decoder, (bytes, offset as usize), Ok::<Decoded, String>(items[k]))
        }
}

/// The first `n` items are all that the place behind them depends on.
proof fn lemma_offset_prefix(items: Seq<DecodedView>, more: Seq<DecodedView>, n: int)
    requires
        n <= items.len(),
        n <= more.len(),
        forall|k: int| 0 <= k < n ==> items[k] == more[k],
    ensures
        offset_of(items, n) == offset_of(more, n),
        listing(items, n) == listing(more, n),
    decreases n,
{
    if n > 0 {
        lemma_offset_prefix(items, more, n - 1);
    }
}

/// One more item changes nothing for those before it.
pub(crate) proof fn lemma_found_grow(items: Seq<Decoded>, item: Decoded)
    ensures
        ({
            let old_views = decoded_views(items);
            let new_views = decoded_views(items.push(item));
            let n = items.len() as int;
            &&& forall|k: int|
                0 <= k <= n ==> #[trigger] offset_of(new_views, k) == offset_of(old_views, k)
            &&& offset_of(new_views, n + 1) == offset_of(old_views, n) + item.size
            &&& listing(new_views, n + 1) == listing(old_views, n) + rendered(
                item.insn,
                item.mnemonic@,
            ).push('\n')
        }),
{
    let old_views = decoded_views(items);
    let new_views = decoded_views(items.push(item));
    let n = items.len() as int;
    assert forall|k: int| 0 <= k <= n implies #[trigger] offset_of(new_views, k) == offset_of(
        old_views,
        k,
    ) by {
        lemma_offset_prefix(old_views, new_views, k);
    }
    lemma_offset_prefix(old_views, new_views, n);
}

/// Disassembles a byte stream, an instruction a line, with `decoder` for what
/// stands at a place in the bytes. Decoding goes on behind each instruction
/// and ends at or behind the end of the bytes.
pub fn disassemble<F: Fn(&[u8], usize) -> DecodeReply>(bytes: &[u8], decoder: F) -> (r: Result<
    String,
    AsmError,
>)
    requires
        forall|offset: usize| offset < bytes@.len() ==> call_requires(decoder, (bytes, offset)),
        forall|offset: usize, reply: DecodeReply|
            #![trigger call_ensures(decoder, (bytes, offset), reply)]
            call_ensures(decoder, (bytes, offset), reply) ==> (reply matches Ok(item) ==> item.size
                > 0),
    ensures
        exists|items: Seq<Decoded>|
            {
                let seen = decoded_views(items);
                let offset = offset_of(seen, items.len() as int);
                &&& #[trigger] found(decoder, bytes, items)
                &&& match r {
                    Ok(s) => offset >= bytes@.len() && s@ == listing(seen, items.len() as int),
                    Err(e) => {
                        &&& offset < bytes@.len()
                        &&& exists|why: String|
                            {
                                &&& #[trigger] call_ensures(
                                    decoder,
                                    (bytes, offset as usize),
                                    Err::<Decoded, String>(why),
                                )
                                &&& e@ == decode_error(items.len() as int, offset as int, why@)
                            }
                    },
                }
            },
{
    let mut out = String::new();
    let mut offset: usize = 0;
    let mut count: u32 = 1;
    let ghost mut items: Seq<Decoded> = seq![];
    while offset < bytes.len()
        invariant
            offset <= bytes@.len(),
            offset < bytes@.len() ==> offset_of(decoded_views(items), items.len() as int) == offset,
            offset == bytes@.len() ==> offset_of(decoded_views(items), items.len() as int)
                >= offset,
            count == text::wrap32(items.len() as int + 1),
            out@ == listing(decoded_views(items), items.len() as int),
            found(decoder, bytes, items),
            forall|offset: usize| offset < bytes@.len() ==> call_requires(decoder, (bytes, offset)),
            forall|offset: usize, reply: DecodeReply|
                #![trigger call_ensures(decoder, (bytes, offset), reply)]
                call_ensures(decoder, (bytes, offset), reply) ==> (reply matches Ok(item)
                    ==> item.size > 0),
        decreases bytes@.len() - offset,
    {
        match decoder(bytes, offset) {
            Ok(item) => {
                let line = render_instruction(&item.insn, item.mnemonic.as_str());
                out.append(line.as_str());
                out.push('\n');
                proof {
                    lemma_found_grow(items, item);
                    assert(out@ =~= listing(decoded_views(items), items.len() as int) + rendered(
                        item.insn,
                        item.mnemonic@,
                    ).push('\n'));
                    items = items.push(item);
                }
                if item.size >= bytes.len() - offset {
                    offset = bytes.len();
                } else {
                    offset += item.size;
                }
                count = count.wrapping_add(1);
            },
            Err(why) => {
                let mut message = "decode failed at byte ".to_owned();
                text::push_numeral(&mut message, offset as u64, 10);
                message.append(": ");
                message.append(why.as_str());
                return Err(AsmError::new(count, 1, message));
            },
        }
    }
    Ok(out)
}

} // verus!
