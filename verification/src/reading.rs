//! What a line means that is put together from its parts: how the fields of a
//! line are read, and where a line that cannot be read has its error.

use crate::encode;
use crate::grammar;
use crate::grammar::{Flags, Operands};
use crate::operands;
use crate::parser::{BodyView, DirectiveView, InstructionView, LabelView, LineView, OperandView};
use crate::roundtrip;
use crate::text;
use crate::ErrorView;
use vstd::prelude::*;

verus! {

/// Whether a text is spaces and tabs alone.
pub open spec fn is_blanks(s: Seq<char>) -> bool {
    forall|i: int| 0 <= i < s.len() ==> #[trigger] s[i] == ' ' || s[i] == '\t'
}

/// Whether a text is white space alone, of whatever kind.
pub open spec fn is_space(s: Seq<char>) -> bool {
    forall|i: int| 0 <= i < s.len() ==> text::is_whitespace(#[trigger] s[i])
}

/// The column right behind a text, counted in bytes from 1.
pub open spec fn column_behind(s: Seq<char>) -> u32 {
    ((1 + text::byte_len(s)) % 0x1_0000_0000) as u32
}

/// A column counts bytes: an ASCII character moves it by one, and any other
/// by the bytes that UTF-8 gives it.
pub proof fn law_byte_len(s: Seq<char>, c: char)
    ensures
        text::byte_len(Seq::<char>::empty()) == 0,
        text::byte_len(s.push(c)) - text::byte_len(s) == (if (c as u32) < 0x80 {
            1int
        } else if (c as u32) < 0x800 {
            2
        } else if (c as u32) < 0x1_0000 {
            3
        } else {
            4
        }),
{
    assert(s.push(c).drop_last() =~= s);
}

/// The lower-case form differs in the capital letters alone, each of which
/// becomes the letter 32 places on.
pub proof fn law_lower(s: Seq<char>, i: int)
    requires
        0 <= i < s.len(),
    ensures
        text::lower(s).len() == s.len(),
        'A' <= s[i] && s[i] <= 'Z' ==> text::lower(s)[i] as u32 == s[i] as u32 + 32,
        !('A' <= s[i] && s[i] <= 'Z') ==> text::lower(s)[i] == s[i],
{
}

/// Whether a name, in whatever case, has a meaning of its own: it is that of
/// a directive or of an operation.
pub open spec fn is_reserved(name: Seq<char>) -> bool {
    let n = text::lower(name);
    ||| n == "org"@
    ||| n == "equ"@
    ||| n == "dc"@
    ||| n == "bss"@
    ||| n == "abs"@
    ||| n == "end"@
    ||| encode::opcode_of(n) is Some
}

/// Whether `part` stands at place `pos` of a text.
pub open spec fn stands_at(s: Seq<char>, pos: int, part: Seq<char>) -> bool {
    &&& 0 <= pos
    &&& pos + part.len() <= s.len()
    &&& forall|j: int| pos <= j < pos + part.len() ==> #[trigger] s[j] == part[j - pos]
}

proof fn lemma_subrange(s: Seq<char>, pos: int, part: Seq<char>)
    requires
        stands_at(s, pos, part),
    ensures
        s.subrange(pos, pos + part.len()) == part,
{
    assert(s.subrange(pos, pos + part.len()) =~= part);
}

/// Parts that are put together stand one behind the other.
proof fn lemma_both(s: Seq<char>, pos: int, a: Seq<char>, b: Seq<char>)
    requires
        stands_at(s, pos, a + b),
    ensures
        stands_at(s, pos, a),
        stands_at(s, pos + a.len(), b),
{
    assert forall|j: int| pos <= j < pos + a.len() implies #[trigger] s[j] == a[j - pos] by {
        assert(s[j] == (a + b)[j - pos]);
    }
    assert forall|j: int| pos + a.len() <= j < pos + a.len() + b.len() implies #[trigger] s[j]
        == b[j - pos - a.len()] by {
        assert(s[j] == (a + b)[j - pos]);
    }
}

/// Blanks at a place are skipped.
proof fn lemma_skip(s: Seq<char>, pos: int, blanks: Seq<char>)
    requires
        stands_at(s, pos, blanks),
        is_blanks(blanks),
        pos + blanks.len() < s.len() ==> !text::is_blank(s[pos + blanks.len()]),
    ensures
        text::skip_blanks(s, pos) == pos + blanks.len(),
{
    assert forall|i: int| pos <= i < pos + blanks.len() implies text::is_blank(#[trigger] s[i]) by {
        assert(s[i] == blanks[i - pos]);
    }
    roundtrip::lemma_skip_blanks_to(s, pos, pos + blanks.len());
}

/// Skipping blanks stops at a place that holds none, or before it.
proof fn lemma_skip_stops(s: Seq<char>, pos: int, q: int)
    requires
        0 <= pos <= q < s.len(),
        !text::is_blank(s[q]),
    ensures
        pos <= text::skip_blanks(s, pos) <= q,
    decreases q - pos,
{
    if text::is_blank(s[pos]) {
        lemma_skip_stops(s, pos + 1, q);
    }
}

/// A name at a place is the identifier there.
proof fn lemma_name(s: Seq<char>, pos: int, name: Seq<char>)
    requires
        stands_at(s, pos, name),
        operands::is_name(name),
        pos + name.len() < s.len() ==> !text::continues_ident(s[pos + name.len()]),
    ensures
        grammar::ident_end(s, pos) == Some((pos + name.len()) as int),
        s.subrange(pos, pos + name.len()) == name,
{
    assert forall|i: int| pos <= i < pos + name.len() implies text::continues_ident(
        #[trigger] s[i],
    ) by {
        assert(s[i] == name[i - pos]);
    }
    assert(s[pos] == name[0]);
    roundtrip::lemma_run_to(s, pos, pos + name.len());
    lemma_subrange(s, pos, name);
}

/// What a line begins with: blanks, a label or none, with its colon or without
/// one, blanks again, and the name of a directive or an operation.
pub struct Head {
    pub indent: Seq<char>,
    pub label: Option<Seq<char>>,
    pub colon: bool,
    pub gap: Seq<char>,
    pub word: Seq<char>,
}

/// The text before the name of the directive or the operation.
pub open spec fn front_text(h: Head) -> Seq<char> {
    match h.label {
        None => h.indent,
        Some(name) => if h.colon {
            h.indent + (name + (seq![':'] + h.gap))
        } else {
            h.indent + (name + h.gap)
        },
    }
}

pub open spec fn head_text(h: Head) -> Seq<char> {
    front_text(h) + h.word
}

/// Whether the parts make the head of a line. A label has its colon, or it
/// begins the line, has no meaning of its own, and stands before a word that
/// has one. A word that begins the line has one too.
pub open spec fn is_head(h: Head) -> bool {
    &&& is_blanks(h.indent)
    &&& is_blanks(h.gap)
    &&& operands::is_name(h.word)
    &&& match h.label {
        None => h.indent.len() > 0 || is_reserved(h.word),
        Some(name) => {
            &&& operands::is_name(name)
            &&& h.colon || (h.indent.len() == 0 && h.gap.len() > 0 && !is_reserved(name)
                && is_reserved(h.word))
        },
    }
}

/// The label of the line and its column.
pub open spec fn head_label(h: Head) -> Option<LabelView> {
    match h.label {
        None => None,
        Some(name) => Some(LabelView { name, col: column_behind(h.indent) }),
    }
}

/// What becomes of a line once its body is read: behind it nothing may stand.
spec fn finish(
    line: u32,
    label: Option<LabelView>,
    s: Seq<char>,
    r: Result<(BodyView, int), ErrorView>,
) -> Result<LineView, ErrorView> {
    match r {
        Err(e) => Err(e),
        Ok((body, behind)) => {
            let stop = text::skip_blanks(s, behind);
            if stop < s.len() {
                Err(
                    ErrorView {
                        line,
                        col: text::column(s, stop),
                        message: "unexpected trailing input: "@ + text::quoted_text(s.skip(stop)),
                    },
                )
            } else {
                Ok(LineView { line, label, body })
            }
        },
    }
}

/// Whether a text holds no `;` and ends with something else than white space.
spec fn is_proper(s: Seq<char>) -> bool {
    &&& s.len() > 0
    &&& !text::is_whitespace(s.last())
    &&& forall|i: int| 0 <= i < s.len() ==> #[trigger] s[i] != ';'
}

proof fn lemma_proper(s: Seq<char>)
    requires
        is_proper(s),
    ensures
        grammar::without_comment(s) == s,
{
    roundtrip::lemma_find_none(s, ';', 0);
    assert(s.take(s.len() as int) =~= s);
}

proof fn lemma_trim_end_behind(s: Seq<char>, pad: Seq<char>)
    requires
        s.len() > 0,
        !text::is_whitespace(s.last()),
        is_space(pad),
    ensures
        text::trim_end(s + pad) == s,
    decreases pad.len(),
{
    if pad.len() > 0 {
        let p = pad.drop_last();
        assert((s + pad).last() == pad[pad.len() - 1]);
        assert((s + pad).drop_last() =~= s + p);
        assert forall|i: int| 0 <= i < p.len() implies text::is_whitespace(#[trigger] p[i]) by {
            assert(p[i] == pad[i]);
        }
        lemma_trim_end_behind(s, p);
    } else {
        assert(s + pad =~= s);
    }
}

/// White space at the end of a line does not matter.
proof fn lemma_pad(line: u32, s: Seq<char>, pad: Seq<char>)
    requires
        is_proper(s),
        is_space(pad),
    ensures
        grammar::line_of(line, s + pad) == grammar::line_of(line, s),
{
    reveal(grammar::line_of);
    let raw = s + pad;
    assert forall|i: int| 0 <= i < raw.len() implies #[trigger] raw[i] != ';' by {
        if i < s.len() {
            assert(raw[i] == s[i]);
        } else {
            assert(raw[i] == pad[i - s.len()]);
        }
    }
    roundtrip::lemma_find_none(raw, ';', 0);
    assert(raw.take(raw.len() as int) =~= raw);
    lemma_trim_end_behind(s, pad);
    lemma_proper(s);
}

/// A line says something if what stands behind its indent begins a name.
proof fn lemma_says(s: Seq<char>, indent: Seq<char>)
    requires
        stands_at(s, 0, indent),
        is_blanks(indent),
        indent.len() < s.len(),
        text::starts_ident(s[indent.len() as int]),
    ensures
        !grammar::says_nothing(s),
        text::skip_blanks(s, 0) == indent.len(),
{
    assert forall|i: int| 0 <= i < indent.len() implies text::is_whitespace(#[trigger] s[i]) by {
        assert(s[i] == indent[i - 0]);
    }
    roundtrip::lemma_trim_start_to(s, indent.len() as int);
    assert(text::trim_start(s)[0] == s[indent.len() as int]);
    lemma_skip(s, 0, indent);
}

/// What stands before the word of a line.
proof fn lemma_front(s: Seq<char>, h: Head)
    requires
        is_head(h),
        stands_at(s, 0, head_text(h)),
        head_text(h).len() < s.len() ==> text::is_blank(s[head_text(h).len() as int]),
    ensures
        !grammar::says_nothing(s),
        stands_at(s, front_text(h).len() as int, h.word),
        grammar::ident_end(s, front_text(h).len() as int) == Some(head_text(h).len() as int),
        s.subrange(front_text(h).len() as int, head_text(h).len() as int) == h.word,
        ({
            let (label, behind) = grammar::label_at(s, text::skip_blanks(s, 0));
            &&& label == head_label(h)
            &&& text::skip_blanks(s, behind) == front_text(h).len()
        }),
{
    let n = h.indent.len() as int;
    let w = front_text(h).len() as int;
    lemma_both(s, 0, front_text(h), h.word);
    assert(s[w] == h.word[0]);
    assert(!text::is_blank(s[w]));
    lemma_name(s, w, h.word);
    match h.label {
        None => {
            lemma_says(s, h.indent);
            lemma_skip(s, w, Seq::<char>::empty());
            assert(s.take(w + h.word.len()) =~= s.subrange(0, w + h.word.len()));
        },
        Some(name) => {
            let rest = if h.colon {
                seq![':'] + h.gap
            } else {
                h.gap
            };
            lemma_both(s, 0, h.indent, name + rest);
            lemma_both(s, n, name, rest);
            assert(s[n] == name[0]);
            lemma_says(s, h.indent);
            let p = (n + name.len()) as int;
            if h.colon {
                lemma_both(s, p, seq![':'], h.gap);
                assert(s[p] == ':');
                lemma_skip(s, p + 1, h.gap);
            } else {
                assert(s[p] == h.gap[0]);
                lemma_skip(s, p, h.gap);
            }
            lemma_name(s, n, name);
            assert(s.take(p) =~= s.subrange(0, p));
        },
    }
    assert(s.take(n) =~= h.indent);
}

/// A line with a proper head means what its body means.
proof fn lemma_head_read(line: u32, s: Seq<char>, h: Head)
    requires
        is_head(h),
        is_proper(s),
        stands_at(s, 0, head_text(h)),
        head_text(h).len() < s.len() ==> text::is_blank(s[head_text(h).len() as int]),
    ensures
        grammar::line_of(line, s) == finish(
            line,
            head_label(h),
            s,
            grammar::body_at(
                line,
                s,
                head_text(h).len() as int,
                text::lower(h.word),
                column_behind(front_text(h)),
            ),
        ),
{
    reveal(grammar::line_of);
    lemma_proper(s);
    lemma_front(s, h);
    lemma_both(s, 0, front_text(h), h.word);
    assert(s.take(front_text(h).len() as int) =~= front_text(h));
}

/// Whether a text is one operand token: it holds no white space, comma or `;`,
/// and is more than a sign.
pub open spec fn is_token(s: Seq<char>) -> bool {
    &&& operands::is_solid(s)
    &&& s.len() > 0
    &&& s.len() == 1 ==> s[0] != '+' && s[0] != '-'
    &&& forall|i: int| 0 <= i < s.len() ==> #[trigger] s[i] != ',' && s[i] != ';'
}

/// A token is read as the operand there.
proof fn lemma_operand(line: u32, s: Seq<char>, pos: int, token: Seq<char>)
    requires
        stands_at(s, pos, token),
        is_token(token),
        pos + token.len() < s.len() ==> text::is_blank(s[pos + token.len()]) || s[pos + token.len()]
            == ',',
    ensures
        grammar::operand_at(line, s, pos) == match grammar::operand_of(
            line,
            column_behind(s.take(pos)),
            token,
        ) {
            Ok(op) => Ok::<(OperandView, int), ErrorView>((op, (pos + token.len()) as int)),
            Err(e) => Err(e),
        },
        !text::is_blank(s[pos]),
        s[pos] != ',',
{
    let end = pos + token.len();
    assert forall|i: int| pos <= i < end implies !text::is_blank(#[trigger] s[i]) && s[i]
        != ',' by {
        assert(s[i] == token[i - pos]);
        assert(!text::is_whitespace(token[i - pos]));
    }
    assert(s[pos] == token[0]);
    roundtrip::lemma_token_to(s, pos, end);
    roundtrip::lemma_token_to(s, pos + 1, end);
    lemma_subrange(s, pos, token);
}

/// The directive of a name and an operand.
pub open spec fn directive_of(word: Seq<char>, op: OperandView) -> DirectiveView {
    let name = text::lower(word);
    if name == "org"@ {
        DirectiveView::Org(op)
    } else if name == "equ"@ {
        DirectiveView::Equ(op)
    } else if name == "dc"@ {
        DirectiveView::Dc(op)
    } else if name == "bss"@ {
        DirectiveView::Bss(op)
    } else {
        DirectiveView::End(Some(op))
    }
}

/// Whether a name, in whatever case, is that of a directive with an operand.
pub open spec fn takes_operand(word: Seq<char>) -> bool {
    let name = text::lower(word);
    name == "org"@ || name == "equ"@ || name == "dc"@ || name == "bss"@ || name == "end"@
}

/// Whether a name, in whatever case, is that of a directive.
pub open spec fn is_directive_name(word: Seq<char>) -> bool {
    let name = text::lower(word);
    name == "org"@ || name == "equ"@ || name == "dc"@ || name == "bss"@ || name == "abs"@ || name
        == "end"@
}

/// A directive and its operand, with a label or without one, blanks between
/// the fields and white space at the end: the line is that directive, and the
/// error of its operand is the line's, in the operand's column.
pub proof fn law_directive_line(
    line: u32,
    h: Head,
    gap: Seq<char>,
    token: Seq<char>,
    pad: Seq<char>,
)
    requires
        is_head(h),
        takes_operand(h.word),
        is_blanks(gap),
        gap.len() > 0,
        is_token(token),
        is_space(pad),
    ensures
        grammar::line_of(line, head_text(h) + (gap + token) + pad) == match grammar::operand_of(
            line,
            column_behind(head_text(h) + gap),
            token,
        ) {
            Ok(op) => Ok::<LineView, ErrorView>(
                LineView {
                    line,
                    label: head_label(h),
                    body: BodyView::Directive(directive_of(h.word, op)),
                },
            ),
            Err(e) => Err(e),
        },
{
    let s = head_text(h) + (gap + token);
    let e = head_text(h).len() as int;
    lemma_joined(h, gap, token);
    lemma_pad(line, s, pad);
    lemma_head_read(line, s, h);
    lemma_both(s, e, gap, token);
    let p = (e + gap.len()) as int;
    lemma_operand(line, s, p, token);
    lemma_skip(s, e, gap);
    assert(s.take(p) =~= head_text(h) + gap);
    grammar::lemma_directives();
    lemma_skip(s, s.len() as int, Seq::<char>::empty());
}

/// A head, blanks and a text make a proper line.
proof fn lemma_joined(h: Head, gap: Seq<char>, rest: Seq<char>)
    requires
        is_head(h),
        is_blanks(gap),
        gap.len() > 0,
        is_proper(rest),
    ensures
        ({
            let s = head_text(h) + (gap + rest);
            &&& is_proper(s)
            &&& stands_at(s, 0, head_text(h))
            &&& stands_at(s, head_text(h).len() as int, gap + rest)
            &&& text::is_blank(s[head_text(h).len() as int])
        }),
{
    let s = head_text(h) + (gap + rest);
    let e = head_text(h).len() as int;
    lemma_head_plain(h);
    assert(s[e] == gap[0]);
    assert forall|i: int| 0 <= i < s.len() implies #[trigger] s[i] != ';' by {
        if i < e {
            assert(s[i] == head_text(h)[i]);
        } else if i < e + gap.len() {
            assert(s[i] == gap[i - e]);
        } else {
            assert(s[i] == rest[i - e - gap.len()]);
        }
    }
    assert(s.last() == rest.last());
}

/// The head of a line holds no `;`.
proof fn lemma_head_plain(h: Head)
    requires
        is_head(h),
    ensures
        is_proper(head_text(h)),
{
    let t = head_text(h);
    let n = h.indent.len() as int;
    let w = front_text(h).len() as int;
    assert(t.last() == h.word[h.word.len() - 1]);
    assert forall|i: int| 0 <= i < t.len() implies #[trigger] t[i] != ';' by {
        if i >= w {
            assert(t[i] == h.word[i - w]);
        } else {
            assert(t[i] == front_text(h)[i]);
            if i < n {
                assert(t[i] == h.indent[i]);
            } else {
                let name = h.label.unwrap();
                if i < n + name.len() {
                    assert(t[i] == name[i - n]);
                } else if h.colon {
                    if i > n + name.len() {
                        assert(t[i] == h.gap[i - n - name.len() - 1]);
                    }
                } else {
                    assert(t[i] == h.gap[i - n - name.len()]);
                }
            }
        }
    }
}

/// `ABS`, and `END` without an operand, are whole lines.
pub proof fn law_bare_directive(line: u32, h: Head, pad: Seq<char>)
    requires
        is_head(h),
        is_space(pad),
    ensures
        text::lower(h.word) == "abs"@ ==> grammar::line_of(line, head_text(h) + pad) == Ok::<
            LineView,
            ErrorView,
        >(
            LineView {
                line,
                label: head_label(h),
                body: BodyView::Directive(DirectiveView::Abs),
            },
        ),
        text::lower(h.word) == "end"@ ==> grammar::line_of(line, head_text(h) + pad) == Ok::<
            LineView,
            ErrorView,
        >(
            LineView {
                line,
                label: head_label(h),
                body: BodyView::Directive(DirectiveView::End(None)),
            },
        ),
{
    let s = head_text(h);
    lemma_head_plain(h);
    lemma_pad(line, s, pad);
    lemma_head_read(line, s, h);
    grammar::lemma_directives();
    lemma_skip(s, s.len() as int, Seq::<char>::empty());
}

/// `ORG`, `EQU`, `DC` and `BSS` without an operand are refused, in the column
/// where it is missed.
pub proof fn law_missing_operand(line: u32, h: Head, pad: Seq<char>)
    requires
        is_head(h),
        takes_operand(h.word),
        text::lower(h.word) != "end"@,
        is_space(pad),
    ensures
        grammar::line_of(line, head_text(h) + pad) == Err::<LineView, ErrorView>(
            ErrorView {
                line,
                col: column_behind(head_text(h)),
                message: "expected operand (number or symbol)"@,
            },
        ),
{
    let s = head_text(h);
    lemma_head_plain(h);
    lemma_pad(line, s, pad);
    lemma_head_read(line, s, h);
    grammar::lemma_directives();
    lemma_skip(s, s.len() as int, Seq::<char>::empty());
    assert(s.take(s.len() as int) =~= s);
}

/// Whether a text can stand behind the body of a line, where nothing belongs:
/// it begins with no blank, ends with no white space and holds no `;`.
pub open spec fn is_junk(junk: Seq<char>) -> bool {
    &&& junk.len() > 0
    &&& !text::is_blank(junk[0])
    &&& !text::is_whitespace(junk.last())
    &&& forall|i: int| 0 <= i < junk.len() ==> #[trigger] junk[i] != ';'
}

/// What stands behind a directive and its operand is refused, with its text
/// in quotes and in its column.
pub proof fn law_trailing_directive(
    line: u32,
    h: Head,
    gap: Seq<char>,
    token: Seq<char>,
    more: Seq<char>,
    junk: Seq<char>,
    op: OperandView,
)
    requires
        is_head(h),
        takes_operand(h.word),
        is_blanks(gap),
        gap.len() > 0,
        is_token(token),
        is_blanks(more),
        is_junk(junk),
        more.len() > 0 || junk[0] == ',',
        grammar::operand_of(line, column_behind(head_text(h) + gap), token) == Ok::<
            OperandView,
            ErrorView,
        >(op),
    ensures
        grammar::line_of(line, head_text(h) + (gap + (token + (more + junk)))) == Err::<
            LineView,
            ErrorView,
        >(
            ErrorView {
                line,
                col: column_behind(head_text(h) + (gap + (token + more))),
                message: "unexpected trailing input: "@ + text::quoted_text(junk),
            },
        ),
{
    let e = head_text(h).len() as int;
    let rest = token + (more + junk);
    let s = head_text(h) + (gap + rest);
    let p = (e + gap.len()) as int;
    let q = (p + token.len()) as int;
    let stop = (q + more.len()) as int;
    lemma_junk_behind(token, more, junk);
    lemma_joined(h, gap, rest);
    lemma_head_read(line, s, h);
    lemma_both(s, e, gap, rest);
    lemma_both(s, p, token, more + junk);
    lemma_both(s, q, more, junk);
    assert(s[stop] == junk[0]);
    if more.len() > 0 {
        assert(s[q] == more[0]);
    }
    assert(s.take(p) =~= head_text(h) + gap);
    assert(s.take(stop) =~= head_text(h) + (gap + (token + more)));
    assert(s.skip(stop) =~= junk);
    lemma_skip(s, q, more);
    lemma_directive_body(line, s, h, gap, token, op);
}

proof fn lemma_junk_behind(token: Seq<char>, more: Seq<char>, junk: Seq<char>)
    requires
        is_token(token),
        is_blanks(more),
        is_junk(junk),
    ensures
        is_proper(token + (more + junk)),
{
    let rest = token + (more + junk);
    assert forall|i: int| 0 <= i < rest.len() implies #[trigger] rest[i] != ';' by {
        if i < token.len() {
            assert(rest[i] == token[i]);
        } else if i < token.len() + more.len() {
            assert(rest[i] == more[i - token.len()]);
        } else {
            assert(rest[i] == junk[i - token.len() - more.len()]);
        }
    }
    assert(rest.last() == junk.last());
}

/// A directive is read up to the end of its operand.
proof fn lemma_directive_body(
    line: u32,
    s: Seq<char>,
    h: Head,
    gap: Seq<char>,
    token: Seq<char>,
    op: OperandView,
)
    requires
        takes_operand(h.word),
        is_blanks(gap),
        is_token(token),
        stands_at(s, head_text(h).len() as int, gap),
        stands_at(s, (head_text(h).len() + gap.len()) as int, token),
        s.take((head_text(h).len() + gap.len()) as int) == head_text(h) + gap,
        ({
            let q = (head_text(h).len() + gap.len() + token.len()) as int;
            q < s.len() ==> text::is_blank(s[q]) || s[q] == ','
        }),
        grammar::operand_of(line, column_behind(head_text(h) + gap), token) == Ok::<
            OperandView,
            ErrorView,
        >(op),
    ensures
        grammar::body_at(
            line,
            s,
            head_text(h).len() as int,
            text::lower(h.word),
            column_behind(front_text(h)),
        ) == Ok::<(BodyView, int), ErrorView>(
            (
                BodyView::Directive(directive_of(h.word, op)),
                (head_text(h).len() + gap.len() + token.len()) as int,
            ),
        ),
{
    let e = head_text(h).len() as int;
    let p = (e + gap.len()) as int;
    grammar::lemma_directives();
    lemma_operand(line, s, p, token);
    lemma_skip(s, e, gap);
}

/// What stands behind `ABS` is refused in the same way.
pub proof fn law_trailing_abs(line: u32, h: Head, gap: Seq<char>, junk: Seq<char>)
    requires
        is_head(h),
        text::lower(h.word) == "abs"@,
        is_blanks(gap),
        gap.len() > 0,
        is_junk(junk),
    ensures
        grammar::line_of(line, head_text(h) + (gap + junk)) == Err::<LineView, ErrorView>(
            ErrorView {
                line,
                col: column_behind(head_text(h) + gap),
                message: "unexpected trailing input: "@ + text::quoted_text(junk),
            },
        ),
{
    let e = head_text(h).len() as int;
    let s = head_text(h) + (gap + junk);
    let stop = (e + gap.len()) as int;
    grammar::lemma_directives();
    lemma_joined(h, gap, junk);
    lemma_head_read(line, s, h);
    lemma_both(s, e, gap, junk);
    assert(s[stop] == junk[0]);
    lemma_skip(s, e, gap);
    assert(s.take(stop) =~= head_text(h) + gap);
    assert(s.skip(stop) =~= junk);
}

/// A line of white space, and one whose first character behind white space is
/// `*` or whose first two are `//`, say nothing.
pub proof fn law_line_says_nothing(line: u32, indent: Seq<char>, rest: Seq<char>)
    requires
        is_space(indent),
    ensures
        grammar::line_of(line, indent) == Ok::<LineView, ErrorView>(
            LineView { line, label: None, body: BodyView::Empty },
        ),
        grammar::line_of(line, indent + (seq!['*'] + rest)) == Ok::<LineView, ErrorView>(
            LineView { line, label: None, body: BodyView::Empty },
        ),
        grammar::line_of(line, indent + (seq!['/', '/'] + rest)) == Ok::<LineView, ErrorView>(
            LineView { line, label: None, body: BodyView::Empty },
        ),
{
    lemma_blank_line(indent);
    lemma_nothing(line, indent);
    lemma_marked(indent, seq!['*'], rest);
    lemma_nothing(line, indent + (seq!['*'] + rest));
    lemma_marked(indent, seq!['/', '/'], rest);
    lemma_nothing(line, indent + (seq!['/', '/'] + rest));
}

proof fn lemma_nothing(line: u32, raw: Seq<char>)
    requires
        grammar::says_nothing(grammar::without_comment(raw)),
    ensures
        grammar::line_of(line, raw) == Ok::<LineView, ErrorView>(
            LineView { line, label: None, body: BodyView::Empty },
        ),
{
    reveal(grammar::line_of);
}

proof fn lemma_blank_line(s: Seq<char>)
    requires
        is_space(s),
    ensures
        grammar::says_nothing(grammar::without_comment(s)),
    decreases s.len(),
{
    roundtrip::lemma_find_none(s, ';', 0);
    assert(s.take(s.len() as int) =~= s);
    if s.len() > 0 {
        assert(text::is_whitespace(s[s.len() - 1]));
        let t = s.drop_last();
        assert forall|i: int| 0 <= i < t.len() implies text::is_whitespace(#[trigger] t[i]) by {
            assert(t[i] == s[i]);
        }
        lemma_blank_line(t);
        roundtrip::lemma_find_none(t, ';', 0);
        assert(t.take(t.len() as int) =~= t);
    }
}

/// What stands behind the mark of such a line does not matter, a comment
/// neither.
proof fn lemma_marked(indent: Seq<char>, mark: Seq<char>, rest: Seq<char>)
    requires
        is_space(indent),
        mark == seq!['*'] || mark == seq!['/', '/'],
    ensures
        grammar::says_nothing(grammar::without_comment(indent + (mark + rest))),
{
    let raw = indent + (mark + rest);
    let n = indent.len() as int;
    let end = text::find(raw, ';', 0);
    assert forall|i: int| 0 <= i < n + mark.len() implies #[trigger] raw[i] != ';' by {
        if i < n {
            assert(raw[i] == indent[i]);
        } else {
            assert(raw[i] == mark[i - n]);
        }
    }
    lemma_find_behind(raw, ';', 0, (n + mark.len()) as int);
    let t = raw.take(end);
    let last = n + mark.len() - 1;
    assert(t[last] == mark[mark.len() - 1]);
    lemma_trim_end_keeps(t, last);
    let s = text::trim_end(t);
    assert(s[n] == mark[0]);
    assert forall|i: int| 0 <= i < n implies text::is_whitespace(#[trigger] s[i]) by {
        assert(s[i] == indent[i]);
    }
    roundtrip::lemma_trim_start_to(s, n);
    assert(s.skip(n)[0] == s[n]);
    if mark.len() == 2 {
        assert(s[n + 1] == mark[1]);
        assert(s.skip(n)[1] == s[n + 1]);
    }
}

proof fn lemma_find_behind(s: Seq<char>, c: char, pos: int, n: int)
    requires
        0 <= pos <= n <= s.len(),
        forall|i: int| pos <= i < n ==> #[trigger] s[i] != c,
    ensures
        n <= text::find(s, c, pos) <= s.len(),
    decreases s.len() - pos,
{
    if pos < s.len() && s[pos] != c {
        if pos < n {
            lemma_find_behind(s, c, pos + 1, n);
        } else {
            lemma_find_behind(s, c, pos + 1, pos + 1);
        }
    }
}

proof fn lemma_trim_end_keeps(s: Seq<char>, last: int)
    requires
        0 <= last < s.len(),
        !text::is_whitespace(s[last]),
    ensures
        last < text::trim_end(s).len() <= s.len(),
        text::trim_end(s) == s.take(text::trim_end(s).len() as int),
    decreases s.len(),
{
    if text::is_whitespace(s.last()) {
        let t = s.drop_last();
        assert(t[last] == s[last]);
        lemma_trim_end_keeps(t, last);
        assert(t.take(text::trim_end(t).len() as int) =~= s.take(text::trim_end(t).len() as int));
    } else {
        assert(s.take(s.len() as int) =~= s);
    }
}

/// A label alone is a line: with its colon, or at the beginning of the line if
/// it has no meaning of its own.
#[verifier::spinoff_prover]
pub proof fn law_label_line(
    line: u32,
    indent: Seq<char>,
    name: Seq<char>,
    colon: Seq<char>,
    pad: Seq<char>,
)
    requires
        is_blanks(indent),
        operands::is_name(name),
        colon == seq![':'] || (colon == Seq::<char>::empty() && indent.len() == 0 && !is_reserved(
            name,
        )),
        is_space(pad),
    ensures
        grammar::line_of(line, indent + (name + colon) + pad) == Ok::<LineView, ErrorView>(
            LineView {
                line,
                label: Some(LabelView { name, col: column_behind(indent) }),
                body: BodyView::Empty,
            },
        ),
{
    let s = indent + (name + colon);
    let n = indent.len() as int;
    let p = (n + name.len()) as int;
    lemma_fragment(indent, name, colon);
    lemma_pad(line, s, pad);
    lemma_proper(s);
    lemma_both(s, 0, indent, name + colon);
    lemma_both(s, n, name, colon);
    assert(s[n] == name[0]);
    if colon.len() > 0 {
        assert(s[p] == ':');
    }
    lemma_says(s, indent);
    lemma_name(s, n, name);
    lemma_skip(s, s.len() as int, Seq::<char>::empty());
    assert(s.take(n) =~= indent);
    assert(s.take(p) =~= s.subrange(0, p));
    reveal(grammar::line_of);
}

proof fn lemma_fragment(indent: Seq<char>, name: Seq<char>, rest: Seq<char>)
    requires
        is_blanks(indent),
        operands::is_name(name),
        rest.len() == 0 || is_proper(rest),
    ensures
        is_proper(indent + (name + rest)),
        stands_at(indent + (name + rest), 0, indent + (name + rest)),
{
    let s = indent + (name + rest);
    let n = indent.len() as int;
    assert forall|i: int| 0 <= i < s.len() implies #[trigger] s[i] != ';' by {
        if i < n {
            assert(s[i] == indent[i]);
        } else if i < n + name.len() {
            assert(s[i] == name[i - n]);
        } else {
            assert(s[i] == rest[i - n - name.len()]);
        }
    }
    if rest.len() == 0 {
        assert(s.last() == name[name.len() - 1]);
    } else {
        assert(s.last() == rest.last());
    }
}

/// Where a directive or an operation is due, anything but a name is refused,
/// in its column.
pub proof fn law_expected_mnemonic(line: u32, indent: Seq<char>, rest: Seq<char>)
    requires
        is_blanks(indent),
        rest.len() > 0,
        !text::is_whitespace(rest[0]),
        !operands::is_initial(rest[0]),
        rest[0] != '*',
        !(rest[0] == '/' && rest.len() > 1 && rest[1] == '/'),
        !text::is_whitespace(rest.last()),
        forall|i: int| 0 <= i < rest.len() ==> #[trigger] rest[i] != ';',
    ensures
        grammar::line_of(line, indent + rest) == Err::<LineView, ErrorView>(
            ErrorView {
                line,
                col: column_behind(indent),
                message: "expected mnemonic or directive"@,
            },
        ),
{
    let n = indent.len() as int;
    let s = indent + rest;
    assert forall|i: int| 0 <= i < s.len() implies #[trigger] s[i] != ';' by {
        if i < n {
            assert(s[i] == indent[i]);
        } else {
            assert(s[i] == rest[i - n]);
        }
    }
    assert(s.last() == rest.last());
    lemma_proper(s);
    assert(s[n] == rest[0]);
    assert forall|i: int| 0 <= i < n implies text::is_whitespace(#[trigger] s[i]) by {
        assert(s[i] == indent[i]);
    }
    roundtrip::lemma_trim_start_to(s, n);
    assert(s.skip(n) =~= rest);
    lemma_skip(s, 0, indent);
    lemma_skip(s, n, Seq::<char>::empty());
    assert(s.take(n) =~= indent);
    assert(grammar::label_at(s, n) == (None::<LabelView>, n));
    reveal(grammar::line_of);
}

/// Behind a label with its colon, too, anything but a name is refused.
#[verifier::spinoff_prover]
pub proof fn law_expected_mnemonic_behind_label(
    line: u32,
    indent: Seq<char>,
    name: Seq<char>,
    gap: Seq<char>,
    rest: Seq<char>,
)
    requires
        is_blanks(indent),
        operands::is_name(name),
        is_blanks(gap),
        rest.len() > 0,
        !text::is_whitespace(rest[0]),
        !operands::is_initial(rest[0]),
        !text::is_whitespace(rest.last()),
        forall|i: int| 0 <= i < rest.len() ==> #[trigger] rest[i] != ';',
    ensures
        grammar::line_of(line, indent + (name + (seq![':'] + (gap + rest)))) == Err::<
            LineView,
            ErrorView,
        >(
            ErrorView {
                line,
                col: column_behind(indent + (name + (seq![':'] + gap))),
                message: "expected mnemonic or directive"@,
            },
        ),
{
    let n = indent.len() as int;
    let behind = seq![':'] + (gap + rest);
    let s = indent + (name + behind);
    assert forall|i: int| 0 <= i < behind.len() implies #[trigger] behind[i] != ';' by {
        if 1 <= i < 1 + gap.len() {
            assert(behind[i] == gap[i - 1]);
        } else if i >= 1 {
            assert(behind[i] == rest[i - 1 - gap.len()]);
        }
    }
    assert(behind.last() == rest.last());
    lemma_fragment(indent, name, behind);
    lemma_proper(s);
    let p = (n + name.len()) as int;
    let w = (p + 1 + gap.len()) as int;
    lemma_both(s, 0, indent, name + behind);
    lemma_both(s, n, name, behind);
    lemma_both(s, p, seq![':'], gap + rest);
    lemma_both(s, p + 1, gap, rest);
    assert(s[n] == name[0]);
    assert(s[p] == ':');
    assert(s[w] == rest[0]);
    lemma_says(s, indent);
    lemma_name(s, n, name);
    lemma_skip(s, p + 1, gap);
    assert(s.take(w) =~= indent + (name + (seq![':'] + gap)));
    assert(grammar::label_at(s, n).1 == p + 1);
    reveal(grammar::line_of);
}

/// The flags of an instruction, each behind blanks.
pub open spec fn flags_text(flags: Seq<(Seq<char>, char)>) -> Seq<char>
    decreases flags.len(),
{
    if flags.len() == 0 {
        seq![]
    } else {
        flags[0].0 + (seq![flags[0].1] + flags_text(flags.skip(1)))
    }
}

/// Whether these are flags: `I` or `L` in either case, each behind a blank or
/// more.
pub open spec fn are_flags(flags: Seq<(Seq<char>, char)>) -> bool {
    forall|k: int|
        0 <= k < flags.len() ==> {
            let (gap, c) = #[trigger] flags[k];
            &&& is_blanks(gap)
            &&& gap.len() > 0
            &&& c == 'I' || c == 'i' || c == 'L' || c == 'l'
        }
}

/// Whether one of two letters is among the flags.
pub open spec fn is_set(flags: Seq<(Seq<char>, char)>, upper: char, lower: char) -> bool {
    exists|k: int|
        0 <= k < flags.len() && (#[trigger] flags[k].1 == upper || flags[k].1 == lower)
}

/// Whether the text at `pos` is left alone by what reads flags.
spec fn is_no_flag(s: Seq<char>, pos: int, bare: bool) -> bool {
    match grammar::ident_end(s, pos) {
        None => true,
        Some(end) => {
            let word = text::lower(s.subrange(pos, end));
            !((word == seq!['i'] || word == seq!['l']) && (bare || text::skip_blanks(s, end)
                < s.len()))
        },
    }
}

/// What one flag more changes.
proof fn lemma_set_more(flags: Seq<(Seq<char>, char)>, upper: char, lower: char)
    requires
        flags.len() > 0,
    ensures
        is_set(flags, upper, lower) <==> flags[0].1 == upper || flags[0].1 == lower || is_set(
            flags.skip(1),
            upper,
            lower,
        ),
{
    let rest = flags.skip(1);
    if is_set(flags, upper, lower) {
        let k = choose|k: int|
            0 <= k < flags.len() && (#[trigger] flags[k].1 == upper || flags[k].1 == lower);
        if k > 0 {
            assert(rest[k - 1].1 == flags[k].1);
        }
    }
    if is_set(rest, upper, lower) {
        let k = choose|k: int|
            0 <= k < rest.len() && (#[trigger] rest[k].1 == upper || rest[k].1 == lower);
        assert(flags[k + 1].1 == rest[k].1);
    }
}

/// The flags at a place are read, and nothing else is read as one.
proof fn lemma_flags(
    s: Seq<char>,
    pos: int,
    flags: Seq<(Seq<char>, char)>,
    gap: Seq<char>,
    bare: bool,
    long: bool,
    indirect: bool,
)
    requires
        are_flags(flags),
        is_blanks(gap),
        stands_at(s, pos, flags_text(flags) + gap),
        ({
            let p = pos + flags_text(flags).len() + gap.len();
            &&& p == s.len() || (!text::is_blank(s[p]) && (gap.len() > 0 || flags.len() == 0
                || !text::continues_ident(s[p])))
            &&& p == s.len() ==> (bare || flags.len() == 0) && gap.len() == 0
            &&& is_no_flag(s, p, bare)
        }),
    ensures
        grammar::flags_at(s, pos, bare, long, indirect) == (Flags {
            long: long || is_set(flags, 'L', 'l'),
            indirect: indirect || is_set(flags, 'I', 'i'),
            pos: pos + flags_text(flags).len() + gap.len(),
        }),
    decreases flags.len(),
{
    let p = pos + flags_text(flags).len() + gap.len();
    lemma_both(s, pos, flags_text(flags), gap);
    if flags.len() == 0 {
        lemma_skip(s, pos, gap);
    } else {
        let (before, c) = flags[0];
        let rest = flags.skip(1);
        let q = (pos + before.len()) as int;
        lemma_both(s, pos, before, seq![c] + flags_text(rest));
        lemma_both(s, q, seq![c], flags_text(rest));
        assert(s[q] == c);
        lemma_skip(s, pos, before);
        assert forall|k: int| 0 <= k < rest.len() implies {
            let (gap, c) = #[trigger] rest[k];
            &&& is_blanks(gap)
            &&& gap.len() > 0
            &&& c == 'I' || c == 'i' || c == 'L' || c == 'l'
        } by {
            assert(rest[k] == flags[k + 1]);
        }
        if q + 1 < s.len() {
            if rest.len() > 0 {
                lemma_both(s, q + 1, rest[0].0, seq![rest[0].1] + flags_text(rest.skip(1)));
                assert(s[q + 1] == rest[0].0[0]);
            } else if gap.len() > 0 {
                assert(s[q + 1] == gap[0]);
            }
            assert(!text::continues_ident(s[q + 1]));
        }
        lemma_name(s, q, seq![c]);
        assert(text::lower(seq![c]) =~= seq![text::lower_char(c)]);
        assert(seq!['i'][0] == 'i' && seq!['l'][0] == 'l');
        assert(text::lower(seq![c])[0] == text::lower_char(c));
        if p < s.len() {
            lemma_skip_stops(s, q + 1, p);
        }
        assert forall|j: int| q + 1 <= j < p implies #[trigger] s[j] == (flags_text(rest) + gap)[j
            - q - 1] by {}
        let l = text::lower_char(c) == 'l';
        let i = text::lower_char(c) == 'i';
        lemma_flags(s, q + 1, rest, gap, bare, long || l, indirect || i);
        lemma_set_more(flags, 'L', 'l');
        lemma_set_more(flags, 'I', 'i');
    }
}

/// A tag before an operand: a digit, and a comma between blanks.
pub struct Tag {
    pub digit: char,
    pub before: Seq<char>,
    pub after: Seq<char>,
}

/// A mask behind an operand: a comma between blanks, and a token.
pub struct Mask {
    pub before: Seq<char>,
    pub after: Seq<char>,
    pub token: Seq<char>,
}

/// The parts of an instruction's line. Behind the instruction, and behind
/// blanks, something may stand that does not belong there.
pub struct Written {
    pub head: Head,
    pub flags: Seq<(Seq<char>, char)>,
    pub gap: Seq<char>,
    pub tag: Option<Tag>,
    pub operand: Seq<char>,
    pub mask: Option<Mask>,
    pub more: Seq<char>,
    pub junk: Seq<char>,
}

pub open spec fn tag_text(tag: Option<Tag>) -> Seq<char> {
    match tag {
        None => seq![],
        Some(t) => seq![t.digit] + (t.before + (seq![','] + t.after)),
    }
}

/// The number of the index register that a tag names.
pub open spec fn tag_value(tag: Option<Tag>) -> u8 {
    match tag {
        None => 0,
        Some(t) => if t.digit == '1' {
            1
        } else if t.digit == '2' {
            2
        } else if t.digit == '3' {
            3
        } else {
            0
        },
    }
}

pub open spec fn mask_text(mask: Option<Mask>) -> Seq<char> {
    match mask {
        None => seq![],
        Some(m) => m.before + (seq![','] + (m.after + m.token)),
    }
}

/// The text up to the operand.
pub open spec fn operand_front(w: Written) -> Seq<char> {
    head_text(w.head) + ((flags_text(w.flags) + w.gap) + tag_text(w.tag))
}

/// The text up to the mask.
pub open spec fn mask_front(w: Written, m: Mask) -> Seq<char> {
    operand_front(w) + (w.operand + (m.before + (seq![','] + m.after)))
}

/// The text up to what does not belong there.
pub open spec fn junk_front(w: Written) -> Seq<char> {
    operand_front(w) + (w.operand + (mask_text(w.mask) + w.more))
}

pub open spec fn written_text(w: Written) -> Seq<char> {
    operand_front(w) + (w.operand + (mask_text(w.mask) + (w.more + w.junk)))
}

pub open spec fn is_tag(tag: Option<Tag>) -> bool {
    match tag {
        None => true,
        Some(t) => '0' <= t.digit && t.digit <= '3' && is_blanks(t.before) && is_blanks(t.after),
    }
}

pub open spec fn is_mask(mask: Option<Mask>) -> bool {
    match mask {
        None => true,
        Some(m) => is_blanks(m.before) && is_blanks(m.after) && is_token(m.token),
    }
}

/// Whether an operand begins as a flag would: `I` or `L`, and no letter or
/// digit behind it.
pub open spec fn is_like_flag(operand: Seq<char>) -> bool {
    &&& operand[0] == 'I' || operand[0] == 'i' || operand[0] == 'L' || operand[0] == 'l'
    &&& operand.len() == 1 || !(operands::is_initial(operand[1]) || ('0' <= operand[1]
        && operand[1] <= '9'))
}

/// Whether the parts make an instruction's line. An operand that looks like a
/// flag has to be the last of the line, and none of `WAIT`; a number up to 3
/// that has a comma behind it is a tag and no operand.
pub open spec fn is_laid(w: Written) -> bool {
    let name = text::lower(w.head.word);
    &&& is_head(w.head)
    &&& !is_directive_name(w.head.word)
    &&& are_flags(w.flags)
    &&& is_blanks(w.gap)
    &&& w.gap.len() > 0 || (w.flags.len() > 0 && w.tag is None && !(operands::is_initial(
        w.operand[0],
    ) || ('0' <= w.operand[0] && w.operand[0] <= '9')))
    &&& is_tag(w.tag)
    &&& is_token(w.operand)
    &&& is_mask(w.mask)
    &&& w.tag is None && (w.mask is Some || (w.junk.len() > 0 && w.junk[0] == ',')) ==> !(
    w.operand.len() == 1 && '0' <= w.operand[0] && w.operand[0] <= '3')
    &&& w.tag is None && is_like_flag(w.operand) ==> w.operand.len() == 1 && w.mask is None
        && w.junk.len() == 0 && name != "wait"@
    &&& is_blanks(w.more)
    &&& w.junk.len() == 0 ==> w.more.len() == 0
    &&& w.junk.len() > 0 ==> is_junk(w.junk) && (w.more.len() > 0 || w.junk[0] == ',')
}

/// Whether the parts make an instruction's line on which a comma behind the
/// operand, if there is one, begins the mask.
pub open spec fn is_written(w: Written) -> bool {
    &&& is_laid(w)
    &&& w.mask is None && w.junk.len() > 0 ==> w.junk[0] != ','
}

/// What becomes of the line once its operands are read.
pub open spec fn read_with(
    line: u32,
    w: Written,
    operand: OperandView,
    mask: Option<OperandView>,
) -> Result<LineView, ErrorView> {
    if w.junk.len() > 0 {
        Err(
            ErrorView {
                line,
                col: column_behind(junk_front(w)),
                message: "unexpected trailing input: "@ + text::quoted_text(w.junk),
            },
        )
    } else {
        Ok(
            LineView {
                line,
                label: head_label(w.head),
                body: BodyView::Instruction(
                    InstructionView {
                        mnemonic: text::lower(w.head.word),
                        mnemonic_col: column_behind(front_text(w.head)),
                        long_flag: is_set(w.flags, 'L', 'l'),
                        indirect_flag: is_set(w.flags, 'I', 'i'),
                        tag: tag_value(w.tag),
                        operand: Some(operand),
                        mask,
                    },
                ),
            },
        )
    }
}

/// The places of a line's parts.
proof fn lemma_places(s: Seq<char>, w: Written)
    requires
        s == written_text(w),
    ensures
        ({
            let e = head_text(w.head).len() as int;
            let p = (e + flags_text(w.flags).len() + w.gap.len()) as int;
            let q = (p + tag_text(w.tag).len()) as int;
            let r = (q + w.operand.len()) as int;
            let t = (r + mask_text(w.mask).len()) as int;
            &&& stands_at(s, 0, head_text(w.head))
            &&& stands_at(s, e, flags_text(w.flags) + w.gap)
            &&& stands_at(s, p, tag_text(w.tag))
            &&& stands_at(s, q, w.operand)
            &&& stands_at(s, r, mask_text(w.mask))
            &&& stands_at(s, t, w.more)
            &&& stands_at(s, t + w.more.len(), w.junk)
            &&& s.len() == t + w.more.len() + w.junk.len()
            &&& s.take(q) == operand_front(w)
            &&& s.take(t + w.more.len()) == junk_front(w)
            &&& s.skip(t + w.more.len()) == w.junk
        }),
{
    let e = head_text(w.head).len() as int;
    let flags = flags_text(w.flags) + w.gap;
    let p = (e + flags.len()) as int;
    let q = (p + tag_text(w.tag).len()) as int;
    let r = (q + w.operand.len()) as int;
    let t = (r + mask_text(w.mask).len()) as int;
    let rest = mask_text(w.mask) + (w.more + w.junk);
    lemma_both(s, 0, operand_front(w), w.operand + rest);
    lemma_both(s, 0, head_text(w.head), flags + tag_text(w.tag));
    lemma_both(s, e, flags, tag_text(w.tag));
    lemma_both(s, q, w.operand, rest);
    lemma_both(s, r, mask_text(w.mask), w.more + w.junk);
    lemma_both(s, t, w.more, w.junk);
    assert(s.take(q) =~= operand_front(w));
    assert(s.take(t + w.more.len()) =~= junk_front(w));
    assert(s.skip(t + w.more.len()) =~= w.junk);
}

/// No part of the line but what does not belong there holds a `;`, and the
/// line ends with something else than white space.
proof fn lemma_written_proper(w: Written)
    requires
        is_laid(w),
    ensures
        is_proper(written_text(w)),
{
    let s = written_text(w);
    let e = head_text(w.head).len() as int;
    let flags = flags_text(w.flags) + w.gap;
    let p = (e + flags.len()) as int;
    let q = (p + tag_text(w.tag).len()) as int;
    let r = (q + w.operand.len()) as int;
    let t = (r + mask_text(w.mask).len()) as int;
    lemma_places(s, w);
    lemma_both(s, e, flags_text(w.flags), w.gap);
    lemma_head_plain(w.head);
    lemma_flags_plain(w.flags);
    lemma_separators_plain(w);
    assert forall|i: int| 0 <= i < s.len() implies #[trigger] s[i] != ';' by {
        if i < e {
            assert(s[i] == head_text(w.head)[i]);
        } else if i < e + flags_text(w.flags).len() {
            assert(s[i] == flags_text(w.flags)[i - e]);
        } else if i < p {
            assert(s[i] == w.gap[i - e - flags_text(w.flags).len()]);
        } else if i < q {
            assert(s[i] == tag_text(w.tag)[i - p]);
        } else if i < r {
            assert(s[i] == w.operand[i - q]);
        } else if i < t {
            assert(s[i] == mask_text(w.mask)[i - r]);
        } else if i < t + w.more.len() {
            assert(s[i] == w.more[i - t]);
        } else {
            assert(s[i] == w.junk[i - t - w.more.len()]);
        }
    }
    if w.junk.len() > 0 {
        assert(s[s.len() - 1] == w.junk[w.junk.len() - 1]);
    } else if w.mask is Some {
        assert(s[s.len() - 1] == mask_text(w.mask)[mask_text(w.mask).len() - 1]);
    } else {
        assert(s[s.len() - 1] == w.operand[w.operand.len() - 1]);
        assert(!text::is_whitespace(w.operand[w.operand.len() - 1]));
    }
}

proof fn lemma_flags_plain(flags: Seq<(Seq<char>, char)>)
    requires
        are_flags(flags),
    ensures
        forall|i: int| 0 <= i < flags_text(flags).len() ==> #[trigger] flags_text(flags)[i] != ';',
    decreases flags.len(),
{
    if flags.len() > 0 {
        let rest = flags.skip(1);
        assert forall|k: int| 0 <= k < rest.len() implies {
            let (gap, c) = #[trigger] rest[k];
            &&& is_blanks(gap)
            &&& gap.len() > 0
            &&& c == 'I' || c == 'i' || c == 'L' || c == 'l'
        } by {
            assert(rest[k] == flags[k + 1]);
        }
        lemma_flags_plain(rest);
        let (before, c) = flags[0];
        let t = flags_text(flags);
        assert(t == before + (seq![c] + flags_text(rest)));
        assert forall|i: int| 0 <= i < t.len() implies #[trigger] t[i] != ';' by {
            if i < before.len() {
                assert(t[i] == before[i]);
            } else if i > before.len() {
                assert(t[i] == flags_text(rest)[i - before.len() - 1]);
            }
        }
    }
}

proof fn lemma_separators_plain(w: Written)
    requires
        is_tag(w.tag),
        is_mask(w.mask),
    ensures
        forall|i: int| 0 <= i < tag_text(w.tag).len() ==> #[trigger] tag_text(w.tag)[i] != ';',
        forall|i: int| 0 <= i < mask_text(w.mask).len() ==> #[trigger] mask_text(w.mask)[i] != ';',
        w.mask is Some ==> mask_text(w.mask).len() > 0 && !text::is_whitespace(
            mask_text(w.mask)[mask_text(w.mask).len() - 1],
        ),
{
    if let Some(t) = w.tag {
        let s = tag_text(w.tag);
        assert forall|i: int| 0 <= i < s.len() implies #[trigger] s[i] != ';' by {
            if 1 <= i < 1 + t.before.len() {
                assert(s[i] == t.before[i - 1]);
            } else if i > 1 + t.before.len() {
                assert(s[i] == t.after[i - 2 - t.before.len()]);
            }
        }
    }
    if let Some(m) = w.mask {
        let s = mask_text(w.mask);
        let n = m.before.len() as int;
        assert forall|i: int| 0 <= i < s.len() implies #[trigger] s[i] != ';' by {
            if i < n {
                assert(s[i] == m.before[i]);
            } else if n < i < n + 1 + m.after.len() {
                assert(s[i] == m.after[i - n - 1]);
            } else if i > n {
                assert(s[i] == m.token[i - n - 1 - m.after.len()]);
            }
        }
        assert(s[s.len() - 1] == m.token[m.token.len() - 1]);
        assert(!text::is_whitespace(m.token[m.token.len() - 1]));
    }
}

/// The character behind an operand is a blank or a comma, if there is one.
proof fn lemma_behind_operand(s: Seq<char>, w: Written)
    requires
        is_laid(w),
        s == written_text(w),
    ensures
        ({
            let r = (operand_front(w).len() + w.operand.len()) as int;
            let t = (r + mask_text(w.mask).len()) as int;
            &&& r < s.len() ==> text::is_blank(s[r]) || s[r] == ','
            &&& t < s.len() ==> text::is_blank(s[t]) || s[t] == ','
            &&& w.mask is None && w.junk.len() > 0 ==> text::skip_blanks(s, r) == t + w.more.len()
                && s[t + w.more.len()] == w.junk[0]
            &&& w.mask is None && w.junk.len() == 0 ==> r == s.len()
            &&& w.mask is Some ==> r < s.len()
        }),
{
    let r = (operand_front(w).len() + w.operand.len()) as int;
    let t = (r + mask_text(w.mask).len()) as int;
    lemma_places(s, w);
    if t < s.len() {
        if w.more.len() > 0 {
            assert(s[t] == w.more[0]);
        }
        assert(s[t + w.more.len()] == w.junk[0]);
    }
    match w.mask {
        None => {
            if w.junk.len() > 0 {
                lemma_skip(s, r, w.more);
            }
        },
        Some(m) => {
            lemma_both(s, r, m.before, seq![','] + (m.after + m.token));
            lemma_both(s, (r + m.before.len()) as int, seq![','], m.after + m.token);
            if m.before.len() > 0 {
                assert(s[r] == m.before[0]);
            } else {
                assert(s[r] == ',');
            }
        },
    }
}

/// A tag at a place is read.
proof fn lemma_tag_there(s: Seq<char>, p: int, t: Tag)
    requires
        is_tag(Some(t)),
        stands_at(s, p, tag_text(Some(t))),
        p + tag_text(Some(t)).len() < s.len() ==> !text::is_blank(s[p + tag_text(Some(t)).len()]),
    ensures
        grammar::tag_at(s, p) == (tag_value(Some(t)), (p + tag_text(Some(t)).len()) as int),
{
    let c = (p + 1 + t.before.len()) as int;
    lemma_both(s, p, seq![t.digit], t.before + (seq![','] + t.after));
    lemma_both(s, p + 1, t.before, seq![','] + t.after);
    lemma_both(s, c, seq![','], t.after);
    assert(s[p] == t.digit);
    assert(s[c] == ',');
    lemma_skip(s, p + 1, t.before);
    lemma_skip(s, c + 1, t.after);
}

/// An operand is not read as a tag.
proof fn lemma_no_tag(s: Seq<char>, w: Written)
    requires
        is_laid(w),
        s == written_text(w),
        w.tag is None,
    ensures
        grammar::tag_end(s, operand_front(w).len() as int) is None,
{
    let q = operand_front(w).len() as int;
    lemma_places(s, w);
    lemma_behind_operand(s, w);
    assert(s[q] == w.operand[0]);
    if w.operand.len() > 1 {
        assert(s[q + 1] == w.operand[1]);
        assert(!text::is_whitespace(w.operand[1]));
        lemma_skip(s, q + 1, Seq::<char>::empty());
    } else if w.junk.len() == 0 && w.mask is None {
        lemma_skip(s, q + 1, Seq::<char>::empty());
    }
}

/// The tag of an instruction is read.
proof fn lemma_tag(s: Seq<char>, w: Written)
    requires
        is_laid(w),
        s == written_text(w),
    ensures
        ({
            let p = (head_text(w.head).len() + flags_text(w.flags).len() + w.gap.len()) as int;
            let q = operand_front(w).len() as int;
            grammar::tag_at(s, p) == (tag_value(w.tag), q)
        }),
{
    let p = (head_text(w.head).len() + flags_text(w.flags).len() + w.gap.len()) as int;
    let q = operand_front(w).len() as int;
    match w.tag {
        Some(t) => {
            lemma_places(s, w);
            assert(s[q] == w.operand[0]);
            assert(!text::is_whitespace(w.operand[0]));
            lemma_tag_there(s, p, t);
        },
        None => {
            lemma_no_tag(s, w);
        },
    }
}

/// An operand that does not begin as a flag would is not read as one.
proof fn lemma_unlike_flag(s: Seq<char>, p: int, operand: Seq<char>, bare: bool)
    requires
        stands_at(s, p, operand),
        operand.len() > 0,
        !is_like_flag(operand),
        p + operand.len() < s.len() ==> !text::continues_ident(s[p + operand.len()]),
    ensures
        is_no_flag(s, p, bare),
{
    assert(s[p] == operand[0]);
    if text::starts_ident(s[p]) {
        grammar::lemma_run_end(s, p);
        let end = grammar::run_end(s, p);
        let word = text::lower(s.subrange(p, end));
        assert(word[0] == text::lower_char(operand[0]));
        assert(seq!['i'][0] == 'i' && seq!['l'][0] == 'l');
        if operand.len() > 1 && text::continues_ident(operand[1]) {
            assert(s[p + 1] == operand[1]);
            grammar::lemma_run_end(s, p + 2);
            assert(grammar::run_end(s, p) == grammar::run_end(s, p + 1));
            assert(grammar::run_end(s, p + 1) == grammar::run_end(s, p + 2));
            assert(word.len() >= 2);
        }
    }
}

/// Nor is one that does, if it is the last of the line.
proof fn lemma_last_like_flag(s: Seq<char>, p: int, operand: Seq<char>)
    requires
        stands_at(s, p, operand),
        operand.len() == 1,
        p + 1 == s.len(),
    ensures
        is_no_flag(s, p, false),
{
    assert(s[p] == operand[0]);
    if text::starts_ident(s[p]) {
        assert(grammar::run_end(s, p + 1) == p + 1);
        lemma_skip(s, p + 1, Seq::<char>::empty());
    }
}

/// What stands behind the flags of an instruction is not read as one.
proof fn lemma_no_flag(s: Seq<char>, w: Written)
    requires
        is_laid(w),
        s == written_text(w),
    ensures
        ({
            let p = (head_text(w.head).len() + flags_text(w.flags).len() + w.gap.len()) as int;
            &&& p < s.len()
            &&& !text::is_blank(s[p])
            &&& is_no_flag(s, p, grammar::no_operand(text::lower(w.head.word)))
        }),
{
    let p = (head_text(w.head).len() + flags_text(w.flags).len() + w.gap.len()) as int;
    let bare = grammar::no_operand(text::lower(w.head.word));
    lemma_places(s, w);
    match w.tag {
        Some(t) => {
            lemma_both(s, p, seq![t.digit], t.before + (seq![','] + t.after));
            assert(s[p] == t.digit);
        },
        None => {
            lemma_behind_operand(s, w);
            assert(s[p] == w.operand[0]);
            assert(!text::is_whitespace(w.operand[0]));
            if is_like_flag(w.operand) {
                lemma_last_like_flag(s, p, w.operand);
            } else {
                lemma_unlike_flag(s, p, w.operand, bare);
            }
        },
    }
}

/// What a token behind `front` is read as.
#[verifier::opaque]
spec fn token_read(line: u32, front: Seq<char>, token: Seq<char>) -> Result<
    OperandView,
    ErrorView,
> {
    grammar::operand_of(line, column_behind(front), token)
}

proof fn lemma_token(line: u32, s: Seq<char>, pos: int, token: Seq<char>)
    requires
        stands_at(s, pos, token),
        is_token(token),
        pos + token.len() < s.len() ==> text::is_blank(s[pos + token.len()]) || s[pos + token.len()]
            == ',',
    ensures
        grammar::operand_at(line, s, pos) == match token_read(line, s.take(pos), token) {
            Ok(op) => Ok::<(OperandView, int), ErrorView>((op, (pos + token.len()) as int)),
            Err(e) => Err(e),
        },
        !text::is_blank(s[pos]),
        s[pos] != ',',
{
    reveal(token_read);
    lemma_operand(line, s, pos, token);
}

/// The places of a mask's parts.
proof fn lemma_mask_places(s: Seq<char>, w: Written, m: Mask)
    requires
        is_laid(w),
        s == written_text(w),
        w.mask == Some(m),
    ensures
        ({
            let r = (operand_front(w).len() + w.operand.len()) as int;
            let c = (r + m.before.len()) as int;
            let k = (c + 1 + m.after.len()) as int;
            let t = (k + m.token.len()) as int;
            &&& stands_at(s, r, m.before)
            &&& c < s.len()
            &&& s[c] == ','
            &&& stands_at(s, c + 1, m.after)
            &&& stands_at(s, k, m.token)
            &&& t == s.len() - w.junk.len() - w.more.len()
            &&& t < s.len() ==> text::is_blank(s[t]) || s[t] == ','
            &&& s.take(k) == mask_front(w, m)
        }),
{
    let r = (operand_front(w).len() + w.operand.len()) as int;
    let c = (r + m.before.len()) as int;
    let k = (c + 1 + m.after.len()) as int;
    lemma_places(s, w);
    lemma_behind_operand(s, w);
    lemma_both(s, r, m.before, seq![','] + (m.after + m.token));
    lemma_both(s, c, seq![','], m.after + m.token);
    lemma_both(s, c + 1, m.after, m.token);
    assert(s[c] == ',');
    assert(s.take(k) =~= mask_front(w, m));
}

/// The mask of an instruction is read.
proof fn lemma_mask(line: u32, s: Seq<char>, w: Written, m: Mask)
    requires
        is_laid(w),
        s == written_text(w),
        w.mask == Some(m),
    ensures
        ({
            let r = (operand_front(w).len() + w.operand.len()) as int;
            let c = text::skip_blanks(s, r);
            &&& c < s.len()
            &&& s[c] == ','
            &&& grammar::operand_at(line, s, text::skip_blanks(s, c + 1)) == match token_read(
                line,
                mask_front(w, m),
                m.token,
            ) {
                Ok(mask) => Ok::<(OperandView, int), ErrorView>(
                    (mask, (s.len() - w.junk.len() - w.more.len()) as int),
                ),
                Err(e) => Err(e),
            }
        }),
{
    let r = (operand_front(w).len() + w.operand.len()) as int;
    let c = (r + m.before.len()) as int;
    let k = (c + 1 + m.after.len()) as int;
    lemma_mask_places(s, w, m);
    lemma_skip(s, r, m.before);
    lemma_token(line, s, k, m.token);
    lemma_skip(s, c + 1, m.after);
}

/// What the operand and the mask of an instruction come to.
spec fn operands_read(line: u32, s: Seq<char>, w: Written) -> Result<Operands, ErrorView> {
    match token_read(line, operand_front(w), w.operand) {
        Err(e) => Err(e),
        Ok(operand) => match w.mask {
            None => Ok(
                Operands {
                    tag: tag_value(w.tag),
                    operand: Some(operand),
                    mask: None,
                    pos: s.len() - w.junk.len(),
                },
            ),
            Some(m) => match token_read(line, mask_front(w, m), m.token) {
                Err(e) => Err(e),
                Ok(mask) => Ok(
                    Operands {
                        tag: tag_value(w.tag),
                        operand: Some(operand),
                        mask: Some(mask),
                        pos: s.len() - w.junk.len() - w.more.len(),
                    },
                ),
            },
        },
    }
}

/// What stands behind the operand of an instruction without a mask.
proof fn lemma_no_mask(s: Seq<char>, w: Written)
    requires
        is_written(w),
        s == written_text(w),
        w.mask is None,
    ensures
        ({
            let r = (operand_front(w).len() + w.operand.len()) as int;
            let next = text::skip_blanks(s, r);
            &&& next == s.len() - w.junk.len()
            &&& next < s.len() ==> s[next] != ','
        }),
{
    let r = (operand_front(w).len() + w.operand.len()) as int;
    lemma_places(s, w);
    lemma_behind_operand(s, w);
    if w.junk.len() == 0 {
        lemma_skip(s, r, Seq::<char>::empty());
    }
}

/// The operand of an instruction is read.
proof fn lemma_first_operand(line: u32, s: Seq<char>, w: Written)
    requires
        is_laid(w),
        s == written_text(w),
    ensures
        grammar::operand_at(line, s, operand_front(w).len() as int) == match token_read(
            line,
            operand_front(w),
            w.operand,
        ) {
            Ok(op) => Ok::<(OperandView, int), ErrorView>(
                (op, (operand_front(w).len() + w.operand.len()) as int),
            ),
            Err(e) => Err(e),
        },
{
    lemma_places(s, w);
    lemma_behind_operand(s, w);
    lemma_token(line, s, operand_front(w).len() as int, w.operand);
}

/// The operand and the mask of an instruction are read.
proof fn lemma_operand_and_mask(line: u32, s: Seq<char>, w: Written)
    requires
        is_written(w),
        s == written_text(w),
    ensures
        grammar::operand_and_mask(line, s, operand_front(w).len() as int, tag_value(w.tag))
            == operands_read(line, s, w),
{
    lemma_first_operand(line, s, w);
    match w.mask {
        None => {
            lemma_no_mask(s, w);
        },
        Some(m) => {
            lemma_mask(line, s, w, m);
        },
    }
}

/// The instruction of a line is read.
proof fn lemma_instruction(line: u32, s: Seq<char>, w: Written)
    requires
        is_written(w),
        s == written_text(w),
    ensures
        grammar::body_at(
            line,
            s,
            head_text(w.head).len() as int,
            text::lower(w.head.word),
            column_behind(front_text(w.head)),
        ) == match operands_read(line, s, w) {
            Err(e) => Err::<(BodyView, int), ErrorView>(e),
            Ok(operands) => Ok(
                (
                    BodyView::Instruction(
                        InstructionView {
                            mnemonic: text::lower(w.head.word),
                            mnemonic_col: column_behind(front_text(w.head)),
                            long_flag: is_set(w.flags, 'L', 'l'),
                            indirect_flag: is_set(w.flags, 'I', 'i'),
                            tag: tag_value(w.tag),
                            operand: operands.operand,
                            mask: operands.mask,
                        },
                    ),
                    operands.pos,
                ),
            ),
        },
{
    lemma_written_flags(s, w);
    lemma_operands(line, s, w);
}

/// The flags of an instruction are read.
proof fn lemma_written_flags(s: Seq<char>, w: Written)
    requires
        is_laid(w),
        s == written_text(w),
    ensures
        grammar::flags_at(
            s,
            head_text(w.head).len() as int,
            grammar::no_operand(text::lower(w.head.word)),
            false,
            false,
        ) == (Flags {
            long: is_set(w.flags, 'L', 'l'),
            indirect: is_set(w.flags, 'I', 'i'),
            pos: (head_text(w.head).len() + flags_text(w.flags).len() + w.gap.len()) as int,
        }),
{
    let e = head_text(w.head).len() as int;
    let bare = grammar::no_operand(text::lower(w.head.word));
    lemma_places(s, w);
    lemma_no_flag(s, w);
    lemma_flags(s, e, w.flags, w.gap, bare, false, false);
}

/// What stands behind the flags is read.
proof fn lemma_operands(line: u32, s: Seq<char>, w: Written)
    requires
        is_written(w),
        s == written_text(w),
    ensures
        grammar::operands_at(
            line,
            s,
            (head_text(w.head).len() + flags_text(w.flags).len() + w.gap.len()) as int,
        ) == operands_read(line, s, w),
        operands_read(line, s, w) matches Ok(operands) ==> operands.tag == tag_value(w.tag),
{
    lemma_tag(s, w);
    lemma_operand_and_mask(line, s, w);
    assert(operand_front(w).len() < s.len());
}

/// An instruction with its label, flags, tag, operand and mask, with blanks
/// between the fields and white space at the end: each field is read as what
/// it says, the error of an operand is the line's, in the operand's column, and
/// what stands behind the instruction is refused, in its column.
pub proof fn law_instruction_line(line: u32, w: Written, pad: Seq<char>)
    requires
        is_written(w),
        is_space(pad),
    ensures
        grammar::line_of(line, written_text(w) + pad) == match grammar::operand_of(
            line,
            column_behind(operand_front(w)),
            w.operand,
        ) {
            Err(e) => Err::<LineView, ErrorView>(e),
            Ok(operand) => match w.mask {
                None => read_with(line, w, operand, None),
                Some(m) => match grammar::operand_of(
                    line,
                    column_behind(mask_front(w, m)),
                    m.token,
                ) {
                    Err(e) => Err(e),
                    Ok(mask) => read_with(line, w, operand, Some(mask)),
                },
            },
        },
{
    lemma_instruction_line(line, w, pad);
    reveal(token_read);
}

#[verifier::spinoff_prover]
proof fn lemma_instruction_line(line: u32, w: Written, pad: Seq<char>)
    requires
        is_written(w),
        is_space(pad),
    ensures
        grammar::line_of(line, written_text(w) + pad) == match token_read(
            line,
            operand_front(w),
            w.operand,
        ) {
            Err(e) => Err::<LineView, ErrorView>(e),
            Ok(operand) => match w.mask {
                None => read_with(line, w, operand, None),
                Some(m) => match token_read(line, mask_front(w, m), m.token) {
                    Err(e) => Err(e),
                    Ok(mask) => read_with(line, w, operand, Some(mask)),
                },
            },
        },
{
    let s = written_text(w);
    let stop = (s.len() - w.junk.len()) as int;
    lemma_written_proper(w);
    lemma_pad(line, s, pad);
    lemma_blank_behind_head(s, w);
    lemma_places(s, w);
    lemma_head_read(line, s, w.head);
    lemma_instruction(line, s, w);
    if w.junk.len() > 0 {
        assert(s[stop] == w.junk[0]);
    }
    lemma_skip(s, stop, Seq::<char>::empty());
    lemma_skip(s, stop - w.more.len(), w.more);
}

proof fn lemma_blank_behind_head(s: Seq<char>, w: Written)
    requires
        is_laid(w),
        s == written_text(w),
    ensures
        head_text(w.head).len() < s.len(),
        text::is_blank(s[head_text(w.head).len() as int]),
{
    let e = head_text(w.head).len() as int;
    lemma_places(s, w);
    lemma_both(s, e, flags_text(w.flags), w.gap);
    if w.flags.len() > 0 {
        let (before, c) = w.flags[0];
        lemma_both(s, e, before, seq![c] + flags_text(w.flags.skip(1)));
        assert(s[e] == before[0]);
    } else {
        assert(s[e] == w.gap[0]);
    }
}

/// An instruction without an operand: with its mnemonic alone, or of `WAIT`
/// with flags.
pub proof fn law_bare_instruction(
    line: u32,
    h: Head,
    flags: Seq<(Seq<char>, char)>,
    pad: Seq<char>,
)
    requires
        is_head(h),
        !is_directive_name(h.word),
        are_flags(flags),
        flags.len() == 0 || text::lower(h.word) == "wait"@,
        is_space(pad),
    ensures
        grammar::line_of(line, head_text(h) + flags_text(flags) + pad) == Ok::<
            LineView,
            ErrorView,
        >(
            LineView {
                line,
                label: head_label(h),
                body: BodyView::Instruction(
                    InstructionView {
                        mnemonic: text::lower(h.word),
                        mnemonic_col: column_behind(front_text(h)),
                        long_flag: is_set(flags, 'L', 'l'),
                        indirect_flag: is_set(flags, 'I', 'i'),
                        tag: 0,
                        operand: None,
                        mask: None,
                    },
                ),
            },
        ),
{
    let s = head_text(h) + flags_text(flags);
    let e = head_text(h).len() as int;
    let none = Seq::<char>::empty();
    lemma_flagged_head(h, flags);
    lemma_pad(line, s, pad);
    lemma_head_read(line, s, h);
    assert(flags_text(flags) + none =~= flags_text(flags));
    lemma_flags(s, e, flags, none, grammar::no_operand(text::lower(h.word)), false, false);
    lemma_skip(s, s.len() as int, none);
}

/// A head and flags make a proper line.
proof fn lemma_flagged_head(h: Head, flags: Seq<(Seq<char>, char)>)
    requires
        is_head(h),
        are_flags(flags),
    ensures
        ({
            let s = head_text(h) + flags_text(flags);
            &&& is_proper(s)
            &&& stands_at(s, 0, head_text(h))
            &&& stands_at(s, head_text(h).len() as int, flags_text(flags))
            &&& flags.len() == 0 ==> s.len() == head_text(h).len()
            &&& head_text(h).len() < s.len() ==> text::is_blank(s[head_text(h).len() as int])
        }),
{
    let s = head_text(h) + flags_text(flags);
    let e = head_text(h).len() as int;
    lemma_head_plain(h);
    lemma_flags_plain(flags);
    assert forall|i: int| 0 <= i < s.len() implies #[trigger] s[i] != ';' by {
        if i < e {
            assert(s[i] == head_text(h)[i]);
        } else {
            assert(s[i] == flags_text(flags)[i - e]);
        }
    }
    if flags.len() == 0 {
        assert(s =~= head_text(h));
    } else {
        let (before, c) = flags[0];
        lemma_both(s, e, before, seq![c] + flags_text(flags.skip(1)));
        assert(s[e] == before[0]);
        lemma_last_flag(flags);
        assert(s.last() == flags_text(flags).last());
    }
}

proof fn lemma_last_flag(flags: Seq<(Seq<char>, char)>)
    requires
        are_flags(flags),
        flags.len() > 0,
    ensures
        flags_text(flags).len() > 0,
        flags_text(flags).last() == flags.last().1,
    decreases flags.len(),
{
    let rest = flags.skip(1);
    let (before, c) = flags[0];
    assert(flags_text(flags) == before + (seq![c] + flags_text(rest)));
    if rest.len() > 0 {
        assert forall|k: int| 0 <= k < rest.len() implies {
            let (gap, c) = #[trigger] rest[k];
            &&& is_blanks(gap)
            &&& gap.len() > 0
            &&& c == 'I' || c == 'i' || c == 'L' || c == 'l'
        } by {
            assert(rest[k] == flags[k + 1]);
        }
        lemma_last_flag(rest);
        assert(flags_text(flags).last() == flags_text(rest).last());
    } else {
        assert(flags_text(flags).last() == c);
    }
}

/// Whether no operand token stands at the beginning of a text: it begins with
/// a comma, or with a sign that has a blank, a comma or nothing behind it.
pub open spec fn has_no_token(rest: Seq<char>) -> bool {
    &&& rest.len() > 0
    &&& rest[0] == ',' || ((rest[0] == '+' || rest[0] == '-') && (rest.len() == 1 || rest[1] == ' '
        || rest[1] == '\t' || rest[1] == ','))
}

proof fn lemma_no_token(line: u32, s: Seq<char>, pos: int, rest: Seq<char>)
    requires
        stands_at(s, pos, rest),
        pos + rest.len() == s.len(),
        has_no_token(rest),
    ensures
        grammar::operand_at(line, s, pos) == Err::<(OperandView, int), ErrorView>(
            ErrorView {
                line,
                col: column_behind(s.take(pos)),
                message: "expected operand (number or symbol)"@,
            },
        ),
        !text::is_blank(s[pos]),
        !text::starts_ident(s[pos]),
        !text::is_decimal(s[pos]),
{
    assert(s[pos] == rest[0]);
    if rest.len() > 1 {
        assert(s[pos + 1] == rest[1]);
    }
}

/// Where the operand of a directive is due, a comma or a sign alone is
/// refused, in its column.
pub proof fn law_no_operand_there(line: u32, h: Head, gap: Seq<char>, rest: Seq<char>)
    requires
        is_head(h),
        takes_operand(h.word),
        is_blanks(gap),
        gap.len() > 0,
        has_no_token(rest),
        !text::is_whitespace(rest.last()),
        forall|i: int| 0 <= i < rest.len() ==> #[trigger] rest[i] != ';',
    ensures
        grammar::line_of(line, head_text(h) + (gap + rest)) == Err::<LineView, ErrorView>(
            ErrorView {
                line,
                col: column_behind(head_text(h) + gap),
                message: "expected operand (number or symbol)"@,
            },
        ),
{
    let e = head_text(h).len() as int;
    let s = head_text(h) + (gap + rest);
    let p = (e + gap.len()) as int;
    grammar::lemma_directives();
    lemma_joined(h, gap, rest);
    lemma_head_read(line, s, h);
    lemma_both(s, e, gap, rest);
    lemma_no_token(line, s, p, rest);
    lemma_skip(s, e, gap);
    assert(s.take(p) =~= head_text(h) + gap);
}

/// Where the operand of an instruction is due, a comma or a sign alone is
/// refused, in its column.
pub proof fn law_no_instruction_operand(
    line: u32,
    h: Head,
    flags: Seq<(Seq<char>, char)>,
    gap: Seq<char>,
    rest: Seq<char>,
)
    requires
        is_head(h),
        !is_directive_name(h.word),
        are_flags(flags),
        is_blanks(gap),
        gap.len() > 0 || flags.len() > 0,
        has_no_token(rest),
        !text::is_whitespace(rest.last()),
        forall|i: int| 0 <= i < rest.len() ==> #[trigger] rest[i] != ';',
    ensures
        grammar::line_of(line, head_text(h) + ((flags_text(flags) + gap) + rest)) == Err::<
            LineView,
            ErrorView,
        >(
            ErrorView {
                line,
                col: column_behind(head_text(h) + (flags_text(flags) + gap)),
                message: "expected operand (number or symbol)"@,
            },
        ),
{
    let e = head_text(h).len() as int;
    let s = head_text(h) + ((flags_text(flags) + gap) + rest);
    let p = (e + flags_text(flags).len() + gap.len()) as int;
    lemma_flagged(h, flags, gap, rest);
    lemma_head_read(line, s, h);
    lemma_both(s, e, flags_text(flags) + gap, rest);
    assert(s.take(p) =~= head_text(h) + (flags_text(flags) + gap));
    lemma_no_operand_body(line, s, h, flags, gap, rest);
}

proof fn lemma_no_operand_body(
    line: u32,
    s: Seq<char>,
    h: Head,
    flags: Seq<(Seq<char>, char)>,
    gap: Seq<char>,
    rest: Seq<char>,
)
    requires
        !is_directive_name(h.word),
        are_flags(flags),
        is_blanks(gap),
        has_no_token(rest),
        stands_at(s, head_text(h).len() as int, flags_text(flags) + gap),
        ({
            let p = (head_text(h).len() + flags_text(flags).len() + gap.len()) as int;
            stands_at(s, p, rest) && p + rest.len() == s.len()
        }),
    ensures
        grammar::body_at(
            line,
            s,
            head_text(h).len() as int,
            text::lower(h.word),
            column_behind(front_text(h)),
        ) == Err::<(BodyView, int), ErrorView>(
            ErrorView {
                line,
                col: column_behind(
                    s.take((head_text(h).len() + flags_text(flags).len() + gap.len()) as int),
                ),
                message: "expected operand (number or symbol)"@,
            },
        ),
{
    let e = head_text(h).len() as int;
    let p = (e + flags_text(flags).len() + gap.len()) as int;
    lemma_no_token(line, s, p, rest);
    lemma_flags(s, e, flags, gap, grammar::no_operand(text::lower(h.word)), false, false);
    assert(grammar::tag_at(s, p) == (0u8, p));
}

/// A head, flags, blanks and a text make a proper line.
proof fn lemma_flagged(h: Head, flags: Seq<(Seq<char>, char)>, gap: Seq<char>, rest: Seq<char>)
    requires
        is_head(h),
        are_flags(flags),
        is_blanks(gap),
        gap.len() > 0 || flags.len() > 0,
        is_proper(rest),
    ensures
        ({
            let s = head_text(h) + ((flags_text(flags) + gap) + rest);
            &&& is_proper(s)
            &&& stands_at(s, 0, head_text(h))
            &&& stands_at(s, head_text(h).len() as int, (flags_text(flags) + gap) + rest)
            &&& text::is_blank(s[head_text(h).len() as int])
        }),
{
    let s = head_text(h) + ((flags_text(flags) + gap) + rest);
    let e = head_text(h).len() as int;
    let f = flags_text(flags);
    lemma_head_plain(h);
    lemma_flags_plain(flags);
    assert forall|i: int| 0 <= i < s.len() implies #[trigger] s[i] != ';' by {
        if i < e {
            assert(s[i] == head_text(h)[i]);
        } else if i < e + f.len() {
            assert(s[i] == f[i - e]);
        } else if i < e + f.len() + gap.len() {
            assert(s[i] == gap[i - e - f.len()]);
        } else {
            assert(s[i] == rest[i - e - f.len() - gap.len()]);
        }
    }
    assert(s.last() == rest.last());
    lemma_both(s, e, f + gap, rest);
    lemma_both(s, e, f, gap);
    if flags.len() > 0 {
        let (before, c) = flags[0];
        lemma_both(s, e, before, seq![c] + flags_text(flags.skip(1)));
        assert(s[e] == before[0]);
    } else {
        assert(s[e] == gap[0]);
    }
}

/// A tag with nothing behind its comma is a tag, and the instruction has no
/// operand.
pub proof fn law_tag_alone(
    line: u32,
    h: Head,
    flags: Seq<(Seq<char>, char)>,
    gap: Seq<char>,
    tag: Tag,
    pad: Seq<char>,
)
    requires
        is_head(h),
        !is_directive_name(h.word),
        are_flags(flags),
        is_blanks(gap),
        gap.len() > 0,
        is_tag(Some(tag)),
        tag.after.len() == 0,
        is_space(pad),
    ensures
        grammar::line_of(
            line,
            head_text(h) + ((flags_text(flags) + gap) + tag_text(Some(tag))) + pad,
        ) == Ok::<LineView, ErrorView>(
            LineView {
                line,
                label: head_label(h),
                body: BodyView::Instruction(
                    InstructionView {
                        mnemonic: text::lower(h.word),
                        mnemonic_col: column_behind(front_text(h)),
                        long_flag: is_set(flags, 'L', 'l'),
                        indirect_flag: is_set(flags, 'I', 'i'),
                        tag: tag_value(Some(tag)),
                        operand: None,
                        mask: None,
                    },
                ),
            },
        ),
{
    let rest = tag_text(Some(tag));
    let s = head_text(h) + ((flags_text(flags) + gap) + rest);
    let e = head_text(h).len() as int;
    let p = (e + flags_text(flags).len() + gap.len()) as int;
    let c = (p + 1 + tag.before.len()) as int;
    assert forall|i: int| 0 <= i < rest.len() implies #[trigger] rest[i] != ';' by {
        if 1 <= i < 1 + tag.before.len() {
            assert(rest[i] == tag.before[i - 1]);
        }
    }
    assert(rest.last() == ',');
    lemma_flagged(h, flags, gap, rest);
    lemma_pad(line, s, pad);
    lemma_head_read(line, s, h);
    lemma_both(s, e, flags_text(flags) + gap, rest);
    lemma_both(s, p, seq![tag.digit], tag.before + (seq![','] + tag.after));
    lemma_both(s, p + 1, tag.before, seq![','] + tag.after);
    lemma_both(s, c, seq![','], tag.after);
    assert(s[p] == tag.digit);
    assert(s[c] == ',');
    lemma_flags(s, e, flags, gap, grammar::no_operand(text::lower(h.word)), false, false);
    lemma_skip(s, p + 1, tag.before);
    lemma_skip(s, s.len() as int, Seq::<char>::empty());
}

/// A comma behind an operand announces a mask: without one, the line is
/// refused, in the column where the mask is missed.
#[verifier::spinoff_prover]
pub proof fn law_missing_mask(
    line: u32,
    w: Written,
    after: Seq<char>,
    rest: Seq<char>,
    pad: Seq<char>,
    op: OperandView,
)
    requires
        is_laid(w),
        w.mask is None,
        w.junk == seq![','] + (after + rest),
        is_blanks(after),
        rest.len() == 0 || has_no_token(rest),
        is_space(pad),
        grammar::operand_of(line, column_behind(operand_front(w)), w.operand) == Ok::<
            OperandView,
            ErrorView,
        >(op),
    ensures
        grammar::line_of(line, written_text(w) + pad) == Err::<LineView, ErrorView>(
            ErrorView {
                line,
                col: column_behind(junk_front(w) + (seq![','] + after)),
                message: "expected operand (number or symbol)"@,
            },
        ),
{
    let s = written_text(w);
    lemma_written_proper(w);
    lemma_pad(line, s, pad);
    lemma_blank_behind_head(s, w);
    lemma_places(s, w);
    lemma_head_read(line, s, w.head);
    assert(token_read(line, operand_front(w), w.operand) == Ok::<OperandView, ErrorView>(op)) by {
        reveal(token_read);
    }
    lemma_dangling_body(line, s, w, after, rest, op);
}

proof fn lemma_dangling_body(
    line: u32,
    s: Seq<char>,
    w: Written,
    after: Seq<char>,
    rest: Seq<char>,
    op: OperandView,
)
    requires
        is_laid(w),
        s == written_text(w),
        w.mask is None,
        w.junk == seq![','] + (after + rest),
        is_blanks(after),
        rest.len() == 0 || has_no_token(rest),
        token_read(line, operand_front(w), w.operand) == Ok::<OperandView, ErrorView>(op),
    ensures
        grammar::body_at(
            line,
            s,
            head_text(w.head).len() as int,
            text::lower(w.head.word),
            column_behind(front_text(w.head)),
        ) == Err::<(BodyView, int), ErrorView>(
            ErrorView {
                line,
                col: column_behind(junk_front(w) + (seq![','] + after)),
                message: "expected operand (number or symbol)"@,
            },
        ),
{
    lemma_written_flags(s, w);
    lemma_tag(s, w);
    lemma_dangling(line, s, w, after, rest, op);
}

/// Nothing that could be a mask stands behind the comma.
#[verifier::spinoff_prover]
proof fn lemma_behind_comma(line: u32, s: Seq<char>, w: Written, after: Seq<char>, rest: Seq<char>)
    requires
        is_laid(w),
        s == written_text(w),
        w.junk == seq![','] + (after + rest),
        is_blanks(after),
        rest.len() == 0 || has_no_token(rest),
    ensures
        ({
            let c = (s.len() - w.junk.len()) as int;
            &&& s[c] == ','
            &&& grammar::operand_at(line, s, text::skip_blanks(s, c + 1)) == Err::<
                (OperandView, int),
                ErrorView,
            >(
                ErrorView {
                    line,
                    col: column_behind(junk_front(w) + (seq![','] + after)),
                    message: "expected operand (number or symbol)"@,
                },
            )
        }),
{
    let c = (s.len() - w.junk.len()) as int;
    let k = (c + 1 + after.len()) as int;
    lemma_places(s, w);
    lemma_both(s, c, seq![','], after + rest);
    lemma_both(s, c + 1, after, rest);
    assert(s[c] == ',');
    assert(s.take(k) =~= junk_front(w) + (seq![','] + after));
    if rest.len() > 0 {
        lemma_no_token(line, s, k, rest);
        lemma_skip(s, c + 1, after);
    } else {
        lemma_skip(s, c + 1, after);
        assert(grammar::token_end(s, k) is None);
    }
}

proof fn lemma_dangling(
    line: u32,
    s: Seq<char>,
    w: Written,
    after: Seq<char>,
    rest: Seq<char>,
    op: OperandView,
)
    requires
        is_laid(w),
        s == written_text(w),
        w.mask is None,
        w.junk == seq![','] + (after + rest),
        is_blanks(after),
        rest.len() == 0 || has_no_token(rest),
        token_read(line, operand_front(w), w.operand) == Ok::<OperandView, ErrorView>(op),
    ensures
        operand_front(w).len() < s.len(),
        grammar::operand_and_mask(line, s, operand_front(w).len() as int, tag_value(w.tag)) == Err::<
            Operands,
            ErrorView,
        >(
            ErrorView {
                line,
                col: column_behind(junk_front(w) + (seq![','] + after)),
                message: "expected operand (number or symbol)"@,
            },
        ),
{
    lemma_first_operand(line, s, w);
    lemma_behind_comma(line, s, w, after, rest);
    lemma_behind_operand(s, w);
    assert(operand_front(w).len() < s.len());
}

/// When the first word of a line, which begins it, is a label without a colon:
/// if it has no meaning of its own and what follows is a word that has one.
pub proof fn law_column_label(
    name: Seq<char>,
    gap: Seq<char>,
    word: Seq<char>,
    behind: Seq<char>,
)
    requires
        operands::is_name(name),
        is_blanks(gap),
        gap.len() > 0,
        operands::is_name(word),
        behind.len() > 0 ==> !(operands::is_initial(behind[0]) || ('0' <= behind[0] && behind[0]
            <= '9')),
    ensures
        grammar::has_column_label(name + (gap + (word + behind))) <==> !is_reserved(name)
            && is_reserved(word),
{
    let s = name + (gap + (word + behind));
    let p = name.len() as int;
    let q = (p + gap.len()) as int;
    let r = (q + word.len()) as int;
    assert(stands_at(s, 0, name + (gap + (word + behind))));
    lemma_both(s, 0, name, gap + (word + behind));
    lemma_both(s, p, gap, word + behind);
    lemma_both(s, q, word, behind);
    assert(s[p] == gap[0]);
    assert(s[q] == word[0]);
    if behind.len() > 0 {
        assert(s[r] == behind[0]);
    }
    lemma_name(s, 0, name);
    lemma_name(s, q, word);
    lemma_skip(s, p, gap);
    assert(s.take(p) =~= s.subrange(0, p));
}

/// The first word of a line is no label without a colon if something else than
/// a word follows it.
pub proof fn law_no_column_label(name: Seq<char>, gap: Seq<char>, rest: Seq<char>)
    requires
        operands::is_name(name),
        is_blanks(gap),
        rest.len() > 0,
        rest[0] != ' ' && rest[0] != '\t',
        !operands::is_initial(rest[0]),
        gap.len() == 0 ==> !('0' <= rest[0] && rest[0] <= '9'),
    ensures
        !grammar::has_column_label(name + (gap + rest)),
{
    let s = name + (gap + rest);
    let p = name.len() as int;
    let q = (p + gap.len()) as int;
    assert(stands_at(s, 0, name + (gap + rest)));
    lemma_both(s, 0, name, gap + rest);
    lemma_both(s, p, gap, rest);
    assert(s[q] == rest[0]);
    if gap.len() > 0 {
        assert(s[p] == gap[0]);
    }
    lemma_name(s, 0, name);
    lemma_skip(s, p, gap);
}

} // verus!
