//! Lexer and line parser.
//!
//! The parser is line-oriented: each line that is neither empty nor a
//! comment is a directive or an instruction, with or without a label before
//! it. A line becomes a [`ParsedLine`] that carries its line number, so that
//! the errors of both passes can report `line:col`.

use crate::encode;
use crate::grammar;
use crate::text;
use crate::AsmError;
use vstd::prelude::*;
use vstd::slice::slice_subrange;

verus! {

/// One source line after parsing.
#[derive(Debug, Clone, PartialEq, Eq)]
pub struct ParsedLine {
    /// 1-based line number.
    pub line: u32,
    pub label: Option<Label>,
    pub body: LineBody,
}

#[derive(Debug, Clone, PartialEq, Eq)]
pub struct Label {
    pub name: String,
    pub col: u32,
}

#[derive(Debug, Clone, PartialEq, Eq)]
pub enum LineBody {
    Empty,
    Directive(Directive),
    Instruction(Instruction),
}

#[derive(Debug, Clone, PartialEq, Eq)]
pub enum Directive {
    /// `ORG N` -- set the origin to word address N.
    Org(Operand),
    /// `LABEL: EQU N` -- bind the label to a value.
    Equ(Operand),
    /// `DC N` -- emit one literal word.
    Dc(Operand),
    /// `BSS N` -- reserve N words at the location counter, as zero words.
    /// A label binds to the counter's value before the reservation.
    Bss(Operand),
    /// `ABS` -- marks an absolute program. Nothing is relocated here, so it
    /// has no effect.
    Abs,
    /// `END [LABEL]` -- end of source. The operand names the entry point;
    /// it is kept and not emitted.
    End(Option<Operand>),
}

/// Parsed instruction; its operands are resolved in pass 2.
#[derive(Debug, Clone, PartialEq, Eq)]
pub struct Instruction {
    /// In lower case.
    pub mnemonic: String,
    pub mnemonic_col: u32,
    pub long_flag: bool,
    pub indirect_flag: bool,
    pub tag: u8,
    /// Primary operand (address, displacement or count).
    pub operand: Option<Operand>,
    /// Secondary operand (condition mask of the long form).
    pub mask: Option<Operand>,
}

/// An operand expression.
///
/// Most operands are a bare `Number` or `Symbol`. The `*` (location
/// counter) and small offsets (`SYM+1`, `*-2`) are what historical 1130
/// source uses besides. The parser yields no `Multiply`; programs that
/// build their lines themselves may.
#[derive(Debug, PartialEq, Eq)]
pub enum Operand {
    Number(i64),
    Symbol(String),
    /// `*` -- the location counter.
    LocationCounter,
    /// `base + delta` (`base - n` has a negative delta).
    Offset { base: Box<Operand>, delta: i64 },
    /// `lhs * rhs`.
    Multiply { lhs: i64, rhs: Box<Operand> },
}

#[derive(Debug, Clone, PartialEq, Eq)]
pub struct OperandWithCol {
    pub op: Operand,
    pub col: u32,
}

/// [`ParsedLine`] with its texts as character sequences.
pub struct LineView {
    pub line: u32,
    pub label: Option<LabelView>,
    pub body: BodyView,
}

/// [`Label`] with its name as a character sequence.
pub struct LabelView {
    pub name: Seq<char>,
    pub col: u32,
}

/// [`LineBody`] with its texts as character sequences.
pub enum BodyView {
    Empty,
    Directive(DirectiveView),
    Instruction(InstructionView),
}

/// [`Directive`] with its texts as character sequences.
pub enum DirectiveView {
    Org(OperandView),
    Equ(OperandView),
    Dc(OperandView),
    Bss(OperandView),
    Abs,
    End(Option<OperandView>),
}

/// [`Instruction`] with its texts as character sequences.
pub struct InstructionView {
    pub mnemonic: Seq<char>,
    pub mnemonic_col: u32,
    pub long_flag: bool,
    pub indirect_flag: bool,
    pub tag: u8,
    pub operand: Option<OperandView>,
    pub mask: Option<OperandView>,
}

/// [`Operand`] with its names as character sequences.
pub enum OperandView {
    Number(i64),
    Symbol(Seq<char>),
    LocationCounter,
    Offset { base: Box<OperandView>, delta: i64 },
    Multiply { lhs: i64, rhs: Box<OperandView> },
}

impl View for Operand {
    type V = OperandView;

    open spec fn view(&self) -> OperandView
        decreases self,
    {
        match self {
            Operand::Number(n) => OperandView::Number(*n),
            Operand::Symbol(name) => OperandView::Symbol(name@),
            Operand::LocationCounter => OperandView::LocationCounter,
            Operand::Offset { base, delta } => OperandView::Offset {
                base: Box::new((**base)@),
                delta: *delta,
            },
            Operand::Multiply { lhs, rhs } => OperandView::Multiply {
                lhs: *lhs,
                rhs: Box::new((**rhs)@),
            },
        }
    }
}

impl Clone for Operand {
    fn clone(&self) -> (op: Operand)
        ensures
            op@ == self@,
        decreases self,
    {
        match self {
            Operand::Number(n) => Operand::Number(*n),
            Operand::Symbol(name) => Operand::Symbol(name.clone()),
            Operand::LocationCounter => Operand::LocationCounter,
            Operand::Offset { base, delta } => Operand::Offset {
                base: Box::new((&**base).clone()),
                delta: *delta,
            },
            Operand::Multiply { lhs, rhs } => Operand::Multiply {
                lhs: *lhs,
                rhs: Box::new((&**rhs).clone()),
            },
        }
    }
}

/// An operand that may be absent.
pub open spec fn operand_view(op: Option<Operand>) -> Option<OperandView> {
    match op {
        Some(o) => Some(o@),
        None => None,
    }
}

impl View for Instruction {
    type V = InstructionView;

    open spec fn view(&self) -> InstructionView {
        InstructionView {
            mnemonic: self.mnemonic@,
            mnemonic_col: self.mnemonic_col,
            long_flag: self.long_flag,
            indirect_flag: self.indirect_flag,
            tag: self.tag,
            operand: operand_view(self.operand),
            mask: operand_view(self.mask),
        }
    }
}

impl View for Directive {
    type V = DirectiveView;

    open spec fn view(&self) -> DirectiveView {
        match self {
            Directive::Org(op) => DirectiveView::Org(op@),
            Directive::Equ(op) => DirectiveView::Equ(op@),
            Directive::Dc(op) => DirectiveView::Dc(op@),
            Directive::Bss(op) => DirectiveView::Bss(op@),
            Directive::Abs => DirectiveView::Abs,
            Directive::End(entry) => DirectiveView::End(operand_view(*entry)),
        }
    }
}

impl View for LineBody {
    type V = BodyView;

    open spec fn view(&self) -> BodyView {
        match self {
            LineBody::Empty => BodyView::Empty,
            LineBody::Directive(d) => BodyView::Directive(d@),
            LineBody::Instruction(insn) => BodyView::Instruction(insn@),
        }
    }
}

impl View for Label {
    type V = LabelView;

    open spec fn view(&self) -> LabelView {
        LabelView { name: self.name@, col: self.col }
    }
}

impl View for ParsedLine {
    type V = LineView;

    open spec fn view(&self) -> LineView {
        LineView {
            line: self.line,
            label: match self.label {
                Some(label) => Some(label@),
                None => None,
            },
            body: self.body@,
        }
    }
}

/// Parsed lines with their texts as character sequences.
pub open spec fn views(lines: Seq<ParsedLine>) -> Seq<LineView> {
    lines.map_values(|line: ParsedLine| line@)
}

/// Cursor over one source line.
struct Cursor<'a> {
    line: u32,
    src: &'a [char],
    pos: usize,
    /// 1-based column of `pos`, in bytes.
    col: u32,
}

impl<'a> Cursor<'a> {
    spec fn well_formed(self) -> bool {
        &&& self.pos <= self.src@.len()
        &&& self.col == text::column(self.src@, self.pos as int)
    }

    /// Whether the cursor stands in the same line as before.
    spec fn same_line(self, other: Cursor<'a>) -> bool {
        &&& self.line == other.line
        &&& self.src == other.src
    }

    fn new(line: u32, src: &'a [char]) -> (c: Cursor<'a>)
        ensures
            c.well_formed(),
            c.line == line,
            c.src == src,
            c.pos == 0,
    {
        assert(text::byte_len(src@.take(0)) == 0);
        Cursor { line, src, pos: 0, col: 1 }
    }

    /// Another cursor at the same place.
    fn copy(&self) -> (c: Cursor<'a>)
        ensures
            c == *self,
    {
        Cursor { line: self.line, src: self.src, pos: self.pos, col: self.col }
    }

    fn rest(&self) -> (r: &'a [char])
        requires
            self.well_formed(),
        ensures
            r@ == self.src@.skip(self.pos as int),
    {
        slice_subrange(self.src, self.pos, self.src.len())
    }

    fn eof(&self) -> (r: bool)
        ensures
            r == (self.pos >= self.src@.len()),
    {
        self.pos >= self.src.len()
    }

    fn peek(&self) -> (r: Option<char>)
        ensures
            r == if self.pos < self.src@.len() {
                Some(self.src@[self.pos as int])
            } else {
                None
            },
    {
        if self.pos < self.src.len() {
            Some(self.src[self.pos])
        } else {
            None
        }
    }

    /// Steps over one character, if there is one.
    fn advance(&mut self)
        requires
            old(self).well_formed(),
        ensures
            final(self).well_formed(),
            final(self).same_line(*old(self)),
            final(self).pos == if old(self).pos < old(self).src@.len() {
                old(self).pos + 1
            } else {
                old(self).pos as int
            },
    {
        if self.pos < self.src.len() {
            let width = utf8_width(self.src[self.pos]);
            proof {
                let before = self.src@.take(self.pos as int);
                let after = self.src@.take(self.pos + 1);
                assert(after.drop_last() =~= before);
                lemma_wrap32_step(1 + text::byte_len(before) as int, width as int);
            }
            self.pos += 1;
            self.col = self.col.wrapping_add(width);
        }
    }

    fn skip_whitespace(&mut self)
        requires
            old(self).well_formed(),
        ensures
            final(self).well_formed(),
            final(self).same_line(*old(self)),
            final(self).pos == text::skip_blanks(old(self).src@, old(self).pos as int),
    {
        while self.pos < self.src.len() && is_blank(self.src[self.pos])
            invariant
                self.well_formed(),
                self.same_line(*old(self)),
                text::skip_blanks(self.src@, self.pos as int) == text::skip_blanks(
                    old(self).src@,
                    old(self).pos as int,
                ),
            decreases self.src@.len() - self.pos,
        {
            self.advance();
        }
    }

    /// Reads an identifier, if one stands here.
    fn read_ident(&mut self) -> (r: Option<&'a [char]>)
        requires
            old(self).well_formed(),
        ensures
            final(self).well_formed(),
            final(self).same_line(*old(self)),
            match grammar::ident_end(old(self).src@, old(self).pos as int) {
                Some(end) => {
                    &&& r matches Some(name)
                    &&& name@ == old(self).src@.subrange(old(self).pos as int, end)
                    &&& final(self).pos == end
                },
                None => r is None && final(self).pos == old(self).pos,
            },
    {
        let start = self.pos;
        match self.peek() {
            None => {
                return None;
            },
            Some(first) => {
                if !is_ident_start(first) {
                    return None;
                }
            },
        }
        while self.pos < self.src.len() && is_ident_part(self.src[self.pos])
            invariant
                self.well_formed(),
                self.same_line(*old(self)),
                start == old(self).pos <= self.pos,
                grammar::run_end(self.src@, self.pos as int) == grammar::run_end(
                    old(self).src@,
                    start as int,
                ),
            decreases self.src@.len() - self.pos,
        {
            self.advance();
        }
        Some(slice_subrange(self.src, start, self.pos))
    }

    /// Reads one operand token: everything up to a blank or a comma, and
    /// more than a sign alone.
    fn read_operand_token(&mut self) -> (r: Option<&'a [char]>)
        requires
            old(self).well_formed(),
        ensures
            final(self).well_formed(),
            final(self).same_line(*old(self)),
            match grammar::token_end(old(self).src@, old(self).pos as int) {
                Some(end) => {
                    &&& r matches Some(token)
                    &&& token@ == old(self).src@.subrange(old(self).pos as int, end)
                    &&& final(self).pos == end
                },
                None => r is None,
            },
    {
        let start = self.pos;
        match self.peek() {
            Some(c) => {
                if c == '+' || c == '-' {
                    self.advance();
                }
            },
            None => {},
        }
        let body = self.pos;
        while self.pos < self.src.len() && !is_blank(self.src[self.pos]) && self.src[self.pos]
            != ','
            invariant
                self.well_formed(),
                self.same_line(*old(self)),
                start <= body <= self.pos,
                grammar::token_stop(self.src@, self.pos as int) == grammar::token_stop(
                    old(self).src@,
                    body as int,
                ),
            decreases self.src@.len() - self.pos,
        {
            self.advance();
        }
        if self.pos == body {
            return None;
        }
        Some(slice_subrange(self.src, start, self.pos))
    }
}

proof fn lemma_wrap32_step(n: int, step: int)
    requires
        0 <= n,
        0 <= step <= 4,
    ensures
        text::wrap32(n + step) == if text::wrap32(n) + step > u32::MAX {
            text::wrap32(n) + step - 0x1_0000_0000
        } else {
            text::wrap32(n) + step
        },
{
}

/// The number of bytes that UTF-8 gives a character.
fn utf8_width(c: char) -> (w: u32)
    ensures
        w == text::utf8_width(c),
        1 <= w <= 4,
{
    let n: u32 = c as u32;
    if n < 0x80 {
        1
    } else if n < 0x800 {
        2
    } else if n < 0x10000 {
        3
    } else {
        4
    }
}

fn is_blank(c: char) -> (r: bool)
    ensures
        r == text::is_blank(c),
{
    c == ' ' || c == '\t'
}

fn is_ident_start(c: char) -> (r: bool)
    ensures
        r == text::starts_ident(c),
{
    ('a' <= c && c <= 'z') || ('A' <= c && c <= 'Z') || c == '_' || c == '.'
}

fn is_decimal(c: char) -> (r: bool)
    ensures
        r == text::is_decimal(c),
{
    '0' <= c && c <= '9'
}

fn is_ident_part(c: char) -> (r: bool)
    ensures
        r == text::continues_ident(c),
{
    is_ident_start(c) || is_decimal(c)
}

/// The value of a digit in a radix up to 16, if it is one.
fn digit_value(c: char, radix: u64) -> (r: Option<u64>)
    requires
        radix <= 16,
    ensures
        match text::digit_value(c, radix as nat) {
            Some(d) => r == Some(d as u64) && d < 16,
            None => r is None,
        },
{
    let d: u64 = if '0' <= c && c <= '9' {
        (c as u32 - 0x30) as u64
    } else if 'a' <= c && c <= 'f' {
        (c as u32 - 0x61 + 10) as u64
    } else if 'A' <= c && c <= 'F' {
        (c as u32 - 0x41 + 10) as u64
    } else {
        16
    };
    if d < radix {
        Some(d)
    } else {
        None
    }
}

/// A longer run of digits has no smaller value.
proof fn lemma_digits_grow(s: Seq<char>, radix: nat, n: int)
    requires
        0 <= n <= s.len(),
        1 <= radix,
    ensures
        text::digits_value(s.take(n), radix) is None ==> text::digits_value(s, radix) is None,
        text::digits_value(s, radix) matches Some(v) ==> {
            &&& text::digits_value(s.take(n), radix) matches Some(part)
            &&& part <= v
        },
    decreases s.len(),
{
    if n == s.len() {
        assert(s.take(n) =~= s);
    } else {
        lemma_digits_grow(s.drop_last(), radix, n);
        assert(s.drop_last().take(n) =~= s.take(n));
        match text::digits_value(s.drop_last(), radix) {
            Some(high) => {
                assert(high <= high * radix) by (nonlinear_arith)
                    requires
                        1 <= radix,
                ;
            },
            None => {},
        }
    }
}

/// The value of a numeral with or without a sign, if 64 bits hold it.
fn parse_radix(s: &[char], radix: u64) -> (r: Option<i64>)
    requires
        2 <= radix <= 16,
    ensures
        r == grammar::radix_value(s@, radix as nat),
{
    let negative = s.len() > 0 && s[0] == '-';
    let signed = s.len() > 0 && (s[0] == '-' || s[0] == '+');
    let digits = if signed {
        slice_subrange(s, 1, s.len())
    } else {
        s
    };
    proof {
        assert(signed ==> digits@ =~= s@.skip(1));
    }
    if digits.len() == 0 {
        return None;
    }
    let mut size: u64 = 0;
    let mut i: usize = 0;
    while i < digits.len()
        invariant
            i <= digits@.len(),
            2 <= radix <= 16,
            size <= 0x8000_0000_0000_0000,
            text::digits_value(digits@.take(i as int), radix as nat) == Some(size as nat),
            digits@.len() > 0,
            digits@ == if s@.len() > 0 && (s@[0] == '-' || s@[0] == '+') {
                s@.skip(1)
            } else {
                s@
            },
        decreases digits@.len() - i,
    {
        proof {
            assert(digits@.take(i + 1).drop_last() =~= digits@.take(i as int));
            lemma_digits_grow(digits@, radix as nat, i + 1);
        }
        match digit_value(digits[i], radix) {
            None => {
                return None;
            },
            Some(d) => {
                assert(size * radix + d <= 0x8000_0000_0000_0000 * 16 + 16) by (nonlinear_arith)
                    requires
                        size <= 0x8000_0000_0000_0000,
                        radix <= 16,
                        d < 16,
                ;
                let next: u128 = size as u128 * radix as u128 + d as u128;
                if next > 0x8000_0000_0000_0000 {
                    return None;
                }
                size = next as u64;
            },
        }
        i += 1;
    }
    assert(digits@.take(i as int) =~= digits@);
    if negative {
        if size == 0x8000_0000_0000_0000 {
            Some(i64::MIN)
        } else {
            Some(-(size as i64))
        }
    } else if size == 0x8000_0000_0000_0000 {
        None
    } else {
        Some(size as i64)
    }
}

/// Whether a text begins with `a` and `b`.
fn begins(s: &[char], a: char, b: char) -> (r: bool)
    ensures
        r == grammar::begins(s@, a, b),
{
    s.len() >= 2 && s[0] == a && s[1] == b
}

/// Whether all characters are decimal digits.
fn all_decimal(s: &[char]) -> (r: bool)
    ensures
        r == grammar::all_decimal(s@),
{
    let mut i: usize = 0;
    while i < s.len()
        invariant
            i <= s@.len(),
            forall|j: int| 0 <= j < i ==> text::is_decimal(#[trigger] s@[j]),
        decreases s@.len() - i,
    {
        if !is_decimal(s[i]) {
            return false;
        }
        i += 1;
    }
    true
}

/// The value of a number, if the text is one.
fn parse_number(s: &[char]) -> (r: Option<i64>)
    ensures
        r == grammar::number(s@),
{
    let negative = s.len() > 0 && s[0] == '-';
    let signed = s.len() > 0 && (s[0] == '-' || s[0] == '+');
    let unsigned = if signed {
        slice_subrange(s, 1, s.len())
    } else {
        s
    };
    assert(signed ==> unsigned@ =~= s@.skip(1));
    let body = text::trimmed(unsigned);
    let size = if begins(body, '0', 'x') || begins(body, '0', 'X') {
        assert(body@.subrange(2, body@.len() as int) =~= body@.skip(2));
        parse_radix(slice_subrange(body, 2, body.len()), 16)
    } else if body.len() > 0 && body[0] == '/' {
        // `/XXX` is the historical hexadecimal literal.
        assert(body@.subrange(1, body@.len() as int) =~= body@.skip(1));
        parse_radix(slice_subrange(body, 1, body.len()), 16)
    } else if begins(body, '0', 'b') || begins(body, '0', 'B') {
        assert(body@.subrange(2, body@.len() as int) =~= body@.skip(2));
        parse_radix(slice_subrange(body, 2, body.len()), 2)
    } else if body.len() > 0 && all_decimal(body) {
        parse_radix(body, 10)
    } else {
        None
    };
    match size {
        Some(n) => {
            if negative && n != i64::MIN {
                Some(-n)
            } else {
                Some(n)
            }
        },
        None => None,
    }
}

/// Whether the sign at `i` belongs to a literal, as in `0x-1`.
fn in_literal(s: &[char], i: usize) -> (r: bool)
    requires
        i < s@.len(),
    ensures
        r == grammar::in_literal(s@, i as int),
{
    i >= 2 && s[i - 2] == '0' && (s[i - 1] == 'x' || s[i - 1] == 'X' || s[i - 1] == 'b' || s[i - 1]
        == 'B') && (i == 2 || s[i - 3] == '+' || s[i - 3] == '-')
}

/// The number that is an offset from `i` on, if one begins there.
fn offset_from(s: &[char], i: usize) -> (r: Option<i64>)
    requires
        1 <= i < s@.len(),
    ensures
        r is Some <==> grammar::begins_offset(s@, i as int),
        r is Some ==> r == grammar::number(s@.skip(i as int)),
{
    if (s[i] == '+' || s[i] == '-') && (is_ident_part(s[i - 1]) || s[i - 1] == '*') && !in_literal(
        s,
        i,
    ) {
        assert(s@.subrange(i as int, s@.len() as int) =~= s@.skip(i as int));
        parse_number(slice_subrange(s, i, s.len()))
    } else {
        None
    }
}

/// Splits an operand token into a base and the number added to it, as in
/// `SYM+1`, `*-2` or `0x10+5`: at the last sign behind an identifier
/// character or a `*` that is not part of a literal and has a number behind
/// it.
fn split_offset(s: &[char]) -> (r: Option<(&[char], i64)>)
    ensures
        match grammar::offset_parts(s@) {
            Some((base, delta)) => {
                &&& r matches Some((b, d))
                &&& b@ == base
                &&& d == delta
                &&& base.len() < s@.len()
            },
            None => r is None,
        },
{
    if s.len() == 0 {
        return None;
    }
    let mut i: usize = s.len() - 1;
    while i >= 1
        invariant
            i < s@.len(),
            grammar::split_point(s@, s@.len() - 1) == grammar::split_point(s@, i as int),
        decreases i,
    {
        match offset_from(s, i) {
            Some(delta) => {
                assert(s@.subrange(0, i as int) =~= s@.take(i as int));
                return Some((slice_subrange(s, 0, i), delta));
            },
            None => {},
        }
        i -= 1;
    }
    None
}

/// Whether a text is an identifier.
fn is_ident(s: &[char]) -> (r: bool)
    ensures
        r == grammar::is_ident(s@),
{
    if s.len() == 0 || !is_ident_start(s[0]) {
        return false;
    }
    let mut i: usize = 0;
    while i < s.len()
        invariant
            i <= s@.len(),
            forall|j: int| 0 <= j < i ==> text::continues_ident(#[trigger] s@[j]),
        decreases s@.len() - i,
    {
        if !is_ident_part(s[i]) {
            return false;
        }
        i += 1;
    }
    true
}

/// The error `message` followed by the text in quotes.
fn quoting_error(line: u32, col: u32, message: &str, s: &[char]) -> (e: AsmError)
    ensures
        e@.line == line,
        e@.col == col,
        e@.message == message@ + text::quoted_text(s@),
{
    let mut out = message.to_owned();
    out.append(text::quoted(text::string_of(s).as_str()).as_str());
    AsmError::new(line, col, out)
}

/// The operand that a token spells.
fn parse_operand_text(line: u32, col: u32, token: &[char]) -> (r: Result<Operand, AsmError>)
    ensures
        match grammar::operand_of(line, col, token@) {
            Ok(op) => r matches Ok(o) && o@ == op,
            Err(e) => r matches Err(x) && x@ == e,
        },
    decreases token@.len(),
{
    let s = text::trimmed(token);
    proof {
        grammar::lemma_trim_len(token@);
    }
    if s.len() == 0 {
        return Err(AsmError::new(line, col, "empty operand".to_owned()));
    }
    match split_offset(s) {
        Some((lhs, delta)) => {
            return match parse_operand_text(line, col, lhs) {
                Ok(base) => Ok(Operand::Offset { base: Box::new(base), delta }),
                Err(e) => Err(e),
            };
        },
        None => {},
    }
    if s.len() == 1 && s[0] == '*' {
        assert(s@ =~= seq!['*']);
        return Ok(Operand::LocationCounter);
    }
    match parse_number(s) {
        Some(n) => {
            return Ok(Operand::Number(n));
        },
        None => {},
    }
    if is_ident(s) {
        return Ok(Operand::Symbol(text::string_of(s)));
    }
    Err(quoting_error(line, col, "invalid operand: ", s))
}

/// Parses the operand at the cursor.
fn parse_operand(cursor: &mut Cursor) -> (r: Result<Operand, AsmError>)
    requires
        old(cursor).well_formed(),
    ensures
        final(cursor).well_formed(),
        final(cursor).same_line(*old(cursor)),
        match grammar::operand_at(old(cursor).line, old(cursor).src@, old(cursor).pos as int) {
            Ok((op, end)) => {
                &&& r matches Ok(o)
                &&& o@ == op
                &&& final(cursor).pos == end
            },
            Err(e) => r matches Err(x) && x@ == e,
        },
{
    let line = cursor.line;
    let col = cursor.col;
    match cursor.read_operand_token() {
        Some(token) => parse_operand_text(line, col, token),
        None => Err(AsmError::new(line, col, "expected operand (number or symbol)".to_owned())),
    }
}

/// Parses the operand behind the blanks at the cursor.
fn parse_one_operand(cursor: &mut Cursor) -> (r: Result<Operand, AsmError>)
    requires
        old(cursor).well_formed(),
    ensures
        final(cursor).well_formed(),
        final(cursor).same_line(*old(cursor)),
        match grammar::operand_at(
            old(cursor).line,
            old(cursor).src@,
            text::skip_blanks(old(cursor).src@, old(cursor).pos as int),
        ) {
            Ok((op, end)) => {
                &&& r matches Ok(o)
                &&& o@ == op
                &&& final(cursor).pos == end
            },
            Err(e) => r matches Err(x) && x@ == e,
        },
{
    cursor.skip_whitespace();
    parse_operand(cursor)
}

/// The ASCII lower-case form of a text.
fn lowered(s: &[char]) -> (r: String)
    ensures
        r@ == text::lower(s@),
{
    let mut r = String::new();
    let mut i: usize = 0;
    while i < s.len()
        invariant
            i <= s@.len(),
            r@ == text::lower(s@.take(i as int)),
        decreases s@.len() - i,
    {
        let c = s[i];
        if 'A' <= c && c <= 'Z' {
            r.push((c as u8 + 32) as char);
        } else {
            r.push(c);
        }
        i += 1;
        assert(r@ =~= text::lower(s@.take(i as int)));
    }
    assert(s@.take(i as int) =~= s@);
    r
}

/// Whether a word is one letter, given in both cases.
fn is_letter(word: &[char], upper: char, lower: char) -> (r: bool)
    requires
        'A' <= upper <= 'Z',
        lower == text::lower_char(upper),
    ensures
        r == (text::lower(word@) == seq![lower]),
{
    let r = word.len() == 1 && (word[0] == upper || word[0] == lower);
    proof {
        if r {
            assert(text::lower(word@) =~= seq![lower]);
        } else if text::lower(word@) == seq![lower] {
            assert(text::lower(word@).len() == 1);
            assert(text::lower(word@)[0] == text::lower_char(word@[0]));
            assert(seq![lower][0] == lower);
        }
    }
    r
}

/// The flags of an instruction.
struct FlagSet {
    long: bool,
    indirect: bool,
}

/// Reads the flags `I` and `L`, in any mix. Unless `bare`, a flag is read
/// only if something follows it: the last word is the operand.
fn read_flags(cursor: &mut Cursor, bare: bool) -> (r: FlagSet)
    requires
        old(cursor).well_formed(),
    ensures
        final(cursor).well_formed(),
        final(cursor).same_line(*old(cursor)),
        grammar::flags_at(old(cursor).src@, old(cursor).pos as int, bare, false, false) == (
        grammar::Flags { long: r.long, indirect: r.indirect, pos: final(cursor).pos as int }),
{
    let mut long = false;
    let mut indirect = false;
    loop
        invariant
            cursor.well_formed(),
            cursor.same_line(*old(cursor)),
            grammar::flags_at(old(cursor).src@, old(cursor).pos as int, bare, false, false)
                == grammar::flags_at(cursor.src@, cursor.pos as int, bare, long, indirect),
        decreases cursor.src@.len() - cursor.pos,
    {
        let ghost from = cursor.pos as int;
        cursor.skip_whitespace();
        let pos = cursor.pos;
        let col = cursor.col;
        proof {
            grammar::lemma_skip_blanks(cursor.src@, from);
            grammar::lemma_run_end(cursor.src@, pos as int);
        }
        match cursor.read_ident() {
            Some(word) => {
                let is_long = is_letter(word, 'L', 'l');
                let is_indirect = is_letter(word, 'I', 'i');
                let mut probe = cursor.copy();
                probe.skip_whitespace();
                if (is_long || is_indirect) && (bare || !probe.eof()) {
                    long = long || is_long;
                    indirect = indirect || is_indirect;
                } else {
                    cursor.pos = pos;
                    cursor.col = col;
                    return FlagSet { long, indirect };
                }
            },
            None => {
                return FlagSet { long, indirect };
            },
        }
    }
}

/// Whether a tag stands at the beginning of the text: a digit up to 3 with a
/// comma behind it, `N,` or `N ,`.
fn is_tag_prefix(s: &[char]) -> (r: bool)
    ensures
        r == grammar::tag_end(s@, 0) is Some,
{
    if s.len() == 0 || !('0' <= s[0] && s[0] <= '3') {
        return false;
    }
    let mut i: usize = 1;
    while i < s.len() && is_blank(s[i])
        invariant
            1 <= i <= s@.len(),
            text::skip_blanks(s@, 1) == text::skip_blanks(s@, i as int),
        decreases s@.len() - i,
    {
        i += 1;
    }
    i < s.len() && s[i] == ','
}

proof fn lemma_skip_blanks_skip(s: Seq<char>, start: int, pos: int)
    requires
        0 <= start <= pos <= s.len(),
    ensures
        text::skip_blanks(s, pos) == start + text::skip_blanks(s.skip(start), pos - start),
    decreases s.len() - pos,
{
    if pos < s.len() && text::is_blank(s[pos]) {
        lemma_skip_blanks_skip(s, start, pos + 1);
    }
}

/// The operands of an instruction.
struct OperandSet {
    tag: u8,
    operand: Option<Operand>,
    mask: Option<Operand>,
}

impl OperandSet {
    spec fn at(self, pos: int) -> grammar::Operands {
        grammar::Operands {
            tag: self.tag,
            operand: operand_view(self.operand),
            mask: operand_view(self.mask),
            pos,
        }
    }
}

/// Parses the operand at the cursor, and a mask behind a comma.
fn parse_operand_and_mask(cursor: &mut Cursor, tag: u8) -> (r: Result<OperandSet, AsmError>)
    requires
        old(cursor).well_formed(),
    ensures
        final(cursor).well_formed(),
        final(cursor).same_line(*old(cursor)),
        match grammar::operand_and_mask(
            old(cursor).line,
            old(cursor).src@,
            old(cursor).pos as int,
            tag,
        ) {
            Ok(operands) => r matches Ok(set) && set.at(final(cursor).pos as int) == operands,
            Err(e) => r matches Err(x) && x@ == e,
        },
{
    let operand = match parse_operand(cursor) {
        Ok(op) => op,
        Err(e) => {
            return Err(e);
        },
    };
    cursor.skip_whitespace();
    if !cursor.eof() && cursor.src[cursor.pos] == ',' {
        cursor.advance();
        match parse_one_operand(cursor) {
            Ok(mask) => Ok(OperandSet { tag, operand: Some(operand), mask: Some(mask) }),
            Err(e) => Err(e),
        }
    } else {
        Ok(OperandSet { tag, operand: Some(operand), mask: None })
    }
}

/// Reads a tag with its comma and the blanks around that, if one stands at
/// the cursor; 0 otherwise.
fn read_tag(cursor: &mut Cursor) -> (tag: u8)
    requires
        old(cursor).well_formed(),
    ensures
        final(cursor).well_formed(),
        final(cursor).same_line(*old(cursor)),
        grammar::tag_at(old(cursor).src@, old(cursor).pos as int) == (tag, final(cursor).pos as int),
{
    proof {
        let s = cursor.src@;
        let at = cursor.pos as int;
        if at < s.len() {
            lemma_skip_blanks_skip(s, at, at + 1);
            grammar::lemma_skip_blanks(s, at + 1);
        }
    }
    if !is_tag_prefix(cursor.rest()) {
        return 0;
    }
    let tag = (cursor.src[cursor.pos] as u32 - 0x30) as u8;
    cursor.advance();
    cursor.skip_whitespace();
    cursor.advance();
    cursor.skip_whitespace();
    tag
}

/// Parses a tag, an operand and a mask, as far as they stand at the cursor.
fn parse_operands(cursor: &mut Cursor) -> (r: Result<OperandSet, AsmError>)
    requires
        old(cursor).well_formed(),
    ensures
        final(cursor).well_formed(),
        final(cursor).same_line(*old(cursor)),
        match grammar::operands_at(old(cursor).line, old(cursor).src@, old(cursor).pos as int) {
            Ok(operands) => r matches Ok(set) && set.at(final(cursor).pos as int) == operands,
            Err(e) => r matches Err(x) && x@ == e,
        },
{
    let tag = read_tag(cursor);
    if cursor.eof() {
        Ok(OperandSet { tag, operand: None, mask: None })
    } else {
        parse_operand_and_mask(cursor, tag)
    }
}

/// Parses an instruction; the cursor stands behind its mnemonic.
fn parse_instruction(cursor: &mut Cursor, mnemonic: String, mnemonic_col: u32) -> (r: Result<
    LineBody,
    AsmError,
>)
    requires
        old(cursor).well_formed(),
    ensures
        final(cursor).well_formed(),
        final(cursor).same_line(*old(cursor)),
        match grammar::instruction_at(
            old(cursor).line,
            old(cursor).src@,
            old(cursor).pos as int,
            mnemonic@,
            mnemonic_col,
        ) {
            Ok((body, end)) => {
                &&& r matches Ok(b)
                &&& b@ == body
                &&& final(cursor).pos == end
            },
            Err(e) => r matches Err(x) && x@ == e,
        },
{
    let bare = text::same_text(mnemonic.as_str(), "wait");
    let flags = read_flags(cursor, bare);
    match parse_operands(cursor) {
        Ok(set) => Ok(
            LineBody::Instruction(
                Instruction {
                    mnemonic,
                    mnemonic_col,
                    long_flag: flags.long,
                    indirect_flag: flags.indirect,
                    tag: set.tag,
                    operand: set.operand,
                    mask: set.mask,
                },
            ),
        ),
        Err(e) => Err(e),
    }
}

/// A line without its comment and the white space before that.
fn strip_comment(s: &[char]) -> (r: &[char])
    ensures
        r@ == grammar::without_comment(s@),
{
    let end = text::position(s, ';', 0);
    assert(s@.subrange(0, end as int) =~= s@.take(end as int));
    text::without_end(slice_subrange(s, 0, end))
}

/// Parses the directive or instruction of the given name; the cursor stands
/// behind the name.
fn parse_body(cursor: &mut Cursor, name: String, name_col: u32) -> (r: Result<LineBody, AsmError>)
    requires
        old(cursor).well_formed(),
    ensures
        final(cursor).well_formed(),
        final(cursor).same_line(*old(cursor)),
        match grammar::body_at(
            old(cursor).line,
            old(cursor).src@,
            old(cursor).pos as int,
            name@,
            name_col,
        ) {
            Ok((body, end)) => {
                &&& r matches Ok(b)
                &&& b@ == body
                &&& final(cursor).pos == end
            },
            Err(e) => r matches Err(x) && x@ == e,
        },
{
    if text::same_text(name.as_str(), "org") {
        match parse_one_operand(cursor) {
            Ok(op) => Ok(LineBody::Directive(Directive::Org(op))),
            Err(e) => Err(e),
        }
    } else if text::same_text(name.as_str(), "equ") {
        match parse_one_operand(cursor) {
            Ok(op) => Ok(LineBody::Directive(Directive::Equ(op))),
            Err(e) => Err(e),
        }
    } else if text::same_text(name.as_str(), "dc") {
        match parse_one_operand(cursor) {
            Ok(op) => Ok(LineBody::Directive(Directive::Dc(op))),
            Err(e) => Err(e),
        }
    } else if text::same_text(name.as_str(), "bss") {
        match parse_one_operand(cursor) {
            Ok(op) => Ok(LineBody::Directive(Directive::Bss(op))),
            Err(e) => Err(e),
        }
    } else if text::same_text(name.as_str(), "abs") {
        Ok(LineBody::Directive(Directive::Abs))
    } else if text::same_text(name.as_str(), "end") {
        cursor.skip_whitespace();
        if cursor.eof() {
            Ok(LineBody::Directive(Directive::End(None)))
        } else {
            match parse_operand(cursor) {
                Ok(op) => Ok(LineBody::Directive(Directive::End(Some(op)))),
                Err(e) => Err(e),
            }
        }
    } else {
        parse_instruction(cursor, name, name_col)
    }
}

/// Whether a name, in whatever case, is that of a directive or an operation.
fn is_known(word: &[char]) -> (r: bool)
    ensures
        r == grammar::is_known(word@),
{
    let name = lowered(word);
    let name = name.as_str();
    text::same_text(name, "org") || text::same_text(name, "equ") || text::same_text(name, "dc")
        || text::same_text(name, "bss") || text::same_text(name, "abs") || text::same_text(
        name,
        "end",
    ) || encode::operation(name).is_some()
}

/// Whether the name at the beginning of the line is a label without a colon;
/// the cursor stands behind the name.
fn is_column_label(cursor: &Cursor, name: &[char]) -> (r: bool)
    requires
        cursor.well_formed(),
        name@ == cursor.src@.take(cursor.pos as int),
    ensures
        r == grammar::is_column_label(cursor.src@, cursor.pos as int),
{
    if is_known(name) {
        return false;
    }
    if cursor.eof() {
        return true;
    }
    let mut probe = cursor.copy();
    probe.skip_whitespace();
    if probe.pos == cursor.pos {
        proof {
            grammar::lemma_skip_blanks(cursor.src@, cursor.pos as int);
        }
        return false;
    }
    proof {
        grammar::lemma_skip_blanks(cursor.src@, cursor.pos as int);
    }
    match probe.read_ident() {
        Some(word) => is_known(word),
        None => false,
    }
}

/// Reads a label, if one stands at the cursor: an identifier with a colon
/// behind it, wherever it stands in the line, or an identifier in the first
/// column that can only be a label.
fn parse_label(cursor: &mut Cursor) -> (r: Option<Label>)
    requires
        old(cursor).well_formed(),
    ensures
        final(cursor).well_formed(),
        final(cursor).same_line(*old(cursor)),
        ({
            let (label, end) = grammar::label_at(old(cursor).src@, old(cursor).pos as int);
            &&& final(cursor).pos == end
            &&& match label {
                Some(l) => r matches Some(x) && x@ == l,
                None => r is None,
            }
        }),
{
    let pos = cursor.pos;
    let col = cursor.col;
    match cursor.read_ident() {
        Some(name) => {
            if !cursor.eof() && cursor.src[cursor.pos] == ':' {
                cursor.advance();
                return Some(Label { name: text::string_of(name), col });
            }
            if pos == 0 {
                assert(name@ =~= cursor.src@.take(cursor.pos as int));
                if is_column_label(cursor, name) {
                    return Some(Label { name: text::string_of(name), col });
                }
            }
            cursor.pos = pos;
            cursor.col = col;
            None
        },
        None => None,
    }
}

/// Parses a single line.
fn parse_line(line: u32, raw: &[char]) -> (r: Result<ParsedLine, AsmError>)
    ensures
        match grammar::line_of(line, raw@) {
            Ok(l) => r matches Ok(x) && x@ == l,
            Err(e) => r matches Err(x) && x@ == e,
        },
{
    reveal(grammar::line_of);
    let src = strip_comment(raw);
    let start = text::without_start(src);
    // A blank line, or a line of historical source that the assembler has no
    // use for: a job card (`// JOB`) or a listing directive (`*LIST ALL`). A
    // `*` that means the location counter is never the first thing in a line.
    if start.len() == 0 || begins(start, '/', '/') || start[0] == '*' {
        return Ok(ParsedLine { line, label: None, body: LineBody::Empty });
    }
    let mut cursor = Cursor::new(line, src);
    cursor.skip_whitespace();
    let label = parse_label(&mut cursor);
    cursor.skip_whitespace();
    if cursor.eof() {
        return Ok(ParsedLine { line, label, body: LineBody::Empty });
    }
    let name_col = cursor.col;
    let name = match cursor.read_ident() {
        Some(name) => lowered(name),
        None => {
            return Err(
                AsmError::new(line, name_col, "expected mnemonic or directive".to_owned()),
            );
        },
    };
    let body = match parse_body(&mut cursor, name, name_col) {
        Ok(body) => body,
        Err(e) => {
            return Err(e);
        },
    };
    cursor.skip_whitespace();
    if !cursor.eof() {
        return Err(
            quoting_error(line, cursor.col, "unexpected trailing input: ", cursor.rest()),
        );
    }
    Ok(ParsedLine { line, label, body })
}

/// A bad line stays the error of every longer run of lines.
proof fn lemma_error_stays(lines: Seq<Seq<char>>, n: int, m: int)
    requires
        0 <= n <= m,
        grammar::source_lines(lines, n) is Err,
    ensures
        grammar::source_lines(lines, m) == grammar::source_lines(lines, n),
    decreases m - n,
{
    if n < m {
        lemma_error_stays(lines, n, m - 1);
    }
}

/// Parses the entire source: every line, numbered from 1, or the error of
/// the first line that has one.
pub fn parse_source(source: &str) -> (r: Result<Vec<ParsedLine>, AsmError>)
    ensures
        match grammar::source_of(source@) {
            Ok(lines) => r matches Ok(v) && views(v@) == lines,
            Err(e) => r matches Err(x) && x@ == e,
        },
{
    let chars = text::chars_of(source);
    let lines = text::split_lines(chars.as_slice());
    let ghost all = text::lines_of(source@);
    let mut out: Vec<ParsedLine> = Vec::new();
    assert(views(out@) =~= seq![]);
    let mut i: usize = 0;
    while i < lines.len()
        invariant
            i <= lines@.len(),
            lines@.len() == all.len(),
            all == text::lines_of(source@),
            forall|k: int| 0 <= k < lines@.len() ==> (#[trigger] lines@[k])@ == all[k],
            grammar::source_lines(all, i as int) == Ok::<_, crate::ErrorView>(views(out@)),
        decreases lines@.len() - i,
    {
        let number = line_number(i);
        let ghost before = views(out@);
        match parse_line(number, lines[i]) {
            Ok(line) => {
                out.push(line);
                assert(views(out@) =~= before.push(line@));
            },
            Err(e) => {
                proof {
                    lemma_error_stays(all, i + 1, all.len() as int);
                }
                return Err(e);
            },
        }
        i += 1;
    }
    Ok(out)
}

/// The 1-based number of the line at a place, in 32 bits.
fn line_number(i: usize) -> (n: u32)
    requires
        i < usize::MAX,
    ensures
        n == text::wrap32(i + 1),
{
    let k: u64 = (i + 1) as u64;
    (k % 0x1_0000_0000) as u32
}

} // verus!
