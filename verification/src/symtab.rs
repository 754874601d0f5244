//! Symbol table and pass 1.
//!
//! A walk of pass 1 over the parsed lines tracks the location counter through
//! the size of what each line emits, and binds labels:
//!
//! - a label alone, or before `DC`, `BSS`, `ABS`, `END` or an instruction,
//!   binds to the location counter;
//! - a label before `EQU` binds to the operand's value;
//! - `ORG N` sets the location counter and takes no label.
//!
//! An instruction with a symbolic operand and no flag has an open form: it is
//! short if the operand is in reach of a displacement, and long otherwise.
//! That can depend on symbols which are bound behind it, and these on the
//! form. So pass 1 begins with all open forms short, and walks again with
//! those stretched whose operand was out of reach, until none is: the sizes
//! that pass 1 reckons with are those that pass 2 emits. A form that was
//! stretched stays long, also where that brings its operand back in reach.
//!
//! Values are 64-bit, so that an `EQU` can hold a negative or a 17-bit
//! number; they are cut to 16 bits where they are emitted. Sums and products
//! are taken in two's complement.

use crate::encode;
use crate::parser::{
    BodyView, Directive, DirectiveView, Instruction, InstructionView, Label, LineBody, LineView,
    Operand, OperandView, ParsedLine,
};
use crate::text;
use crate::{AsmError, ErrorView};
use std::collections::HashSet;
use vstd::hash_map::StringHashMap;
use vstd::prelude::*;

verus! {

/// A bound symbol with its definition site.
#[derive(Debug, Clone, Copy, PartialEq, Eq, Structural)]
pub struct SymbolDef {
    pub value: i64,
    pub line: u32,
    pub col: u32,
}

/// What a symbol table holds.
#[verifier::ext_equal]
pub struct Symbols {
    /// A definition for each bound name.
    pub map: Map<Seq<char>, SymbolDef>,
    /// The numbers of the lines whose open form is long.
    pub stretched: Set<u32>,
}

/// No bound name, and these lines stretched.
pub open spec fn no_symbols(stretched: Set<u32>) -> Symbols {
    Symbols { map: Map::empty(), stretched }
}

/// The bound symbols, each name bound once, and what pass 1 found out about
/// the forms of instructions.
pub struct SymbolTable {
    pub map: StringHashMap<SymbolDef>,
    /// The numbers of the lines whose open form is long.
    pub stretched: HashSet<u32>,
}

impl View for SymbolTable {
    type V = Symbols;

    open spec fn view(&self) -> Symbols {
        Symbols { map: self.map@, stretched: self.stretched@ }
    }
}

/// The value of a name, if it is bound.
pub open spec fn value_of(symbols: Symbols, name: Seq<char>) -> Option<i64> {
    if symbols.map.contains_key(name) {
        Some(symbols.map[name].value)
    } else {
        None
    }
}

/// The table with one more name, or the error that the name is bound.
pub open spec fn defined(
    symbols: Symbols,
    name: Seq<char>,
    value: i64,
    line: u32,
    col: u32,
) -> Result<Symbols, ErrorView> {
    if symbols.map.contains_key(name) {
        Err(
            ErrorView {
                line,
                col,
                message: "duplicate label `"@ + name + "`; previously defined at line "@
                    + text::decimal(symbols.map[name].line as int),
            },
        )
    } else {
        Ok(Symbols { map: symbols.map.insert(name, SymbolDef { value, line, col }), ..symbols })
    }
}

impl Default for SymbolTable {
    fn default() -> (t: SymbolTable)
        ensures
            t@ == no_symbols(Set::empty()),
    {
        SymbolTable { map: StringHashMap::new(), stretched: HashSet::new() }
    }
}

impl SymbolTable {
    /// A table without symbols.
    pub fn new() -> (t: SymbolTable)
        ensures
            t@ == no_symbols(Set::empty()),
    {
        SymbolTable { map: StringHashMap::new(), stretched: HashSet::new() }
    }

    /// Whether the open form of a line is long.
    pub(crate) fn is_stretched(&self, line: u32) -> (r: bool)
        ensures
            r == self@.stretched.contains(line),
    {
        broadcast use vstd::std_specs::hash::group_hash_axioms;

        self.stretched.contains(&line)
    }

    /// Makes the open form of a line long; whether it was short before.
    fn stretch(&mut self, line: u32) -> (r: bool)
        ensures
            final(self)@ == (Symbols {
                stretched: old(self)@.stretched.insert(line),
                ..old(self)@
            }),
            r == !old(self)@.stretched.contains(line),
    {
        broadcast use vstd::std_specs::hash::group_hash_axioms;

        self.stretched.insert(line)
    }

    /// The value of a name, if it is bound.
    pub fn lookup(&self, name: &str) -> (r: Option<i64>)
        ensures
            r == value_of(self@, name@),
    {
        match self.map.get(name) {
            Some(def) => Some(def.value),
            None => None,
        }
    }

    /// Binds a name that is not bound yet; the table keeps what it had.
    pub fn define(&mut self, name: &str, value: i64, line: u32, col: u32) -> (r: Result<
        (),
        AsmError,
    >)
        ensures
            match defined(old(self)@, name@, value, line, col) {
                Ok(symbols) => r is Ok && final(self)@ == symbols,
                Err(e) => {
                    &&& r matches Err(x)
                    &&& x@ == e
                    &&& final(self)@ == old(self)@
                },
            },
    {
        match self.map.get(name) {
            Some(def) => {
                let mut message = "duplicate label `".to_owned();
                message.append(name);
                message.append("`; previously defined at line ");
                text::push_decimal(&mut message, def.line as i64);
                Err(AsmError::new(line, col, message))
            },
            None => {
                self.map.insert(name.to_owned(), SymbolDef { value, line, col });
                Ok(())
            },
        }
    }
}

/// An integer as 64 bits of two's complement hold it.
pub open spec fn wrap64(n: int) -> i64 {
    let m = n % 0x1_0000_0000_0000_0000;
    (if m > i64::MAX {
        m - 0x1_0000_0000_0000_0000
    } else {
        m
    }) as i64
}

/// What 64 bits hold stays as it is.
pub proof fn lemma_wrap64_same(n: i64)
    ensures
        wrap64(n as int) == n,
{
}

/// A sum in two's complement.
pub(crate) fn sum(a: i64, b: i64) -> (r: i64)
    ensures
        r == wrap64(a + b),
{
    a.wrapping_add(b)
}

/// The value of an operand at a location, or the first unbound name in it.
pub open spec fn value_at(op: OperandView, symbols: Symbols, lc: i64) -> Result<i64, Seq<char>>
    decreases op,
{
    match op {
        OperandView::Number(n) => Ok(n),
        OperandView::Symbol(name) => match value_of(symbols, name) {
            Some(v) => Ok(v),
            None => Err(name),
        },
        OperandView::LocationCounter => Ok(lc),
        OperandView::Offset { base, delta } => match value_at(*base, symbols, lc) {
            Ok(v) => Ok(wrap64(v + delta)),
            Err(name) => Err(name),
        },
        OperandView::Multiply { lhs, rhs } => match value_at(*rhs, symbols, lc) {
            Ok(v) => Ok(wrap64(lhs * v)),
            Err(name) => Err(name),
        },
    }
}

/// The value of an operand at a location, or the first unbound name in it.
pub(crate) fn evaluate<'a>(op: &'a Operand, table: &SymbolTable, lc: i64) -> (r: Result<
    i64,
    &'a String,
>)
    ensures
        match value_at(op@, table@, lc) {
            Ok(v) => r == Ok::<i64, &'a String>(v),
            Err(name) => r matches Err(x) && x@ == name,
        },
    decreases op,
{
    match op {
        Operand::Number(n) => Ok(*n),
        Operand::Symbol(name) => match table.lookup(name.as_str()) {
            Some(v) => Ok(v),
            None => Err(name),
        },
        Operand::LocationCounter => Ok(lc),
        Operand::Offset { base, delta } => match evaluate(&**base, table, lc) {
            Ok(v) => Ok(sum(v, *delta)),
            Err(name) => Err(name),
        },
        Operand::Multiply { lhs, rhs } => match evaluate(&**rhs, table, lc) {
            Ok(v) => Ok(lhs.wrapping_mul(v)),
            Err(name) => Err(name),
        },
    }
}

/// The value of an operand in pass 1, where a symbol must be bound already.
pub open spec fn pass1_value(op: OperandView, symbols: Symbols, lc: i64, line: u32) -> Result<
    i64,
    ErrorView,
> {
    match value_at(op, symbols, lc) {
        Ok(v) => Ok(v),
        Err(name) => Err(
            ErrorView {
                line,
                col: 1,
                message: "undefined symbol `"@ + name
                    + "` (forward references not allowed in pass 1)"@,
            },
        ),
    }
}

/// Resolves an operand in pass 1.
fn resolve_pass1(op: &Operand, symtab: &SymbolTable, lc: i64, line: u32) -> (r: Result<
    i64,
    AsmError,
>)
    ensures
        match pass1_value(op@, symtab@, lc, line) {
            Ok(v) => r == Ok::<i64, AsmError>(v),
            Err(e) => r matches Err(x) && x@ == e,
        },
{
    match evaluate(op, symtab, lc) {
        Ok(v) => Ok(v),
        Err(name) => {
            let mut message = "undefined symbol `".to_owned();
            message.append(name.as_str());
            message.append("` (forward references not allowed in pass 1)");
            Err(AsmError::new(line, 1, message))
        },
    }
}

/// The number of words that an instruction takes, given whether an open form
/// is stretched.
pub open spec fn instruction_words(insn: InstructionView, stretched: bool) -> i64 {
    if encode::takes_long(insn, stretched) {
        2
    } else {
        1
    }
}

/// The number of words that pass 2 emits for an instruction: 1 in short
/// form, 2 in long form.
pub(crate) fn instruction_size_words(insn: &Instruction, stretched: bool) -> (n: i64)
    ensures
        n == instruction_words(insn@, stretched),
{
    if encode::long_form(insn, stretched) {
        2
    } else {
        1
    }
}

/// Where pass 1 stands.
pub struct Pass1 {
    pub lc: i64,
    pub symbols: Symbols,
    /// `END` was met.
    pub ended: bool,
}

/// Binds a line's label, if it has one, to a value.
pub open spec fn labelled(line: LineView, symbols: Symbols, value: i64) -> Result<
    Symbols,
    ErrorView,
> {
    match line.label {
        Some(label) => defined(symbols, label.name, value, line.line, label.col),
        None => Ok(symbols),
    }
}

/// The error of a `BSS` with a negative size.
pub open spec fn bss_error(line: u32, n: i64) -> ErrorView {
    ErrorView {
        line,
        col: 1,
        message: "BSS size must be non-negative; got "@ + text::decimal(n as int),
    }
}

/// The symbols with a line's label, if it has one and can have it.
pub open spec fn with_label(line: LineView, symbols: Symbols, value: i64) -> Symbols {
    match labelled(line, symbols, value) {
        Ok(more) => more,
        Err(_) => symbols,
    }
}

/// Pass 1 behind a line whose label binds to the location counter and which
/// emits `words` words.
pub open spec fn behind(line: LineView, p: Pass1, words: i64, ended: bool) -> Pass1 {
    Pass1 { lc: wrap64(p.lc + words), symbols: with_label(line, p.symbols, p.lc), ended }
}

/// The location that an `ORG` line sets.
pub open spec fn org_of(line: LineView, op: OperandView, symbols: Symbols, lc: i64) -> Result<
    i64,
    ErrorView,
> {
    match line.label {
        Some(label) => Err(
            ErrorView { line: line.line, col: label.col, message: "ORG cannot have a label"@ },
        ),
        None => pass1_value(op, symbols, lc, line.line),
    }
}

/// The symbols behind an `EQU` line.
pub open spec fn equ_of(line: LineView, op: OperandView, symbols: Symbols, lc: i64) -> Result<
    Symbols,
    ErrorView,
> {
    match line.label {
        None => Err(ErrorView { line: line.line, col: 1, message: "EQU requires a label"@ }),
        Some(label) => match pass1_value(op, symbols, lc, line.line) {
            Ok(v) => labelled(line, symbols, v),
            Err(e) => Err(e),
        },
    }
}

/// The number of words that a `BSS` reserves.
pub open spec fn size_of(op: OperandView, symbols: Symbols, lc: i64, line: u32) -> Result<
    i64,
    ErrorView,
> {
    match pass1_value(op, symbols, lc, line) {
        Ok(n) => if n < 0 {
            Err(bss_error(line, n))
        } else {
            Ok(n)
        },
        Err(e) => Err(e),
    }
}

/// What is wrong with a line where pass 1 stands, if anything: its label is
/// bound already; an `ORG` has one, or an `EQU` has none; an operand of `ORG`,
/// `EQU` or `BSS` has an unbound symbol; or a `BSS` is negative.
pub open spec fn fault_of(line: LineView, p: Pass1) -> Option<ErrorView> {
    match line.body {
        BodyView::Directive(DirectiveView::Org(op)) => match org_of(line, op, p.symbols, p.lc) {
            Err(e) => Some(e),
            Ok(_) => None,
        },
        BodyView::Directive(DirectiveView::Equ(op)) => match equ_of(line, op, p.symbols, p.lc) {
            Err(e) => Some(e),
            Ok(_) => None,
        },
        _ => match labelled(line, p.symbols, p.lc) {
            Err(e) => Some(e),
            Ok(symbols) => match line.body {
                BodyView::Directive(DirectiveView::Bss(op)) => match size_of(
                    op,
                    symbols,
                    p.lc,
                    line.line,
                ) {
                    Err(e) => Some(e),
                    Ok(_) => None,
                },
                _ => None,
            },
        },
    }
}

/// Pass 1 behind one more line. What is wrong with a line has no effect: a
/// bound label keeps its value, a location or size that is unknown or
/// negative moves nothing.
pub open spec fn pass1_step(line: LineView, p: Pass1) -> Pass1 {
    match line.body {
        BodyView::Empty => behind(line, p, 0, false),
        BodyView::Instruction(insn) => behind(
            line,
            p,
            instruction_words(insn, p.symbols.stretched.contains(line.line)),
            false,
        ),
        BodyView::Directive(DirectiveView::Dc(_)) => behind(line, p, 1, false),
        BodyView::Directive(DirectiveView::Abs) => behind(line, p, 0, false),
        BodyView::Directive(DirectiveView::End(_)) => behind(line, p, 0, true),
        BodyView::Directive(DirectiveView::Org(op)) => match org_of(line, op, p.symbols, p.lc) {
            Ok(v) => Pass1 { lc: v, ..p },
            Err(_) => p,
        },
        BodyView::Directive(DirectiveView::Equ(op)) => match equ_of(line, op, p.symbols, p.lc) {
            Ok(symbols) => Pass1 { symbols, ..p },
            Err(_) => p,
        },
        BodyView::Directive(DirectiveView::Bss(op)) => match size_of(
            op,
            with_label(line, p.symbols, p.lc),
            p.lc,
            line.line,
        ) {
            Ok(n) => behind(line, p, n, false),
            Err(_) => behind(line, p, 0, false),
        },
    }
}

/// Pass 1 behind the first `n` lines, of which those behind `END` count for
/// nothing, with the given lines stretched.
pub open spec fn pass1_after(lines: Seq<LineView>, stretched: Set<u32>, n: int) -> Pass1
    decreases n,
{
    if n <= 0 {
        Pass1 { lc: 0, symbols: no_symbols(stretched), ended: false }
    } else {
        let p = pass1_after(lines, stretched, n - 1);
        if p.ended {
            p
        } else {
            pass1_step(lines[n - 1], p)
        }
    }
}

/// The symbols that one walk over a program binds, with the given lines
/// stretched.
pub open spec fn walk_of(lines: Seq<LineView>, stretched: Set<u32>) -> Symbols {
    pass1_after(lines, stretched, lines.len() as int).symbols
}

/// The first fault of a walk within the first `n` lines.
pub open spec fn fault_within(lines: Seq<LineView>, stretched: Set<u32>, n: int) -> Option<ErrorView>
    decreases n,
{
    if n <= 0 {
        None
    } else {
        match fault_within(lines, stretched, n - 1) {
            Some(e) => Some(e),
            None => {
                let p = pass1_after(lines, stretched, n - 1);
                if p.ended {
                    None
                } else {
                    fault_of(lines[n - 1], p)
                }
            },
        }
    }
}

/// Whether a line is an instruction with an open form whose operand is out of
/// reach.
pub open spec fn is_out(line: LineView, symbols: Symbols, lc: i64) -> bool {
    match line.body {
        BodyView::Instruction(insn) => encode::is_open(insn) && encode::out_of_reach(
            insn.operand,
            symbols,
            lc,
        ),
        _ => false,
    }
}

/// The lines that are to be stretched once a walk has bound `symbols`: those
/// that were, and those of the first `n` whose operand is out of reach at the
/// place where the walk met them.
pub open spec fn grown(lines: Seq<LineView>, symbols: Symbols, n: int) -> Set<u32>
    decreases n,
{
    if n <= 0 {
        symbols.stretched
    } else {
        let before = grown(lines, symbols, n - 1);
        let p = pass1_after(lines, symbols.stretched, n - 1);
        if !p.ended && is_out(lines[n - 1], symbols, p.lc) {
            before.insert(lines[n - 1].line)
        } else {
            before
        }
    }
}

/// How many of the first `n` lines are not stretched.
pub open spec fn loose(lines: Seq<LineView>, stretched: Set<u32>, n: int) -> nat
    decreases n,
{
    if n <= 0 {
        0
    } else if stretched.contains(lines[n - 1].line) {
        loose(lines, stretched, n - 1)
    } else {
        loose(lines, stretched, n - 1) + 1
    }
}

/// Every walk keeps the set of stretched lines as it is.
pub proof fn lemma_stretched(lines: Seq<LineView>, stretched: Set<u32>, n: int)
    ensures
        pass1_after(lines, stretched, n).symbols.stretched == stretched,
    decreases n,
{
    if n > 0 {
        lemma_stretched(lines, stretched, n - 1);
    }
}

/// The stretched lines only grow, by lines of the program.
pub proof fn lemma_grown(lines: Seq<LineView>, symbols: Symbols, n: int)
    requires
        n <= lines.len(),
    ensures
        symbols.stretched.subset_of(grown(lines, symbols, n)),
        forall|number: u32| #[trigger]
            grown(lines, symbols, n).contains(number) && !symbols.stretched.contains(number)
                ==> exists|k: int| 0 <= k < n && (#[trigger] lines[k]).line == number,
    decreases n,
{
    if n > 0 {
        lemma_grown(lines, symbols, n - 1);
        let before = grown(lines, symbols, n - 1);
        assert forall|number: u32| #[trigger]
            grown(lines, symbols, n).contains(number) && !symbols.stretched.contains(
                number,
            ) implies exists|k: int| 0 <= k < n && (#[trigger] lines[k]).line == number by {
            if before.contains(number) {
                let k = choose|k: int| 0 <= k < n - 1 && (#[trigger] lines[k]).line == number;
                assert(lines[k].line == number);
            } else {
                assert(lines[n - 1].line == number);
            }
        }
    }
}

proof fn lemma_fewer_loose(lines: Seq<LineView>, few: Set<u32>, many: Set<u32>, n: int)
    requires
        few.subset_of(many),
    ensures
        loose(lines, many, n) <= loose(lines, few, n),
        forall|k: int|
            0 <= k < n && many.contains((#[trigger] lines[k]).line) && !few.contains(lines[k].line)
                ==> loose(lines, many, n) < loose(lines, few, n),
    decreases n,
{
    if n > 0 {
        lemma_fewer_loose(lines, few, many, n - 1);
    }
}

/// Where the stretched lines grow, fewer are left.
pub proof fn lemma_growth_ends(lines: Seq<LineView>, stretched: Set<u32>)
    ensures
        ({
            let symbols = walk_of(lines, stretched);
            let more = grown(lines, symbols, lines.len() as int);
            more != stretched ==> loose(lines, more, lines.len() as int) < loose(
                lines,
                stretched,
                lines.len() as int,
            )
        }),
{
    let n = lines.len() as int;
    let symbols = walk_of(lines, stretched);
    let more = grown(lines, symbols, n);
    lemma_stretched(lines, stretched, n);
    lemma_grown(lines, symbols, n);
    lemma_fewer_loose(lines, stretched, more, n);
    if more != stretched {
        assert(!more.subset_of(stretched)) by {
            if more.subset_of(stretched) {
                assert(more =~= stretched);
            }
        }
        let number = choose|number: u32| more.contains(number) && !stretched.contains(number);
        let k = choose|k: int| 0 <= k < n && (#[trigger] lines[k]).line == number;
        assert(lines[k].line == number);
    }
}

/// The symbols of a program, from the walk with the given lines stretched on:
/// lines that are out of reach with what a walk bound are stretched, and stay
/// so in the next walk; a walk that leaves none out of reach is the last.
pub open spec fn settled_from(lines: Seq<LineView>, stretched: Set<u32>) -> Symbols
    decreases loose(lines, stretched, lines.len() as int),
{
    let symbols = walk_of(lines, stretched);
    let more = grown(lines, symbols, lines.len() as int);
    if more == stretched {
        symbols
    } else {
        proof {
            lemma_growth_ends(lines, stretched);
        }
        settled_from(lines, more)
    }
}

/// The symbols of a program, faults or no: the walks begin with all open
/// forms short.
pub open spec fn settled_of(lines: Seq<LineView>) -> Symbols {
    settled_from(lines, Set::empty())
}

/// The symbols that a program binds, or the first fault of the last walk.
pub open spec fn pass1_of(lines: Seq<LineView>) -> Result<Symbols, ErrorView> {
    let symbols = settled_of(lines);
    match fault_within(lines, symbols.stretched, lines.len() as int) {
        Some(e) => Err(e),
        None => Ok(symbols),
    }
}

/// Where pass 1 has ended, longer runs of lines change nothing.
pub proof fn lemma_pass1_stays(lines: Seq<LineView>, stretched: Set<u32>, n: int, m: int)
    requires
        0 <= n <= m,
        pass1_after(lines, stretched, n).ended,
    ensures
        pass1_after(lines, stretched, m) == pass1_after(lines, stretched, n),
        fault_within(lines, stretched, m) == fault_within(lines, stretched, n),
    decreases m - n,
{
    if n < m {
        lemma_pass1_stays(lines, stretched, n, m - 1);
    }
}

/// The last walk binds the symbols of the program, and leaves none of its
/// operands out of reach that is not stretched.
pub proof fn lemma_settled(lines: Seq<LineView>, stretched: Set<u32>)
    ensures
        ({
            let symbols = settled_from(lines, stretched);
            &&& walk_of(lines, symbols.stretched) == symbols
            &&& grown(lines, symbols, lines.len() as int) == symbols.stretched
        }),
    decreases loose(lines, stretched, lines.len() as int),
{
    let symbols = walk_of(lines, stretched);
    let more = grown(lines, symbols, lines.len() as int);
    lemma_stretched(lines, stretched, lines.len() as int);
    if more != stretched {
        lemma_growth_ends(lines, stretched);
        lemma_settled(lines, more);
    }
}

/// Binds a label, if there is one.
fn bind_label(label: &Option<Label>, symtab: &mut SymbolTable, value: i64, line: u32) -> (r: Result<
    (),
    AsmError,
>)
    ensures
        match *label {
            Some(l) => match defined(old(symtab)@, l.name@, value, line, l.col) {
                Ok(symbols) => r is Ok && final(symtab)@ == symbols,
                Err(e) => {
                    &&& r matches Err(x)
                    &&& x@ == e
                    &&& final(symtab)@ == old(symtab)@
                },
            },
            None => r is Ok && final(symtab)@ == old(symtab)@,
        },
{
    match label {
        Some(l) => symtab.define(l.name.as_str(), value, line, l.col),
        None => Ok(()),
    }
}

/// Takes an `ORG` line into pass 1: the new location counter.
fn pass1_org(line: &ParsedLine, op: &Operand, symtab: &SymbolTable, lc: i64) -> (r: Result<
    i64,
    AsmError,
>)
    ensures
        match org_of(line@, op@, symtab@, lc) {
            Ok(v) => r == Ok::<i64, AsmError>(v),
            Err(e) => r matches Err(x) && x@ == e,
        },
{
    match &line.label {
        Some(label) => Err(
            AsmError::new(line.line, label.col, "ORG cannot have a label".to_owned()),
        ),
        None => resolve_pass1(op, symtab, lc, line.line),
    }
}

/// Takes an `EQU` line into pass 1.
fn pass1_equ(line: &ParsedLine, op: &Operand, symtab: &mut SymbolTable, lc: i64) -> (r: Result<
    (),
    AsmError,
>)
    ensures
        match equ_of(line@, op@, old(symtab)@, lc) {
            Ok(symbols) => r is Ok && final(symtab)@ == symbols,
            Err(e) => {
                &&& r matches Err(x)
                &&& x@ == e
                &&& final(symtab)@ == old(symtab)@
            },
        },
{
    match &line.label {
        None => Err(AsmError::new(line.line, 1, "EQU requires a label".to_owned())),
        Some(label) => match resolve_pass1(op, symtab, lc, line.line) {
            Ok(v) => symtab.define(label.name.as_str(), v, line.line, label.col),
            Err(e) => Err(e),
        },
    }
}

/// The size of a `BSS` in pass 1.
fn pass1_size(op: &Operand, symtab: &SymbolTable, lc: i64, line: u32) -> (r: Result<i64, AsmError>)
    ensures
        match size_of(op@, symtab@, lc, line) {
            Ok(n) => r == Ok::<i64, AsmError>(n),
            Err(e) => r matches Err(x) && x@ == e,
        },
{
    match resolve_pass1(op, symtab, lc, line) {
        Ok(n) => if n < 0 {
            Err(negative_bss(line, n))
        } else {
            Ok(n)
        },
        Err(e) => Err(e),
    }
}

/// What one line does to pass 1.
struct Step {
    lc: i64,
    ended: bool,
    fault: Option<AsmError>,
}

/// Whether a fault is the one that it should be.
spec fn is_fault(fault: Option<AsmError>, expected: Option<ErrorView>) -> bool {
    match expected {
        Some(e) => fault matches Some(x) && x@ == e,
        None => fault is None,
    }
}

/// Takes one line into pass 1.
fn pass1_line(line: &ParsedLine, symtab: &mut SymbolTable, lc: i64) -> (r: Step)
    ensures
        pass1_step(line@, Pass1 { lc, symbols: old(symtab)@, ended: false }) == (Pass1 {
            lc: r.lc,
            symbols: final(symtab)@,
            ended: r.ended,
        }),
        is_fault(r.fault, fault_of(line@, Pass1 { lc, symbols: old(symtab)@, ended: false })),
{
    match &line.body {
        LineBody::Directive(Directive::Org(op)) => match pass1_org(line, op, symtab, lc) {
            Ok(v) => Step { lc: v, ended: false, fault: None },
            Err(e) => Step { lc, ended: false, fault: Some(e) },
        },
        LineBody::Directive(Directive::Equ(op)) => match pass1_equ(line, op, symtab, lc) {
            Ok(_) => Step { lc, ended: false, fault: None },
            Err(e) => Step { lc, ended: false, fault: Some(e) },
        },
        _ => {
            let bound = bind_label(&line.label, symtab, lc, line.line);
            let mut fault: Option<AsmError> = match bound {
                Ok(_) => None,
                Err(e) => Some(e),
            };
            let mut words: i64 = 0;
            let mut ended = false;
            match &line.body {
                LineBody::Instruction(insn) => {
                    words = instruction_size_words(insn, symtab.is_stretched(line.line));
                },
                LineBody::Directive(Directive::Dc(_)) => {
                    words = 1;
                },
                LineBody::Directive(Directive::Bss(op)) => match pass1_size(
                    op,
                    symtab,
                    lc,
                    line.line,
                ) {
                    Ok(n) => {
                        words = n;
                    },
                    Err(e) => {
                        if fault.is_none() {
                            fault = Some(e);
                        }
                    },
                },
                LineBody::Directive(Directive::End(_)) => {
                    ended = true;
                },
                _ => {},
            }
            Step { lc: sum(lc, words), ended, fault }
        },
    }
}

/// The error of a `BSS` with a negative size.
pub(crate) fn negative_bss(line: u32, n: i64) -> (e: AsmError)
    ensures
        e@ == bss_error(line, n),
{
    let mut message = "BSS size must be non-negative; got ".to_owned();
    text::push_decimal(&mut message, n);
    AsmError::new(line, 1, message)
}

/// What a walk of pass 1 found.
struct Walk {
    table: SymbolTable,
    /// The locations of the lines up to and with `END`.
    places: Vec<i64>,
    fault: Option<AsmError>,
}

/// One walk of pass 1, with the given lines stretched.
fn walk(lines: &[ParsedLine], stretched: HashSet<u32>) -> (r: Walk)
    ensures
        ({
            let all = crate::parser::views(lines@);
            let count = r.places@.len() as int;
            &&& r.table@ == walk_of(all, stretched@)
            &&& is_fault(r.fault, fault_within(all, stretched@, all.len() as int))
            &&& count <= all.len()
            &&& count < all.len() ==> pass1_after(all, stretched@, count).ended
            &&& forall|k: int|
                0 <= k < count ==> {
                    let p = #[trigger] pass1_after(all, stretched@, k);
                    !p.ended && p.lc == r.places@[k]
                }
        }),
{
    let ghost set = stretched@;
    let ghost all = crate::parser::views(lines@);
    let mut table = SymbolTable { map: StringHashMap::new(), stretched };
    let mut places: Vec<i64> = Vec::new();
    let mut fault: Option<AsmError> = None;
    let mut lc: i64 = 0;
    let mut ended = false;
    let mut i: usize = 0;
    while i < lines.len() && !ended
        invariant
            i <= lines@.len(),
            all == crate::parser::views(lines@),
            places@.len() == i,
            pass1_after(all, set, i as int) == (Pass1 { lc, symbols: table@, ended }),
            is_fault(fault, fault_within(all, set, i as int)),
            forall|k: int|
                0 <= k < i ==> {
                    let p = #[trigger] pass1_after(all, set, k);
                    !p.ended && p.lc == places@[k]
                },
        decreases lines@.len() - i,
    {
        places.push(lc);
        let step = pass1_line(&lines[i], &mut table, lc);
        lc = step.lc;
        ended = step.ended;
        if fault.is_none() {
            fault = step.fault;
        }
        i += 1;
    }
    proof {
        if ended {
            lemma_pass1_stays(all, set, i as int, all.len() as int);
        }
    }
    Walk { table, places, fault }
}

/// Stretches the lines whose operand is out of reach; whether there was one
/// that had not been stretched yet.
fn grow(lines: &[ParsedLine], table: &mut SymbolTable, places: &Vec<i64>) -> (r: bool)
    requires
        ({
            let all = crate::parser::views(lines@);
            let count = places@.len() as int;
            &&& count <= all.len()
            &&& count < all.len() ==> pass1_after(all, old(table)@.stretched, count).ended
            &&& forall|k: int|
                0 <= k < count ==> {
                    let p = #[trigger] pass1_after(all, old(table)@.stretched, k);
                    !p.ended && p.lc == places@[k]
                }
        }),
    ensures
        ({
            let all = crate::parser::views(lines@);
            let more = grown(all, old(table)@, all.len() as int);
            &&& final(table)@ == (Symbols { stretched: more, ..old(table)@ })
            &&& r == (more != old(table)@.stretched)
        }),
{
    let ghost all = crate::parser::views(lines@);
    let ghost symbols = table@;
    let mut grew = false;
    let mut i: usize = 0;
    while i < places.len()
        invariant
            i <= places@.len() <= all.len(),
            all == crate::parser::views(lines@),
            symbols == old(table)@,
            forall|k: int|
                0 <= k < places@.len() ==> {
                    let p = #[trigger] pass1_after(all, symbols.stretched, k);
                    !p.ended && p.lc == places@[k]
                },
            table@ == (Symbols { stretched: grown(all, symbols, i as int), ..symbols }),
            symbols.stretched.subset_of(grown(all, symbols, i as int)),
            grew == (grown(all, symbols, i as int) != symbols.stretched),
        decreases places@.len() - i,
    {
        let ghost before = grown(all, symbols, i as int);
        assert(all[i as int] == lines@[i as int]@);
        assert(!pass1_after(all, symbols.stretched, i as int).ended);
        let out = match &lines[i].body {
            LineBody::Instruction(insn) => {
                let far = encode::beyond_reach(&insn.operand, table, places[i]);
                proof {
                    lemma_reach_is_by_map(insn@.operand, table@, symbols, places@[i as int]);
                }
                encode::open_form(insn) && far
            },
            _ => false,
        };
        if out {
            let fresh = table.stretch(lines[i].line);
            proof {
                if !fresh {
                    assert(before.insert(lines@[i as int].line) =~= before);
                }
            }
            if fresh {
                assert(before.insert(lines@[i as int].line).contains(lines@[i as int].line));
                grew = true;
            }
        }
        i += 1;
    }
    proof {
        lemma_grown_stays(all, symbols, i as int, all.len() as int);
    }
    grew
}

/// Values, and what is in reach, depend on the bound names alone.
pub proof fn lemma_value_is_by_map(op: OperandView, a: Symbols, b: Symbols, lc: i64)
    requires
        a.map == b.map,
    ensures
        value_at(op, a, lc) == value_at(op, b, lc),
    decreases op,
{
    match op {
        OperandView::Offset { base, delta } => {
            lemma_value_is_by_map(*base, a, b, lc);
        },
        OperandView::Multiply { lhs, rhs } => {
            lemma_value_is_by_map(*rhs, a, b, lc);
        },
        _ => {},
    }
}

proof fn lemma_reach_is_by_map(operand: Option<OperandView>, a: Symbols, b: Symbols, lc: i64)
    requires
        a.map == b.map,
    ensures
        encode::out_of_reach(operand, a, lc) == encode::out_of_reach(operand, b, lc),
{
    match operand {
        Some(op) => {
            lemma_value_is_by_map(op, a, b, lc);
        },
        None => {},
    }
}

/// Lines behind `END` are not stretched.
pub proof fn lemma_grown_stays(lines: Seq<LineView>, symbols: Symbols, n: int, m: int)
    requires
        0 <= n <= m,
        n < m ==> pass1_after(lines, symbols.stretched, n).ended,
    ensures
        grown(lines, symbols, m) == grown(lines, symbols, n),
    decreases m - n,
{
    if n < m {
        lemma_pass1_stays(lines, symbols.stretched, n, m - 1);
        lemma_grown_stays(lines, symbols, n, m - 1);
    }
}

/// Pass 1: builds the symbol table.
///
/// The form of an instruction can depend on symbols that are bound behind it,
/// and they on the form. So the lines are walked, with more of them
/// stretched each time, until no operand is out of reach of its form.
pub fn build_pass1(lines: &[ParsedLine]) -> (r: Result<SymbolTable, AsmError>)
    ensures
        match pass1_of(crate::parser::views(lines@)) {
            Ok(symbols) => r matches Ok(t) && t@ == symbols,
            Err(e) => r matches Err(x) && x@ == e,
        },
{
    let ghost all = crate::parser::views(lines@);
    let mut stretched: HashSet<u32> = HashSet::new();
    loop
        invariant
            all == crate::parser::views(lines@),
            settled_of(all) == settled_from(all, stretched@),
        decreases loose(all, stretched@, all.len() as int),
    {
        let ghost set = stretched@;
        let found = walk(lines, stretched);
        let mut table = found.table;
        proof {
            lemma_stretched(all, set, all.len() as int);
            lemma_growth_ends(all, set);
        }
        if !grow(lines, &mut table, &found.places) {
            return match found.fault {
                Some(e) => Err(e),
                None => Ok(table),
            };
        }
        stretched = table.stretched;
    }
}

} // verus!
