//! How pass 1 settles the forms of instructions, and when it fails.

use crate::encode;
use crate::laws;
use crate::parser::{BodyView, DirectiveView, LineView, OperandView};
use crate::symtab;
use crate::symtab::{Pass1, Symbols};
use crate::ErrorView;
use vstd::prelude::*;

verus! {

/// A walk without faults has none in any line before `END`.
pub(crate) proof fn lemma_no_fault(lines: Seq<LineView>, stretched: Set<u32>, k: int, n: int)
    requires
        0 <= k < n,
        symtab::fault_within(lines, stretched, n) is None,
        !symtab::pass1_after(lines, stretched, k).ended,
    ensures
        symtab::fault_of(lines[k], symtab::pass1_after(lines, stretched, k)) is None,
    decreases n,
{
    if k < n - 1 {
        lemma_no_fault(lines, stretched, k, n - 1);
    }
}

/// A line that is out of reach is stretched.
pub(crate) proof fn lemma_grown_contains(lines: Seq<LineView>, symbols: Symbols, k: int, n: int)
    requires
        0 <= k < n,
        !symtab::pass1_after(lines, symbols.stretched, k).ended,
        symtab::is_out(
            lines[k],
            symbols,
            symtab::pass1_after(lines, symbols.stretched, k).lc,
        ),
    ensures
        symtab::grown(lines, symbols, n).contains(lines[k].line),
    decreases n,
{
    if k < n - 1 {
        lemma_grown_contains(lines, symbols, k, n - 1);
    }
}

/// The symbols of a program are those that a walk binds with the lines
/// stretched that they say, and with them no open form is short whose operand
/// is out of reach.
pub proof fn law_forms_are_settled(lines: Seq<LineView>, symbols: Symbols, k: int)
    requires
        symtab::pass1_of(lines) == Ok::<Symbols, ErrorView>(symbols),
        0 <= k < lines.len(),
        !symtab::pass1_after(lines, symbols.stretched, k).ended,
    ensures
        symtab::walk_of(lines, symbols.stretched) == symbols,
        symtab::is_out(
            lines[k],
            symbols,
            symtab::pass1_after(lines, symbols.stretched, k).lc,
        ) ==> symbols.stretched.contains(lines[k].line),
{
    symtab::lemma_settled(lines, Set::empty());
    if symtab::is_out(
        lines[k],
        symbols,
        symtab::pass1_after(lines, symbols.stretched, k).lc,
    ) {
        lemma_grown_contains(lines, symbols, k, lines.len() as int);
    }
}

/// A line that `grown` adds was out of reach.
proof fn lemma_grown_cause(lines: Seq<LineView>, symbols: Symbols, n: int, number: u32) -> (k: int)
    requires
        n <= lines.len(),
        symtab::grown(lines, symbols, n).contains(number),
        !symbols.stretched.contains(number),
    ensures
        0 <= k < n,
        lines[k].line == number,
        !symtab::pass1_after(lines, symbols.stretched, k).ended,
        symtab::is_out(
            lines[k],
            symbols,
            symtab::pass1_after(lines, symbols.stretched, k).lc,
        ),
    decreases n,
{
    if symtab::grown(lines, symbols, n - 1).contains(number) {
        lemma_grown_cause(lines, symbols, n - 1, number)
    } else {
        n - 1
    }
}

/// A line that is stretched once stays so, and so do those that the walk with
/// it leaves out of reach.
proof fn lemma_stays_stretched(lines: Seq<LineView>, first: Set<u32>)
    ensures
        first.subset_of(symtab::settled_from(lines, first).stretched),
        symtab::grown(lines, symtab::walk_of(lines, first), lines.len() as int).subset_of(
            symtab::settled_from(lines, first).stretched,
        ),
    decreases symtab::loose(lines, first, lines.len() as int),
{
    let symbols = symtab::walk_of(lines, first);
    let more = symtab::grown(lines, symbols, lines.len() as int);
    symtab::lemma_stretched(lines, first, lines.len() as int);
    symtab::lemma_grown(lines, symbols, lines.len() as int);
    if more != first {
        symtab::lemma_growth_ends(lines, first);
        lemma_stays_stretched(lines, more);
    }
}

/// An operand that is out of reach once all forms that can be short are, makes
/// its line long for good.
pub proof fn law_out_at_first_is_stretched(lines: Seq<LineView>, k: int)
    requires
        0 <= k < lines.len(),
        !symtab::pass1_after(lines, Set::empty(), k).ended,
        symtab::is_out(
            lines[k],
            symtab::pass1_after(lines, Set::empty(), lines.len() as int).symbols,
            symtab::pass1_after(lines, Set::empty(), k).lc,
        ),
    ensures
        symtab::settled_of(lines).stretched.contains(lines[k].line),
{
    let symbols = symtab::walk_of(lines, Set::empty());
    symtab::lemma_stretched(lines, Set::empty(), lines.len() as int);
    lemma_grown_contains(lines, symbols, k, lines.len() as int);
    lemma_stays_stretched(lines, Set::empty());
}

/// What it is for a line to be out of reach: it is an instruction, neither of
/// its flags is set, its mnemonic has both forms, and its operand is no bare
/// number and is worth less than -128 or more than 127.
pub proof fn law_out_of_reach(line: LineView, symbols: Symbols, lc: i64)
    ensures
        symtab::is_out(line, symbols, lc) <==> {
            &&& line.body matches BodyView::Instruction(insn)
            &&& {
                let m = insn.mnemonic;
                &&& !insn.long_flag && !insn.indirect_flag
                &&& m != "wait"@ && m != "sla"@ && m != "sra"@ && m != "slt"@ && m != "srt"@
                &&& m != "xio"@ && m != "b"@ && m != "bl"@ && m != "bz"@ && m != "bnz"@ && m != "bp"@
                    && m != "bn"@ && m != "bnp"@ && m != "bod"@
                &&& insn.operand is Some
                &&& !(insn.operand->0 is Number)
                &&& symtab::value_at(insn.operand->0, symbols, lc) matches Ok(v)
                &&& v < -128 || v > 127
            }
        },
{
}

/// What a walk binds is what it has bound behind the last line.
pub proof fn law_walk_binds(lines: Seq<LineView>, stretched: Set<u32>)
    ensures
        symtab::walk_of(lines, stretched) == symtab::pass1_after(
            lines,
            stretched,
            lines.len() as int,
        ).symbols,
{
}

proof fn lemma_cause(lines: Seq<LineView>, first: Set<u32>, number: u32) -> (r: (Set<u32>, int))
    requires
        symtab::settled_from(lines, first).stretched.contains(number),
        !first.contains(number),
    ensures
        !r.0.contains(number),
        r.0.subset_of(symtab::settled_from(lines, first).stretched),
        0 <= r.1 < lines.len(),
        lines[r.1].line == number,
        !symtab::pass1_after(lines, r.0, r.1).ended,
        symtab::is_out(
            lines[r.1],
            symtab::walk_of(lines, r.0),
            symtab::pass1_after(lines, r.0, r.1).lc,
        ),
    decreases symtab::loose(lines, first, lines.len() as int),
{
    let symbols = symtab::walk_of(lines, first);
    let more = symtab::grown(lines, symbols, lines.len() as int);
    symtab::lemma_stretched(lines, first, lines.len() as int);
    symtab::lemma_growth_ends(lines, first);
    lemma_stays_stretched(lines, first);
    if more.contains(number) {
        (first, lemma_grown_cause(lines, symbols, lines.len() as int, number))
    } else {
        lemma_cause(lines, more, number)
    }
}

/// No open form is long without cause: a line that is stretched was out of
/// reach in a walk in which it was still short, and no line was stretched
/// that is not in the end. The result is the lines that were stretched in that
/// walk, and the place of the line.
pub proof fn law_stretched_for_cause(lines: Seq<LineView>, number: u32) -> (r: (Set<u32>, int))
    requires
        symtab::settled_of(lines).stretched.contains(number),
    ensures
        !r.0.contains(number),
        r.0.subset_of(symtab::settled_of(lines).stretched),
        0 <= r.1 < lines.len(),
        lines[r.1].line == number,
        !symtab::pass1_after(lines, r.0, r.1).ended,
        symtab::is_out(
            lines[r.1],
            symtab::walk_of(lines, r.0),
            symtab::pass1_after(lines, r.0, r.1).lc,
        ),
{
    lemma_cause(lines, Set::empty(), number)
}

/// Whether no operand of an open form is out of reach after the first walk.
pub open spec fn all_in_reach(lines: Seq<LineView>) -> bool {
    forall|k: int|
        0 <= k < lines.len() ==> {
            let p = #[trigger] symtab::pass1_after(lines, Set::empty(), k);
            p.ended || !symtab::is_out(lines[k], symtab::walk_of(lines, Set::empty()), p.lc)
        }
}

proof fn lemma_nothing_grows(lines: Seq<LineView>, n: int)
    requires
        n <= lines.len(),
        all_in_reach(lines),
    ensures
        symtab::grown(lines, symtab::walk_of(lines, Set::empty()), n) == Set::<u32>::empty(),
    decreases n,
{
    symtab::lemma_stretched(lines, Set::empty(), lines.len() as int);
    if n > 0 {
        lemma_nothing_grows(lines, n - 1);
        let p = symtab::pass1_after(lines, Set::empty(), n - 1);
        assert(p.ended || !symtab::is_out(lines[n - 1], symtab::walk_of(lines, Set::empty()), p.lc));
    }
}

/// A program that is all in reach is all short: the first walk binds its
/// symbols, and stretches nothing.
pub proof fn law_in_reach_takes_one_walk(lines: Seq<LineView>)
    requires
        all_in_reach(lines),
    ensures
        symtab::settled_of(lines) == symtab::walk_of(lines, Set::empty()),
        symtab::settled_of(lines).stretched == Set::<u32>::empty(),
{
    lemma_nothing_grows(lines, lines.len() as int);
    symtab::lemma_stretched(lines, Set::empty(), lines.len() as int);
}

/// Where a flag, the mnemonic or a bare number settles the form of every
/// instruction, the first walk binds the symbols, and stretches nothing.
pub proof fn law_closed_forms_take_one_walk(lines: Seq<LineView>)
    requires
        forall|k: int|
            0 <= k < lines.len() ==> ((#[trigger] lines[k]).body matches BodyView::Instruction(insn)
                ==> !encode::is_open(insn)),
    ensures
        symtab::settled_of(lines) == symtab::walk_of(lines, Set::empty()),
        symtab::settled_of(lines).stretched == Set::<u32>::empty(),
{
    assert forall|k: int| 0 <= k < lines.len() implies {
        let p = #[trigger] symtab::pass1_after(lines, Set::empty(), k);
        p.ended || !symtab::is_out(lines[k], symtab::walk_of(lines, Set::empty()), p.lc)
    } by {
        assert(lines[k].body matches BodyView::Instruction(insn) ==> !encode::is_open(insn));
    }
    law_in_reach_takes_one_walk(lines);
}

/// Whether no `END` stands before line `k`.
pub open spec fn is_live(lines: Seq<LineView>, k: int) -> bool {
    forall|j: int| 0 <= j < k ==> !laws::ends(#[trigger] lines[j])
}

pub open spec fn is_org(line: LineView) -> bool {
    line.body is Directive && line.body->Directive_0 is Org
}

/// Whether a line binds a name.
pub open spec fn binds(line: LineView, name: Seq<char>) -> bool {
    !is_org(line) && (line.label matches Some(label) && label.name == name)
}

/// Whether a line before line `k` binds the name.
pub open spec fn is_bound(lines: Seq<LineView>, k: int, name: Seq<char>) -> bool {
    exists|j: int| 0 <= j < k && binds(#[trigger] lines[j], name)
}

/// The symbol that an operand is made of, if it has one.
pub open spec fn symbol_in(op: OperandView) -> Option<Seq<char>>
    decreases op,
{
    match op {
        OperandView::Symbol(name) => Some(name),
        OperandView::Offset { base, delta } => symbol_in(*base),
        OperandView::Multiply { lhs, rhs } => symbol_in(*rhs),
        _ => None,
    }
}

/// Whether an operand uses a symbol that no line before line `k` binds.
pub open spec fn is_unbound(lines: Seq<LineView>, k: int, op: OperandView) -> bool {
    symbol_in(op) matches Some(name) && !is_bound(lines, k, name)
}

/// Whether the label of line `k` is one that a line before it binds.
pub open spec fn is_repeated(lines: Seq<LineView>, k: int) -> bool {
    lines[k].label matches Some(label) && is_bound(lines, k, label.name)
}

/// Whether a `BSS` at line `k` has a negative size, where the forms have
/// settled.
pub open spec fn is_negative(lines: Seq<LineView>, k: int, op: OperandView) -> bool {
    let p = symtab::pass1_after(lines, symtab::settled_of(lines).stretched, k);
    symtab::value_at(op, symtab::with_label(lines[k], p.symbols, p.lc), p.lc) matches Ok(n) && n < 0
}

/// The faults of a program's lines up to `END`: a label that is bound
/// already, an `ORG` with a label, an `EQU` without one, a symbol in an
/// `ORG`, `EQU` or `BSS` that no earlier line binds (or, for a `BSS`, its
/// own), and a negative `BSS`.
pub open spec fn is_faulty(lines: Seq<LineView>, k: int) -> bool {
    &&& is_live(lines, k)
    &&& match lines[k].body {
        BodyView::Directive(DirectiveView::Org(op)) => lines[k].label is Some || is_unbound(
            lines,
            k,
            op,
        ),
        BodyView::Directive(DirectiveView::Equ(op)) => lines[k].label is None || is_unbound(
            lines,
            k,
            op,
        ) || is_repeated(lines, k),
        BodyView::Directive(DirectiveView::Bss(op)) => is_repeated(lines, k) || is_unbound(
            lines,
            k + 1,
            op,
        ) || is_negative(lines, k, op),
        _ => is_repeated(lines, k),
    }
}

/// Pass 1 has ended exactly behind an `END`.
proof fn lemma_live(lines: Seq<LineView>, stretched: Set<u32>, n: int)
    requires
        0 <= n <= lines.len(),
    ensures
        symtab::pass1_after(lines, stretched, n).ended <==> !is_live(lines, n),
    decreases n,
{
    if n > 0 {
        lemma_live(lines, stretched, n - 1);
        assert(is_live(lines, n) <==> is_live(lines, n - 1) && !laws::ends(lines[n - 1]));
    }
}

/// Whether the first `n` lines of a walk are without fault.
spec fn is_clean(lines: Seq<LineView>, stretched: Set<u32>, n: int) -> bool {
    forall|j: int|
        0 <= j < n ==> symtab::fault_of(
            #[trigger] lines[j],
            symtab::pass1_after(lines, stretched, j),
        ) is None
}

/// Behind lines without fault, the bound names are the labels.
proof fn lemma_names(lines: Seq<LineView>, stretched: Set<u32>, n: int)
    requires
        0 <= n <= lines.len(),
        is_live(lines, n),
        is_clean(lines, stretched, n),
    ensures
        forall|name: Seq<char>| #[trigger]
            symtab::pass1_after(lines, stretched, n).symbols.map.contains_key(name) <==> is_bound(
                lines,
                n,
                name,
            ),
    decreases n,
{
    if n > 0 {
        lemma_names(lines, stretched, n - 1);
        lemma_live(lines, stretched, n - 1);
        let p = symtab::pass1_after(lines, stretched, n - 1);
        let q = symtab::pass1_after(lines, stretched, n);
        let line = lines[n - 1];
        assert(symtab::fault_of(lines[n - 1], p) is None);
        assert forall|name: Seq<char>| #[trigger] q.symbols.map.contains_key(name) <==> is_bound(
            lines,
            n,
            name,
        ) by {
            lemma_step_names(line, p, name);
            lemma_bound_step(lines, n, name);
            assert(p.symbols.map.contains_key(name) <==> is_bound(lines, n - 1, name));
        }
    }
}

proof fn lemma_bound_step(lines: Seq<LineView>, n: int, name: Seq<char>)
    requires
        0 < n <= lines.len(),
    ensures
        is_bound(lines, n, name) <==> is_bound(lines, n - 1, name) || binds(lines[n - 1], name),
{
    if is_bound(lines, n, name) {
        let j = choose|j: int| 0 <= j < n && binds(#[trigger] lines[j], name);
        assert(j < n - 1 ==> is_bound(lines, n - 1, name));
    }
}

/// A line without fault binds its label, and nothing else.
proof fn lemma_step_names(line: LineView, p: Pass1, name: Seq<char>)
    requires
        symtab::fault_of(line, p) is None,
    ensures
        symtab::pass1_step(line, p).symbols.map.contains_key(name)
            <==> p.symbols.map.contains_key(name) || binds(line, name),
{
}

/// An operand has a value exactly where its symbol is bound.
proof fn lemma_has_value(op: OperandView, symbols: Symbols, lc: i64)
    ensures
        symtab::value_at(op, symbols, lc) is Err <==> (symbol_in(op) matches Some(name)
            && !symbols.map.contains_key(name)),
    decreases op,
{
    match op {
        OperandView::Offset { base, delta } => {
            lemma_has_value(*base, symbols, lc);
        },
        OperandView::Multiply { lhs, rhs } => {
            lemma_has_value(*rhs, symbols, lc);
        },
        _ => {},
    }
}

/// In the last walk, behind lines without fault, a line has a fault exactly
/// where it is faulty.
proof fn lemma_fault(lines: Seq<LineView>, k: int)
    requires
        0 <= k < lines.len(),
        is_live(lines, k),
        is_clean(lines, symtab::settled_of(lines).stretched, k),
    ensures
        symtab::fault_of(
            lines[k],
            symtab::pass1_after(lines, symtab::settled_of(lines).stretched, k),
        ) is Some <==> is_faulty(lines, k),
{
    let stretched = symtab::settled_of(lines).stretched;
    let p = symtab::pass1_after(lines, stretched, k);
    let line = lines[k];
    lemma_names(lines, stretched, k);
    match line.label {
        Some(label) => {
            assert(p.symbols.map.contains_key(label.name) <==> is_bound(lines, k, label.name));
        },
        None => {},
    }
    match line.body {
        BodyView::Directive(DirectiveView::Org(op)) => {
            lemma_unbound(lines, k, op, p);
        },
        BodyView::Directive(DirectiveView::Equ(op)) => {
            lemma_unbound(lines, k, op, p);
        },
        BodyView::Directive(DirectiveView::Bss(op)) => {
            if !is_repeated(lines, k) {
                lemma_unbound_own(lines, k, op, p);
            }
        },
        _ => {},
    }
}

proof fn lemma_unbound(lines: Seq<LineView>, k: int, op: OperandView, p: Pass1)
    requires
        forall|name: Seq<char>| #[trigger]
            p.symbols.map.contains_key(name) <==> is_bound(lines, k, name),
    ensures
        symtab::value_at(op, p.symbols, p.lc) is Err <==> is_unbound(lines, k, op),
{
    lemma_has_value(op, p.symbols, p.lc);
    match symbol_in(op) {
        Some(name) => {
            assert(p.symbols.map.contains_key(name) <==> is_bound(lines, k, name));
        },
        None => {},
    }
}

proof fn lemma_unbound_own(lines: Seq<LineView>, k: int, op: OperandView, p: Pass1)
    requires
        0 <= k < lines.len(),
        !is_org(lines[k]),
        !is_repeated(lines, k),
        forall|name: Seq<char>| #[trigger]
            p.symbols.map.contains_key(name) <==> is_bound(lines, k, name),
    ensures
        symtab::value_at(op, symtab::with_label(lines[k], p.symbols, p.lc), p.lc) is Err
            <==> is_unbound(lines, k + 1, op),
{
    let symbols = symtab::with_label(lines[k], p.symbols, p.lc);
    lemma_has_value(op, symbols, p.lc);
    match lines[k].label {
        Some(label) => {
            assert(p.symbols.map.contains_key(label.name) <==> is_bound(lines, k, label.name));
        },
        None => {},
    }
    match symbol_in(op) {
        Some(name) => {
            assert(p.symbols.map.contains_key(name) <==> is_bound(lines, k, name));
            lemma_bound_step(lines, k + 1, name);
        },
        None => {},
    }
}

/// A fault carries the number of its line.
pub(crate) proof fn lemma_fault_line(line: LineView, p: Pass1)
    ensures
        symtab::fault_of(line, p) matches Some(e) ==> e.line == line.line,
{
}

/// The first fault of a walk within the first `n` lines is that of a line
/// behind lines without fault.
pub(crate) proof fn lemma_first_fault(
    lines: Seq<LineView>,
    stretched: Set<u32>,
    n: int,
    e: ErrorView,
) -> (k: int)
    requires
        0 <= n <= lines.len(),
        symtab::fault_within(lines, stretched, n) == Some(e),
    ensures
        0 <= k < n,
        !symtab::pass1_after(lines, stretched, k).ended,
        symtab::fault_of(lines[k], symtab::pass1_after(lines, stretched, k)) == Some(e),
        symtab::fault_within(lines, stretched, k) is None,
    decreases n,
{
    if symtab::fault_within(lines, stretched, n - 1) is Some {
        lemma_first_fault(lines, stretched, n - 1, e)
    } else {
        n - 1
    }
}

proof fn lemma_clean(lines: Seq<LineView>, stretched: Set<u32>, n: int)
    requires
        0 <= n <= lines.len(),
        symtab::fault_within(lines, stretched, n) is None,
        is_live(lines, n),
    ensures
        is_clean(lines, stretched, n),
{
    assert forall|j: int| 0 <= j < n implies symtab::fault_of(
        #[trigger] lines[j],
        symtab::pass1_after(lines, stretched, j),
    ) is None by {
        assert(is_live(lines, j));
        lemma_live(lines, stretched, j);
        lemma_no_fault(lines, stretched, j, n);
    }
}

/// Pass 1 fails exactly on programs with a faulty line, and with the error of
/// the first of them: no program is refused for its sizes.
pub proof fn law_pass1_errors(lines: Seq<LineView>)
    ensures
        symtab::pass1_of(lines) is Err <==> exists|k: int|
            0 <= k < lines.len() && #[trigger] is_faulty(lines, k),
        symtab::pass1_of(lines) matches Err(e) ==> exists|k: int|
            {
                &&& 0 <= k < lines.len()
                &&& #[trigger] is_faulty(lines, k)
                &&& forall|j: int| 0 <= j < k ==> !#[trigger] is_faulty(lines, j)
                &&& e.line == lines[k].line
            },
{
    let stretched = symtab::settled_of(lines).stretched;
    let len = lines.len() as int;
    match symtab::fault_within(lines, stretched, len) {
        Some(e) => {
            let k = lemma_first_fault(lines, stretched, len, e);
            lemma_live(lines, stretched, k);
            lemma_clean(lines, stretched, k);
            lemma_fault(lines, k);
            lemma_fault_line(lines[k], symtab::pass1_after(lines, stretched, k));
            assert forall|j: int| 0 <= j < k implies !#[trigger] is_faulty(lines, j) by {
                lemma_not_faulty(lines, k, j);
            }
            assert(is_faulty(lines, k));
        },
        None => {
            assert forall|k: int| 0 <= k < len implies !#[trigger] is_faulty(lines, k) by {
                if is_live(lines, k) {
                    lemma_live(lines, stretched, k);
                    lemma_no_fault(lines, stretched, k, len);
                    lemma_fault_none_before(lines, stretched, k, len);
                    lemma_clean(lines, stretched, k);
                    lemma_fault(lines, k);
                }
            }
        },
    }
}

proof fn lemma_fault_none_before(lines: Seq<LineView>, stretched: Set<u32>, k: int, n: int)
    requires
        0 <= k <= n,
        symtab::fault_within(lines, stretched, n) is None,
    ensures
        symtab::fault_within(lines, stretched, k) is None,
    decreases n - k,
{
    if k < n {
        lemma_fault_none_before(lines, stretched, k, n - 1);
    }
}

proof fn lemma_not_faulty(lines: Seq<LineView>, k: int, j: int)
    requires
        0 <= j < k < lines.len(),
        is_live(lines, k),
        is_clean(lines, symtab::settled_of(lines).stretched, k),
    ensures
        !is_faulty(lines, j),
{
    let stretched = symtab::settled_of(lines).stretched;
    assert(is_live(lines, j));
    assert(is_clean(lines, stretched, j));
    lemma_fault(lines, j);
    assert(symtab::fault_of(lines[j], symtab::pass1_after(lines, stretched, j)) is None);
}

} // verus!
