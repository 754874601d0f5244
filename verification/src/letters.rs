//! Capital and small letters: the names of directives and operations and the
//! flags mean the same in either.

use crate::grammar;
use crate::placement;
use crate::text;
use vstd::prelude::*;

verus! {

/// Whether two texts differ in the case of letters at most.
pub open spec fn alike(s: Seq<char>, t: Seq<char>) -> bool {
    &&& s.len() == t.len()
    &&& forall|i: int|
        0 <= i < s.len() ==> text::lower_char(#[trigger] s[i]) == text::lower_char(t[i])
}

/// The place of the name of a line's directive or instruction.
pub open spec fn name_place(s: Seq<char>) -> int {
    let (label, after_label) = grammar::label_at(s, text::skip_blanks(s, 0));
    text::skip_blanks(s, after_label)
}

/// Whether place `i` of a line lies in the name of its directive or
/// instruction, or among the flags behind that.
pub open spec fn in_words(s: Seq<char>, i: int) -> bool {
    let start = name_place(s);
    match grammar::ident_end(s, start) {
        Some(end) => {
            let name = text::lower(s.subrange(start, end));
            start <= i < if grammar::is_directive(name) {
                end
            } else {
                grammar::flags_at(s, end, grammar::no_operand(name), false, false).pos
            }
        },
        None => false,
    }
}

spec fn is_letter(c: char) -> bool {
    ('a' <= c && c <= 'z') || ('A' <= c && c <= 'Z')
}

/// Characters that differ in case are letters.
proof fn lemma_char(x: char, y: char)
    requires
        text::lower_char(x) == text::lower_char(y),
    ensures
        x == y || (is_letter(x) && is_letter(y)),
{
}

proof fn lemma_at(s: Seq<char>, t: Seq<char>, i: int)
    requires
        alike(s, t),
        0 <= i < s.len(),
    ensures
        s[i] == t[i] || (is_letter(s[i]) && is_letter(t[i])),
{
    assert(text::lower_char(s[i]) == text::lower_char(t[i]));
    lemma_char(s[i], t[i]);
}

proof fn lemma_skip_blanks(s: Seq<char>, t: Seq<char>, pos: int)
    requires
        alike(s, t),
    ensures
        text::skip_blanks(t, pos) == text::skip_blanks(s, pos),
    decreases s.len() - pos,
{
    if 0 <= pos < s.len() {
        lemma_at(s, t, pos);
        if text::is_blank(s[pos]) {
            lemma_skip_blanks(s, t, pos + 1);
        }
    }
}

proof fn lemma_run_end(s: Seq<char>, t: Seq<char>, pos: int)
    requires
        alike(s, t),
    ensures
        grammar::run_end(t, pos) == grammar::run_end(s, pos),
    decreases s.len() - pos,
{
    if 0 <= pos < s.len() {
        lemma_at(s, t, pos);
        if text::continues_ident(s[pos]) {
            lemma_run_end(s, t, pos + 1);
        }
    }
}

proof fn lemma_lower(s: Seq<char>, t: Seq<char>, pos: int, end: int)
    requires
        alike(s, t),
        0 <= pos <= end <= s.len(),
    ensures
        text::lower(t.subrange(pos, end)) == text::lower(s.subrange(pos, end)),
{
    assert forall|i: int| 0 <= i < end - pos implies text::lower(t.subrange(pos, end))[i]
        == text::lower(s.subrange(pos, end))[i] by {
        assert(text::lower_char(s[pos + i]) == text::lower_char(t[pos + i]));
    }
    assert(text::lower(t.subrange(pos, end)) =~= text::lower(s.subrange(pos, end)));
}

proof fn lemma_ident_end(s: Seq<char>, t: Seq<char>, pos: int)
    requires
        alike(s, t),
    ensures
        grammar::ident_end(t, pos) == grammar::ident_end(s, pos),
        grammar::ident_end(s, pos) matches Some(end) ==> 0 <= pos < end <= s.len() && text::lower(
            t.subrange(pos, end),
        ) == text::lower(s.subrange(pos, end)),
{
    if 0 <= pos < s.len() {
        lemma_at(s, t, pos);
        lemma_run_end(s, t, pos);
        if text::starts_ident(s[pos]) {
            grammar::lemma_run_end(s, pos);
            lemma_lower(s, t, pos, grammar::run_end(s, pos));
        }
    }
}

proof fn lemma_byte_len(s: Seq<char>, t: Seq<char>)
    requires
        alike(s, t),
    ensures
        text::byte_len(t) == text::byte_len(s),
    decreases s.len(),
{
    if s.len() > 0 {
        lemma_at(s, t, s.len() - 1);
        assert forall|i: int| 0 <= i < s.drop_last().len() implies text::lower_char(
            #[trigger] s.drop_last()[i],
        ) == text::lower_char(t.drop_last()[i]) by {
            assert(text::lower_char(s[i]) == text::lower_char(t[i]));
        }
        lemma_byte_len(s.drop_last(), t.drop_last());
    }
}

proof fn lemma_column(s: Seq<char>, t: Seq<char>, pos: int)
    requires
        alike(s, t),
        0 <= pos <= s.len(),
    ensures
        text::column(t, pos) == text::column(s, pos),
{
    assert forall|i: int| 0 <= i < pos implies text::lower_char(#[trigger] s.take(pos)[i])
        == text::lower_char(t.take(pos)[i]) by {
        assert(text::lower_char(s[i]) == text::lower_char(t[i]));
    }
    lemma_byte_len(s.take(pos), t.take(pos));
}

proof fn lemma_flags_at(
    s: Seq<char>,
    t: Seq<char>,
    pos: int,
    bare: bool,
    long: bool,
    indirect: bool,
)
    requires
        alike(s, t),
        0 <= pos <= s.len(),
    ensures
        grammar::flags_at(t, pos, bare, long, indirect) == grammar::flags_at(
            s,
            pos,
            bare,
            long,
            indirect,
        ),
        pos <= grammar::flags_at(s, pos, bare, long, indirect).pos <= s.len(),
    decreases s.len() - pos,
{
    let p = text::skip_blanks(s, pos);
    lemma_skip_blanks(s, t, pos);
    grammar::lemma_skip_blanks(s, pos);
    lemma_ident_end(s, t, p);
    match grammar::ident_end(s, p) {
        Some(end) => {
            let word = text::lower(s.subrange(p, end));
            lemma_skip_blanks(s, t, end);
            if (word == seq!['i'] || word == seq!['l']) && (bare || text::skip_blanks(s, end)
                < s.len()) {
                lemma_flags_at(
                    s,
                    t,
                    end,
                    bare,
                    long || word == seq!['l'],
                    indirect || word == seq!['i'],
                );
            }
        },
        None => {},
    }
}

/// Whether two texts are the same from a place on.
spec fn same_from(s: Seq<char>, t: Seq<char>, pos: int) -> bool {
    forall|i: int| pos <= i < s.len() ==> #[trigger] s[i] == t[i]
}

proof fn lemma_token_stop(s: Seq<char>, t: Seq<char>, pos: int)
    requires
        alike(s, t),
    ensures
        grammar::token_stop(t, pos) == grammar::token_stop(s, pos),
    decreases s.len() - pos,
{
    if 0 <= pos < s.len() {
        lemma_at(s, t, pos);
        if !text::is_blank(s[pos]) && s[pos] != ',' {
            lemma_token_stop(s, t, pos + 1);
        }
    }
}

proof fn lemma_operand_at(line: u32, s: Seq<char>, t: Seq<char>, pos: int)
    requires
        alike(s, t),
        0 <= pos <= s.len(),
        same_from(s, t, pos),
    ensures
        grammar::operand_at(line, t, pos) == grammar::operand_at(line, s, pos),
        grammar::operand_at(line, s, pos) matches Ok((op, end)) ==> pos <= end <= s.len(),
{
    if pos < s.len() {
        lemma_at(s, t, pos);
    }
    lemma_token_stop(s, t, pos);
    lemma_token_stop(s, t, pos + 1);
    lemma_column(s, t, pos);
    placement::lemma_operand_at(' ', line, s, pos);
    placement::lemma_token_end(' ', s, pos);
    match grammar::token_end(s, pos) {
        Some(end) => {
            assert(t.subrange(pos, end) =~= s.subrange(pos, end));
        },
        None => {},
    }
}

proof fn lemma_tag_at(s: Seq<char>, t: Seq<char>, pos: int)
    requires
        alike(s, t),
        0 <= pos <= s.len(),
    ensures
        grammar::tag_at(t, pos) == grammar::tag_at(s, pos),
        pos <= grammar::tag_at(s, pos).1 <= s.len(),
{
    placement::lemma_tag_at(' ', s, pos);
    if pos < s.len() {
        lemma_at(s, t, pos);
        lemma_skip_blanks(s, t, pos + 1);
        grammar::lemma_skip_blanks(s, pos + 1);
        let comma = text::skip_blanks(s, pos + 1);
        if comma < s.len() {
            lemma_at(s, t, comma);
            lemma_skip_blanks(s, t, comma + 1);
        }
    }
}

proof fn lemma_operands_at(line: u32, s: Seq<char>, t: Seq<char>, pos: int)
    requires
        alike(s, t),
        0 <= pos <= s.len(),
        same_from(s, t, pos),
    ensures
        grammar::operands_at(line, t, pos) == grammar::operands_at(line, s, pos),
        grammar::operands_at(line, s, pos) matches Ok(o) ==> pos <= o.pos <= s.len(),
{
    lemma_tag_at(s, t, pos);
    let (tag, start) = grammar::tag_at(s, pos);
    lemma_operand_at(line, s, t, start);
    match grammar::operand_at(line, s, start) {
        Ok((operand, end)) => {
            lemma_skip_blanks(s, t, end);
            grammar::lemma_skip_blanks(s, end);
            let next = text::skip_blanks(s, end);
            if next < s.len() {
                lemma_at(s, t, next);
                lemma_skip_blanks(s, t, next + 1);
                grammar::lemma_skip_blanks(s, next + 1);
                lemma_operand_at(line, s, t, text::skip_blanks(s, next + 1));
            }
        },
        Err(_) => {},
    }
}

/// The place from which on a body must be the same: behind the name of a
/// directive, and behind the flags of an instruction.
spec fn words_end(s: Seq<char>, pos: int, name: Seq<char>) -> int {
    if grammar::is_directive(name) {
        pos
    } else {
        grammar::flags_at(s, pos, grammar::no_operand(name), false, false).pos
    }
}

proof fn lemma_body_at(
    line: u32,
    s: Seq<char>,
    t: Seq<char>,
    pos: int,
    name: Seq<char>,
    col: u32,
)
    requires
        alike(s, t),
        0 <= pos <= s.len(),
        same_from(s, t, words_end(s, pos, name)),
    ensures
        grammar::body_at(line, t, pos, name, col) == grammar::body_at(line, s, pos, name, col),
        grammar::body_at(line, s, pos, name, col) matches Ok((body, end)) ==> words_end(
            s,
            pos,
            name,
        ) <= end <= s.len(),
{
    if grammar::is_directive(name) {
        lemma_skip_blanks(s, t, pos);
        grammar::lemma_skip_blanks(s, pos);
        lemma_operand_at(line, s, t, text::skip_blanks(s, pos));
    } else {
        let bare = grammar::no_operand(name);
        lemma_flags_at(s, t, pos, bare, false, false);
        lemma_operands_at(line, s, t, grammar::flags_at(s, pos, bare, false, false).pos);
    }
}

proof fn lemma_label_at(s: Seq<char>, t: Seq<char>, pos: int)
    requires
        alike(s, t),
        0 <= pos <= s.len(),
        forall|i: int|
            pos <= i < text::skip_blanks(s, grammar::label_at(s, pos).1) ==> #[trigger] s[i] == t[i],
    ensures
        grammar::label_at(t, pos) == grammar::label_at(s, pos),
        pos <= grammar::label_at(s, pos).1 <= s.len(),
{
    lemma_ident_end(s, t, pos);
    lemma_column(s, t, pos);
    match grammar::ident_end(s, pos) {
        Some(end) => {
            if end < s.len() {
                lemma_at(s, t, end);
            }
            let next = text::skip_blanks(s, end);
            lemma_skip_blanks(s, t, end);
            lemma_ident_end(s, t, next);
            lemma_lower(s, t, 0, end);
            assert(s.take(end) =~= s.subrange(0, end));
            assert(t.take(end) =~= t.subrange(0, end));
            let after = grammar::label_at(s, pos).1;
            grammar::lemma_skip_blanks(s, after);
            if grammar::label_at(s, pos).0 is Some {
                assert(t.subrange(pos, end) =~= s.subrange(pos, end));
            }
        },
        None => {},
    }
}

proof fn lemma_find(s: Seq<char>, t: Seq<char>, pos: int)
    requires
        alike(s, t),
    ensures
        text::find(t, ';', pos) == text::find(s, ';', pos),
    decreases s.len() - pos,
{
    if 0 <= pos < s.len() {
        lemma_at(s, t, pos);
        if s[pos] != ';' {
            lemma_find(s, t, pos + 1);
        }
    }
}

proof fn lemma_trim_end(s: Seq<char>, t: Seq<char>)
    requires
        alike(s, t),
    ensures
        text::trim_end(s).len() <= s.len(),
        text::trim_end(s) == s.take(text::trim_end(s).len() as int),
        text::trim_end(t) == t.take(text::trim_end(s).len() as int),
    decreases s.len(),
{
    if s.len() > 0 {
        lemma_at(s, t, s.len() - 1);
        if text::is_whitespace(s.last()) {
            assert forall|i: int| 0 <= i < s.drop_last().len() implies text::lower_char(
                #[trigger] s.drop_last()[i],
            ) == text::lower_char(t.drop_last()[i]) by {
                assert(text::lower_char(s[i]) == text::lower_char(t[i]));
            }
            lemma_trim_end(s.drop_last(), t.drop_last());
            let n = text::trim_end(s).len() as int;
            assert(s.drop_last().take(n) =~= s.take(n));
            assert(t.drop_last().take(n) =~= t.take(n));
        }
    }
    if !(s.len() > 0 && text::is_whitespace(s.last())) {
        assert(s.take(s.len() as int) =~= s);
        assert(t.take(t.len() as int) =~= t);
    }
}

/// Without their comments, alike lines are alike.
proof fn lemma_without_comment(a: Seq<char>, b: Seq<char>)
    requires
        alike(a, b),
    ensures
        alike(grammar::without_comment(a), grammar::without_comment(b)),
        ({
            let n = grammar::without_comment(a).len() as int;
            &&& n <= a.len()
            &&& grammar::without_comment(a) == a.take(n)
            &&& grammar::without_comment(b) == b.take(n)
        }),
{
    let cut = text::find(a, ';', 0);
    lemma_find(a, b, 0);
    placement::lemma_find(' ', a, ';', 0);
    assert forall|i: int| 0 <= i < cut implies text::lower_char(#[trigger] a.take(cut)[i])
        == text::lower_char(b.take(cut)[i]) by {
        assert(text::lower_char(a[i]) == text::lower_char(b[i]));
    }
    lemma_trim_end(a.take(cut), b.take(cut));
    let n = grammar::without_comment(a).len() as int;
    assert(a.take(cut).take(n) =~= a.take(n));
    assert(b.take(cut).take(n) =~= b.take(n));
    assert forall|i: int| 0 <= i < n implies text::lower_char(#[trigger] a.take(n)[i])
        == text::lower_char(b.take(n)[i]) by {
        assert(text::lower_char(a[i]) == text::lower_char(b[i]));
    }
}

proof fn lemma_trim_start(s: Seq<char>, t: Seq<char>)
    requires
        alike(s, t),
    ensures
        alike(text::trim_start(s), text::trim_start(t)),
    decreases s.len(),
{
    if s.len() > 0 {
        lemma_at(s, t, 0);
        if text::is_whitespace(s[0]) {
            assert forall|i: int| 0 <= i < s.skip(1).len() implies text::lower_char(
                #[trigger] s.skip(1)[i],
            ) == text::lower_char(t.skip(1)[i]) by {
                assert(text::lower_char(s[i + 1]) == text::lower_char(t[i + 1]));
            }
            lemma_trim_start(s.skip(1), t.skip(1));
        }
    }
}

proof fn lemma_says_nothing(s: Seq<char>, t: Seq<char>)
    requires
        alike(s, t),
    ensures
        grammar::says_nothing(t) == grammar::says_nothing(s),
{
    lemma_trim_start(s, t);
    let u = text::trim_start(s);
    let v = text::trim_start(t);
    if u.len() > 0 {
        lemma_at(u, v, 0);
    }
    if u.len() > 1 {
        lemma_at(u, v, 1);
    }
}

/// Case does not matter where words have a fixed meaning: lines that differ
/// only in the case of letters in the name of the directive or instruction
/// and in the flags behind it mean the same, or are wrong in the same way.
/// (Labels and symbols keep their case.)
pub proof fn law_case_is_free(line: u32, a: Seq<char>, b: Seq<char>)
    requires
        alike(a, b),
        forall|i: int|
            0 <= i < a.len() && #[trigger] a[i] != b[i] ==> in_words(grammar::without_comment(a), i),
    ensures
        grammar::line_of(line, a) == grammar::line_of(line, b),
{
    reveal(grammar::line_of);
    lemma_without_comment(a, b);
    let s = grammar::without_comment(a);
    let t = grammar::without_comment(b);
    lemma_says_nothing(s, t);
    assert forall|i: int| 0 <= i < s.len() && !in_words(s, i) implies #[trigger] s[i] == t[i] by {
        assert(s[i] == a[i] && t[i] == b[i]);
    }
    if !grammar::says_nothing(s) {
        let first = text::skip_blanks(s, 0);
        lemma_skip_blanks(s, t, 0);
        grammar::lemma_skip_blanks(s, 0);
        let start = name_place(s);
        assert forall|i: int| first <= i < start implies #[trigger] s[i] == t[i] by {
            placement::lemma_ident_end(' ', s, first);
            let after = grammar::label_at(s, first).1;
            grammar::lemma_skip_blanks(s, after);
            assert(!in_words(s, i));
        }
        lemma_label_at(s, t, first);
        let (label, after) = grammar::label_at(s, first);
        lemma_skip_blanks(s, t, after);
        grammar::lemma_skip_blanks(s, after);
        lemma_column(s, t, start);
        lemma_ident_end(s, t, start);
        match grammar::ident_end(s, start) {
            Some(end) => {
                let name = text::lower(s.subrange(start, end));
                let col = text::column(s, start);
                let words = words_end(s, end, name);
                lemma_flags_at(s, t, end, grammar::no_operand(name), false, false);
                assert forall|i: int| words <= i < s.len() implies #[trigger] s[i] == t[i] by {
                    assert(!in_words(s, i));
                }
                lemma_body_at(line, s, t, end, name, col);
                match grammar::body_at(line, s, end, name, col) {
                    Ok((body, behind)) => {
                        lemma_skip_blanks(s, t, behind);
                        grammar::lemma_skip_blanks(s, behind);
                        let stop = text::skip_blanks(s, behind);
                        lemma_column(s, t, stop);
                        assert(s.skip(stop) =~= t.skip(stop));
                    },
                    Err(_) => {},
                }
            },
            None => {},
        }
    }
}

} // verus!
