//! The notation, stated over the value model: what each rendering mode
//! produces for a tree.
use crate::value::{Number, Tree};
use vstd::prelude::*;

verus! {

pub open spec fn digit_char(d: int) -> char {
    if d == 0 {
        '0'
    } else if d == 1 {
        '1'
    } else if d == 2 {
        '2'
    } else if d == 3 {
        '3'
    } else if d == 4 {
        '4'
    } else if d == 5 {
        '5'
    } else if d == 6 {
        '6'
    } else if d == 7 {
        '7'
    } else if d == 8 {
        '8'
    } else {
        '9'
    }
}

pub open spec fn hex_char(d: int) -> char {
    if d < 10 {
        digit_char(d)
    } else if d == 10 {
        'a'
    } else if d == 11 {
        'b'
    } else if d == 12 {
        'c'
    } else if d == 13 {
        'd'
    } else if d == 14 {
        'e'
    } else {
        'f'
    }
}

/// Decimal digits of a natural number, most significant first.
pub open spec fn nat_text(n: nat) -> Seq<char>
    decreases n,
{
    if n < 10 {
        seq![digit_char(n as int)]
    } else {
        nat_text(n / 10).push(digit_char((n % 10) as int))
    }
}

/// Decimal text of an integer, with a leading `-` when negative.
pub open spec fn int_text(i: int) -> Seq<char> {
    if i < 0 {
        seq!['-'] + nat_text((-i) as nat)
    } else {
        nat_text(i as nat)
    }
}

/// Integers print plainly; a decimal prints as `mantissa e exponent`, which
/// always reads back as a float.
pub open spec fn number_text(n: Number) -> Seq<char> {
    match n {
        Number::Int(i) => int_text(i as int),
        Number::Float { negative, mantissa, exponent } => (if negative {
            seq!['-']
        } else {
            Seq::empty()
        }) + nat_text(mantissa as nat) + seq!['e'] + int_text(exponent as int),
    }
}

/// A character that needs the `\u00XX` form inside a quoted string.
pub open spec fn is_control(c: char) -> bool {
    (c as u32) < 0x20 || (c as u32) == 0x7f
}

pub open spec fn escape_char(c: char) -> Seq<char> {
    if c == '"' {
        seq!['\\', '"']
    } else if c == '\\' {
        seq!['\\', '\\']
    } else if c == '\n' {
        seq!['\\', 'n']
    } else if c == '\r' {
        seq!['\\', 'r']
    } else if c == '\t' {
        seq!['\\', 't']
    } else if is_control(c) {
        seq!['\\', 'u', '0', '0', hex_char((c as u32 / 16) as int), hex_char((c as u32 % 16) as int)]
    } else {
        seq![c]
    }
}

pub open spec fn escape(s: Seq<char>) -> Seq<char>
    decreases s.len(),
{
    if s.len() == 0 {
        Seq::empty()
    } else {
        escape(s.drop_last()) + escape_char(s.last())
    }
}

pub open spec fn quoted(s: Seq<char>) -> Seq<char> {
    seq!['"'] + escape(s) + seq!['"']
}

/// Characters that a key may hold and still be written without quotes.
pub open spec fn is_bare_char(c: char) -> bool {
    ('a' <= c && c <= 'z') || ('A' <= c && c <= 'Z') || ('0' <= c && c <= '9') || c == '_' || c
        == '-' || c == '.'
}

pub open spec fn is_bare(k: Seq<char>) -> bool {
    k.len() > 0 && forall|i: int| 0 <= i < k.len() ==> is_bare_char(#[trigger] k[i])
}

/// Keys are written bare where they can be, quoted otherwise.
pub open spec fn key_text(k: Seq<char>) -> Seq<char> {
    if is_bare(k) {
        k
    } else {
        quoted(k)
    }
}

pub open spec fn scalar_text(t: Tree) -> Seq<char> {
    match t {
        Tree::Null => seq!['n', 'u', 'l', 'l'],
        Tree::Bool(b) => if b {
            seq!['t', 'r', 'u', 'e']
        } else {
            seq!['f', 'a', 'l', 's', 'e']
        },
        Tree::Number(n) => number_text(n),
        Tree::Str(s) => quoted(s),
        _ => Seq::empty(),
    }
}

/// Compact mode: one line, array elements separated by a space, object pairs
/// by a comma, `key=value`.
pub open spec fn compact(t: Tree) -> Seq<char>
    decreases t,
{
    match t {
        Tree::Array(a) => seq!['['] + compact_elems(a) + seq![']'],
        Tree::Object(m) => seq!['{'] + compact_members(m) + seq!['}'],
        _ => scalar_text(t),
    }
}

pub open spec fn compact_elems(a: Seq<Tree>) -> Seq<char>
    decreases a,
{
    if a.len() == 0 {
        Seq::empty()
    } else if a.len() == 1 {
        compact(a[0])
    } else {
        compact_elems(a.drop_last()) + seq![' '] + compact(a.last())
    }
}

pub open spec fn compact_members(m: Seq<(Seq<char>, Tree)>) -> Seq<char>
    decreases m,
{
    if m.len() == 0 {
        Seq::empty()
    } else if m.len() == 1 {
        key_text(m[0].0) + seq!['='] + compact(m[0].1)
    } else {
        compact_members(m.drop_last()) + seq![','] + key_text(m.last().0) + seq!['='] + compact(
            m.last().1,
        )
    }
}

/// Pretty mode: each element or `key = value` pair on a line of its own,
/// indented two spaces deeper than the brackets round it, no separators.
/// `ind` is the indentation of the line that the closing bracket stands on.
pub open spec fn pretty(t: Tree, ind: Seq<char>) -> Seq<char>
    decreases t,
{
    match t {
        Tree::Array(a) => if a.len() == 0 {
            seq!['[', ']']
        } else {
            seq!['['] + pretty_elems(a, ind) + seq!['\n'] + ind + seq![']']
        },
        Tree::Object(m) => if m.len() == 0 {
            seq!['{', '}']
        } else {
            seq!['{'] + pretty_members(m, ind) + seq!['\n'] + ind + seq!['}']
        },
        _ => scalar_text(t),
    }
}

pub open spec fn pretty_elems(a: Seq<Tree>, ind: Seq<char>) -> Seq<char>
    decreases a,
{
    if a.len() == 0 {
        Seq::empty()
    } else {
        pretty_elems(a.drop_last(), ind) + seq!['\n'] + ind + seq![' ', ' '] + pretty(
            a.last(),
            ind + seq![' ', ' '],
        )
    }
}

pub open spec fn pretty_members(m: Seq<(Seq<char>, Tree)>, ind: Seq<char>) -> Seq<char>
    decreases m,
{
    if m.len() == 0 {
        Seq::empty()
    } else {
        pretty_members(m.drop_last(), ind) + seq!['\n'] + ind + seq![' ', ' '] + key_text(m.last().0)
            + seq![' ', '=', ' '] + pretty(m.last().1, ind + seq![' ', ' '])
    }
}

} // verus!
