//! The writer: renders a [`Value`] in compact or pretty mode.
use crate::error::{Error, ErrorCode};
use crate::text::{
    compact, compact_elems, compact_members, digit_char, escape, escape_char, hex_char,
    int_text, is_bare, is_bare_char, key_text, nat_text, number_text, pretty, pretty_elems,
    pretty_members, quoted, scalar_text,
};
use crate::value::{lemma_view_parts, Number, Tree, Value};
use vstd::prelude::*;
use vstd::string::StrSliceExecFns;
use vstd::utf8::encode_utf8;

verus! {

/// Relies on `str::chars` collected into a `Vec`: the characters of the
/// string, in order.
#[verifier::external_body]
pub(crate) fn chars_of(s: &str) -> (r: Vec<char>)
    ensures
        r@ == s@,
{
    s.chars().collect()
}

/// Relies on `String`'s `FromIterator<&char>`: the string of those characters,
/// in order.
#[verifier::external_body]
pub(crate) fn string_of(cs: &Vec<char>) -> (r: String)
    ensures
        r@ == cs@,
{
    cs.iter().collect()
}

pub(crate) fn push_chars(out: &mut Vec<char>, s: &Vec<char>)
    ensures
        final(out)@ == old(out)@ + s@,
{
    let mut i: usize = 0;
    while i < s.len()
        invariant
            i <= s.len(),
            out@ == old(out)@ + s@.subrange(0, i as int),
        decreases s.len() - i,
    {
        out.push(s[i]);
        i = i + 1;
        assert(out@ =~= old(out)@ + s@.subrange(0, i as int));
    }
    assert(s@.subrange(0, s.len() as int) =~= s@);
}

pub(crate) fn push_str(out: &mut Vec<char>, s: &str)
    ensures
        final(out)@ == old(out)@ + s@,
{
    let cs = chars_of(s);
    push_chars(out, &cs);
}

pub(crate) fn digit(d: u64) -> (c: char)
    requires
        d < 10,
    ensures
        c == digit_char(d as int),
{
    match d {
        0 => '0',
        1 => '1',
        2 => '2',
        3 => '3',
        4 => '4',
        5 => '5',
        6 => '6',
        7 => '7',
        8 => '8',
        _ => '9',
    }
}

fn hex_digit(d: u32) -> (c: char)
    requires
        d < 16,
    ensures
        c == hex_char(d as int),
{
    if d < 10 {
        digit(d as u64)
    } else {
        match d {
            10 => 'a',
            11 => 'b',
            12 => 'c',
            13 => 'd',
            14 => 'e',
            _ => 'f',
        }
    }
}

pub(crate) fn push_nat(out: &mut Vec<char>, n: u64)
    ensures
        final(out)@ == old(out)@ + nat_text(n as nat),
    decreases n,
{
    if n < 10 {
        out.push(digit(n));
        assert(out@ =~= old(out)@ + nat_text(n as nat));
    } else {
        push_nat(out, n / 10);
        out.push(digit(n % 10));
        assert(out@ =~= old(out)@ + nat_text(n as nat));
    }
}

fn push_int(out: &mut Vec<char>, i: i64)
    ensures
        final(out)@ == old(out)@ + int_text(i as int),
{
    if i < 0 {
        out.push('-');
        let m: u64 = (0 - (i as i128)) as u64;
        push_nat(out, m);
        assert(out@ =~= old(out)@ + int_text(i as int));
    } else {
        push_nat(out, i as u64);
    }
}

fn push_number(out: &mut Vec<char>, n: Number)
    ensures
        final(out)@ == old(out)@ + number_text(n),
{
    match n {
        Number::Int(i) => push_int(out, i),
        Number::Float { negative, mantissa, exponent } => {
            if negative {
                out.push('-');
            }
            push_nat(out, mantissa);
            out.push('e');
            push_int(out, exponent as i64);
            assert(out@ =~= old(out)@ + number_text(n));
        },
    }
}

fn push_escaped_char(out: &mut Vec<char>, c: char)
    ensures
        final(out)@ == old(out)@ + escape_char(c),
{
    let u: u32 = c as u32;
    if c == '"' {
        out.push('\\');
        out.push('"');
    } else if c == '\\' {
        out.push('\\');
        out.push('\\');
    } else if c == '\n' {
        out.push('\\');
        out.push('n');
    } else if c == '\r' {
        out.push('\\');
        out.push('r');
    } else if c == '\t' {
        out.push('\\');
        out.push('t');
    } else if u < 0x20 || u == 0x7f {
        out.push('\\');
        out.push('u');
        out.push('0');
        out.push('0');
        out.push(hex_digit(u / 16));
        out.push(hex_digit(u % 16));
    } else {
        out.push(c);
    }
    assert(out@ =~= old(out)@ + escape_char(c));
}

fn push_quoted(out: &mut Vec<char>, s: &str)
    ensures
        final(out)@ == old(out)@ + quoted(s@),
{
    let cs = chars_of(s);
    out.push('"');
    let ghost start = out@;
    let mut i: usize = 0;
    while i < cs.len()
        invariant
            i <= cs.len(),
            cs@ == s@,
            out@ == start + escape(cs@.subrange(0, i as int)),
        decreases cs.len() - i,
    {
        push_escaped_char(out, cs[i]);
        assert(cs@.subrange(0, i + 1).drop_last() =~= cs@.subrange(0, i as int));
        i = i + 1;
        assert(out@ =~= start + escape(cs@.subrange(0, i as int)));
    }
    assert(cs@.subrange(0, cs.len() as int) =~= s@);
    out.push('"');
    assert(out@ =~= old(out)@ + quoted(s@));
}

fn is_bare_char_exec(c: char) -> (r: bool)
    ensures
        r == is_bare_char(c),
{
    ('a' <= c && c <= 'z') || ('A' <= c && c <= 'Z') || ('0' <= c && c <= '9') || c == '_' || c
        == '-' || c == '.'
}

fn is_bare_key(k: &str) -> (r: bool)
    ensures
        r == is_bare(k@),
{
    let cs = chars_of(k);
    if cs.len() == 0 {
        return false;
    }
    let mut i: usize = 0;
    while i < cs.len()
        invariant
            i <= cs.len(),
            cs@ == k@,
            forall|j: int| 0 <= j < i ==> is_bare_char(#[trigger] cs@[j]),
        decreases cs.len() - i,
    {
        if !is_bare_char_exec(cs[i]) {
            return false;
        }
        i = i + 1;
    }
    true
}

fn push_key(out: &mut Vec<char>, k: &str)
    ensures
        final(out)@ == old(out)@ + key_text(k@),
{
    if is_bare_key(k) {
        push_str(out, k);
    } else {
        push_quoted(out, k);
    }
}

fn push_scalar(out: &mut Vec<char>, v: &Value)
    requires
        !(v is Array),
        !(v is Object),
    ensures
        final(out)@ == old(out)@ + scalar_text(v@),
{
    match v {
        Value::Null => push_str(out, "null"),
        Value::Bool(b) => if *b {
            push_str(out, "true")
        } else {
            push_str(out, "false")
        },
        Value::Number(n) => push_number(out, *n),
        Value::String(s) => push_quoted(out, s.as_str()),
        _ => {},
    }
    proof {
        reveal_strlit("null");
        reveal_strlit("true");
        reveal_strlit("false");
    }
    assert(out@ =~= old(out)@ + scalar_text(v@));
}

/// Appends the compact text of `v`.
pub fn write_compact(out: &mut Vec<char>, v: &Value)
    ensures
        final(out)@ == old(out)@ + compact(v@),
    decreases v,
{
    match v {
        Value::Array(a) => {
            let ghost ts = v@->Array_0;
            proof {
                lemma_view_parts(*v);
            }
            out.push('[');
            let ghost start = out@;
            let mut i: usize = 0;
            while i < a.len()
                invariant
                    i <= a.len(),
                    v@ == Tree::Array(ts),
                    *v == Value::Array(*a),
                    ts.len() == a.len(),
                    forall|j: int| 0 <= j < a.len() ==> ts[j] == (#[trigger] a[j])@,
                    out@ == start + compact_elems(ts.subrange(0, i as int)),
                decreases a.len() - i,
            {
                if i > 0 {
                    out.push(' ');
                }
                write_compact(out, &a[i]);
                assert(ts.subrange(0, i + 1).drop_last() =~= ts.subrange(0, i as int));
                i = i + 1;
                assert(out@ =~= start + compact_elems(ts.subrange(0, i as int)));
            }
            assert(ts.subrange(0, a.len() as int) =~= ts);
            out.push(']');
            assert(out@ =~= old(out)@ + compact(v@));
        },
        Value::Object(m) => {
            let ghost ts = v@->Object_0;
            proof {
                lemma_view_parts(*v);
            }
            out.push('{');
            let ghost start = out@;
            let mut i: usize = 0;
            while i < m.len()
                invariant
                    i <= m.len(),
                    v@ == Tree::Object(ts),
                    *v == Value::Object(*m),
                    ts.len() == m.len(),
                    forall|j: int|
                        0 <= j < m.len() ==> ts[j] == ((#[trigger] m[j]).0@, m[j].1@),
                    out@ == start + compact_members(ts.subrange(0, i as int)),
                decreases m.len() - i,
            {
                if i > 0 {
                    out.push(',');
                }
                push_key(out, m[i].0.as_str());
                out.push('=');
                write_compact(out, &m[i].1);
                assert(ts.subrange(0, i + 1).drop_last() =~= ts.subrange(0, i as int));
                i = i + 1;
                assert(out@ =~= start + compact_members(ts.subrange(0, i as int)));
            }
            assert(ts.subrange(0, m.len() as int) =~= ts);
            out.push('}');
            assert(out@ =~= old(out)@ + compact(v@));
        },
        _ => push_scalar(out, v),
    }
}

fn deeper(ind: &Vec<char>) -> (r: Vec<char>)
    ensures
        r@ == ind@ + seq![' ', ' '],
{
    let mut r: Vec<char> = Vec::new();
    push_chars(&mut r, ind);
    r.push(' ');
    r.push(' ');
    assert(r@ =~= ind@ + seq![' ', ' ']);
    r
}

/// Appends the pretty text of `v`, whose closing bracket stands after `ind`.
pub fn write_pretty(out: &mut Vec<char>, v: &Value, ind: &Vec<char>)
    ensures
        final(out)@ == old(out)@ + pretty(v@, ind@),
    decreases v,
{
    match v {
        Value::Array(a) => {
            let ghost ts = v@->Array_0;
            proof {
                lemma_view_parts(*v);
            }
            out.push('[');
            let ghost start = out@;
            let inner = deeper(ind);
            let mut i: usize = 0;
            while i < a.len()
                invariant
                    i <= a.len(),
                    inner@ == ind@ + seq![' ', ' '],
                    v@ == Tree::Array(ts),
                    *v == Value::Array(*a),
                    ts.len() == a.len(),
                    forall|j: int| 0 <= j < a.len() ==> ts[j] == (#[trigger] a[j])@,
                    out@ == start + pretty_elems(ts.subrange(0, i as int), ind@),
                decreases a.len() - i,
            {
                out.push('\n');
                push_chars(out, &inner);
                write_pretty(out, &a[i], &inner);
                assert(ts.subrange(0, i + 1).drop_last() =~= ts.subrange(0, i as int));
                i = i + 1;
                assert(out@ =~= start + pretty_elems(ts.subrange(0, i as int), ind@));
            }
            assert(ts.subrange(0, a.len() as int) =~= ts);
            if a.len() == 0 {
                out.push(']');
            } else {
                out.push('\n');
                push_chars(out, ind);
                out.push(']');
            }
            assert(out@ =~= old(out)@ + pretty(v@, ind@));
        },
        Value::Object(m) => {
            let ghost ts = v@->Object_0;
            proof {
                lemma_view_parts(*v);
            }
            out.push('{');
            let ghost start = out@;
            let inner = deeper(ind);
            let mut i: usize = 0;
            while i < m.len()
                invariant
                    i <= m.len(),
                    inner@ == ind@ + seq![' ', ' '],
                    v@ == Tree::Object(ts),
                    *v == Value::Object(*m),
                    ts.len() == m.len(),
                    forall|j: int|
                        0 <= j < m.len() ==> ts[j] == ((#[trigger] m[j]).0@, m[j].1@),
                    out@ == start + pretty_members(ts.subrange(0, i as int), ind@),
                decreases m.len() - i,
            {
                out.push('\n');
                push_chars(out, &inner);
                push_key(out, m[i].0.as_str());
                push_str(out, " = ");
                write_pretty(out, &m[i].1, &inner);
                proof {
                    reveal_strlit(" = ");
                }
                assert(ts.subrange(0, i + 1).drop_last() =~= ts.subrange(0, i as int));
                i = i + 1;
                assert(out@ =~= start + pretty_members(ts.subrange(0, i as int), ind@));
            }
            assert(ts.subrange(0, m.len() as int) =~= ts);
            if m.len() == 0 {
                out.push('}');
            } else {
                out.push('\n');
                push_chars(out, ind);
                out.push('}');
            }
            assert(out@ =~= old(out)@ + pretty(v@, ind@));
        },
        _ => push_scalar(out, v),
    }
}

/// Renders `v` in compact mode. A value of the model always renders.
pub fn to_string(v: &Value) -> (r: Result<String, Error>)
    ensures
        r matches Ok(s) && s@ == compact(v@),
{
    let mut out: Vec<char> = Vec::new();
    write_compact(&mut out, v);
    Ok(string_of(&out))
}

/// Renders `v` in pretty mode. A value of the model always renders.
pub fn to_string_pretty(v: &Value) -> (r: Result<String, Error>)
    ensures
        r matches Ok(s) && s@ == pretty(v@, Seq::empty()),
{
    let mut out: Vec<char> = Vec::new();
    let ind: Vec<char> = Vec::new();
    write_pretty(&mut out, v, &ind);
    Ok(string_of(&out))
}

/// Renders `v` in compact mode, as UTF-8 bytes.
pub fn to_vec(v: &Value) -> (r: Result<Vec<u8>, Error>)
    ensures
        r matches Ok(b) && b@ == encode_utf8(compact(v@)),
{
    let mut out: Vec<char> = Vec::new();
    write_compact(&mut out, v);
    let text = string_of(&out);
    Ok(text.as_str().as_bytes_vec())
}

/// Renders `v` in pretty mode, as UTF-8 bytes.
pub fn to_vec_pretty(v: &Value) -> (r: Result<Vec<u8>, Error>)
    ensures
        r matches Ok(b) && b@ == encode_utf8(pretty(v@, Seq::empty())),
{
    let mut out: Vec<char> = Vec::new();
    let ind: Vec<char> = Vec::new();
    write_pretty(&mut out, v, &ind);
    let text = string_of(&out);
    Ok(text.as_str().as_bytes_vec())
}

/// The text a map key stands for: a string as it is, an integer or a boolean
/// as it is written; any other value is no key.
pub open spec fn key_of(k: Tree) -> Option<Seq<char>> {
    match k {
        Tree::Str(s) => Some(s),
        Tree::Number(Number::Int(i)) => Some(int_text(i as int)),
        Tree::Bool(b) => Some(scalar_text(Tree::Bool(b))),
        _ => None,
    }
}

/// The object that a mapping with value keys stands for, where every key has
/// a text.
pub open spec fn keyed_object(e: Seq<(Value, Value)>) -> Tree {
    Tree::Object(
        Seq::new(
            e.len(),
            |j: int|
                if 0 <= j < e.len() {
                    (key_of(e[j].0@)->0, e[j].1@)
                } else {
                    (Seq::empty(), Tree::Null)
                },
        ),
    )
}

/// The text of a map key, or `KeyMustBeAString` where the key has none.
pub fn map_key(k: &Value) -> (r: Result<String, Error>)
    ensures
        match key_of(k@) {
            Some(t) => r matches Ok(x) && x@ == t,
            None => r matches Err(e) && e.code == ErrorCode::KeyMustBeAString && e.line == 0,
        },
{
    let mut out: Vec<char> = Vec::new();
    match k {
        Value::String(s) => {
            return Ok(s.clone());
        },
        Value::Number(Number::Int(i)) => push_int(&mut out, *i),
        Value::Bool(_) => push_scalar(&mut out, k),
        _ => {
            return Err(Error::syntax(ErrorCode::KeyMustBeAString, 0, 0));
        },
    }
    assert(out@ =~= key_of(k@)->0);
    Ok(string_of(&out))
}

/// Renders a mapping whose keys are values, in compact mode. Where a key has
/// no text the whole call fails with `KeyMustBeAString` and nothing is
/// rendered.
pub fn to_string_map(entries: &Vec<(Value, Value)>) -> (r: Result<String, Error>)
    ensures
        (forall|j: int| 0 <= j < entries@.len() ==> (#[trigger] key_of(entries@[j].0@)) is Some)
            ==> (r matches Ok(s) && s@ == compact(keyed_object(entries@))),
        (exists|j: int| 0 <= j < entries@.len() && (#[trigger] key_of(entries@[j].0@)) is None)
            ==> (r matches Err(e) && e.code == ErrorCode::KeyMustBeAString),
{
    let mut keys: Vec<String> = Vec::new();
    let mut i: usize = 0;
    while i < entries.len()
        invariant
            i <= entries.len(),
            keys@.len() == i,
            forall|j: int| 0 <= j < i ==> (#[trigger] key_of(entries@[j].0@)) == Some(keys@[j]@),
        decreases entries.len() - i,
    {
        match map_key(&entries[i].0) {
            Ok(k) => keys.push(k),
            Err(e) => {
                return Err(e);
            },
        }
        i = i + 1;
    }
    let ghost ts = keyed_object(entries@)->Object_0;
    let mut out: Vec<char> = Vec::new();
    out.push('{');
    let ghost start = out@;
    let mut i: usize = 0;
    while i < entries.len()
        invariant
            i <= entries.len(),
            keys@.len() == entries.len(),
            ts.len() == entries.len(),
            ts == keyed_object(entries@)->Object_0,
            forall|j: int| 0 <= j < entries.len() ==> (#[trigger] key_of(entries@[j].0@)) == Some(keys@[j]@),
            out@ == start + compact_members(ts.subrange(0, i as int)),
        decreases entries.len() - i,
    {
        assert(ts[i as int] == (keys@[i as int]@, entries@[i as int].1@));
        if i > 0 {
            out.push(',');
        }
        push_key(&mut out, keys[i].as_str());
        out.push('=');
        write_compact(&mut out, &entries[i].1);
        assert(ts.subrange(0, i + 1).drop_last() =~= ts.subrange(0, i as int));
        i = i + 1;
        assert(out@ =~= start + compact_members(ts.subrange(0, i as int)));
    }
    assert(ts.subrange(0, entries.len() as int) =~= ts);
    out.push('}');
    assert(out@ =~= compact(keyed_object(entries@)));
    Ok(string_of(&out))
}

} // verus!
