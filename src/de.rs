//! The reader: one grammar for both rendering modes. Commas between elements
//! and pairs are optional, `=` and `:` both separate a key from its value,
//! keys may be quoted or bare, and whitespace between tokens is ignored.
use crate::error::{Error, ErrorCode};
use crate::text::is_bare_char;
use crate::ser::{chars_of, string_of};
use crate::value::{keys_unique, lemma_view_parts, number_wf, tree_wf, Number, Tree, Value, MAX_SAFE_INT};
use vstd::prelude::*;

verus! {

/// What a parse of part of the input gives: a result and the position after
/// it, or an error code and the position it was found at.
pub type Step<T> = Result<(T, int), (ErrorCode, int)>;

pub open spec fn is_ws(c: char) -> bool {
    c == ' ' || c == '\n' || c == '\r' || c == '\t'
}

pub open spec fn is_digit(c: char) -> bool {
    '0' <= c && c <= '9'
}

pub open spec fn digit_val(c: char) -> int {
    (c as u32) as int - 48
}

/// The first position at or after `i` that holds no whitespace.
pub open spec fn skip_ws(s: Seq<char>, i: int) -> int
    decreases s.len() - i,
{
    if 0 <= i < s.len() && is_ws(s[i]) {
        skip_ws(s, i + 1)
    } else {
        i
    }
}

/// The first position at or after `i` that holds neither whitespace nor a comma.
pub open spec fn skip_seps(s: Seq<char>, i: int) -> int
    decreases s.len() - i,
{
    if 0 <= i < s.len() && (is_ws(s[i]) || s[i] == ',') {
        skip_seps(s, i + 1)
    } else {
        i
    }
}

/// The end of the run of digits that starts at `i`.
pub open spec fn digits_end(s: Seq<char>, i: int) -> int
    decreases s.len() - i,
{
    if 0 <= i < s.len() && is_digit(s[i]) {
        digits_end(s, i + 1)
    } else {
        i
    }
}

/// The end of the run of bare-key characters that starts at `i`.
pub open spec fn bare_end(s: Seq<char>, i: int) -> int
    decreases s.len() - i,
{
    if 0 <= i < s.len() && is_bare_char(s[i]) {
        bare_end(s, i + 1)
    } else {
        i
    }
}

/// The value of the decimal digits `s[a..b]`.
pub open spec fn digits_value(s: Seq<char>, a: int, b: int) -> int
    decreases b - a,
{
    if b <= a {
        0
    } else {
        digits_value(s, a, b - 1) * 10 + digit_val(s[b - 1])
    }
}

pub open spec fn pow10(n: nat) -> int
    decreases n,
{
    if n == 0 {
        1
    } else {
        10 * pow10((n - 1) as nat)
    }
}

pub open spec fn hex_val(c: char) -> int {
    if '0' <= c && c <= '9' {
        (c as u32) as int - 48
    } else if 'a' <= c && c <= 'f' {
        (c as u32) as int - 87
    } else if 'A' <= c && c <= 'F' {
        (c as u32) as int - 55
    } else {
        -1
    }
}

/// The code of the four hex digits at `i`, or -1 when one is no hex digit.
pub open spec fn hex4(s: Seq<char>, i: int) -> int {
    let (a, b, c, d) = (hex_val(s[i]), hex_val(s[i + 1]), hex_val(s[i + 2]), hex_val(s[i + 3]));
    if a < 0 || b < 0 || c < 0 || d < 0 {
        -1
    } else {
        ((a * 16 + b) * 16 + c) * 16 + d
    }
}

pub open spec fn is_scalar_code(u: int) -> bool {
    (0 <= u < 0xD800) || (0xE000 <= u <= 0x10FFFF)
}

/// The character that a one-letter escape stands for.
pub open spec fn simple_escape(e: char) -> Option<char> {
    if e == '"' {
        Some('"')
    } else if e == '\\' {
        Some('\\')
    } else if e == '/' {
        Some('/')
    } else if e == 'n' {
        Some('\n')
    } else if e == 'r' {
        Some('\r')
    } else if e == 't' {
        Some('\t')
    } else if e == 'b' {
        Some('\u{8}')
    } else if e == 'f' {
        Some('\u{c}')
    } else {
        None
    }
}

/// The rest of a quoted string whose characters so far are `acc`; `i` is just
/// past the opening quote or the last character read.
pub open spec fn parse_string(s: Seq<char>, i: int, acc: Seq<char>) -> Step<Seq<char>>
    decreases s.len() - i,
{
    if i < 0 || i >= s.len() {
        Err((ErrorCode::UnterminatedString, i))
    } else if s[i] == '"' {
        Ok((acc, i + 1))
    } else if s[i] == '\\' {
        if i + 1 >= s.len() {
            Err((ErrorCode::UnterminatedString, i + 1))
        } else if s[i + 1] == 'u' {
            if i + 6 > s.len() || !is_scalar_code(hex4(s, i + 2)) {
                Err((ErrorCode::InvalidEscape, i))
            } else {
                parse_string(s, i + 6, acc.push((hex4(s, i + 2) as u32) as char))
            }
        } else {
            match simple_escape(s[i + 1]) {
                Some(c) => parse_string(s, i + 2, acc.push(c)),
                None => Err((ErrorCode::InvalidEscape, i)),
            }
        }
    } else {
        parse_string(s, i + 1, acc.push(s[i]))
    }
}

/// Where the exponent part of a number that ends its fraction at `d` ends,
/// its sign, and the range of its digits; `None` when it has no digits.
pub open spec fn exponent_part(s: Seq<char>, d: int) -> Option<(int, bool, int, int)> {
    if d < s.len() && (s[d] == 'e' || s[d] == 'E') {
        let f = if d + 1 < s.len() && (s[d + 1] == '-' || s[d + 1] == '+') {
            d + 2
        } else {
            d + 1
        };
        let neg = d + 1 < s.len() && s[d + 1] == '-';
        let g = digits_end(s, f);
        if g == f {
            None
        } else {
            Some((g, neg, f, g))
        }
    } else {
        Some((d, false, d, d))
    }
}

/// A number literal at `i`: an optional `-`, digits, an optional fraction and
/// an optional exponent. Without fraction and exponent it is an integer, unless
/// its magnitude is past what a double holds exactly.
pub open spec fn parse_number(s: Seq<char>, i: int) -> Step<Number> {
    let neg = s[i] == '-';
    let a = if neg {
        i + 1
    } else {
        i
    };
    let b = digits_end(s, a);
    let has_dot = b < s.len() && s[b] == '.';
    let c = if has_dot {
        b + 1
    } else {
        b
    };
    let d = digits_end(s, c);
    if b == a {
        Err((ErrorCode::InvalidNumber, a))
    } else if has_dot && d == c {
        Err((ErrorCode::InvalidNumber, c))
    } else {
        match exponent_part(s, d) {
            None => Err((ErrorCode::InvalidNumber, d)),
            Some((z, eneg, f, g)) => if z < s.len() && is_bare_char(s[z]) {
                Err((ErrorCode::InvalidNumber, z))
            } else {
                number_from_parts(s, i, neg, a, b, c, d, eneg, f, g, z, has_dot)
            },
        }
    }
}

/// The number that the digits `s[a..b]`, the fraction digits `s[c..d]` and
/// the exponent digits `s[f..g]` stand for, the literal starting at `i`.
pub open spec fn number_from_parts(
    s: Seq<char>,
    i: int,
    neg: bool,
    a: int,
    b: int,
    c: int,
    d: int,
    eneg: bool,
    f: int,
    g: int,
    z: int,
    has_dot: bool,
) -> Step<Number> {
    let m = digits_value(s, a, b) * pow10((d - c) as nat) + digits_value(s, c, d);
    let x = digits_value(s, f, g);
    let e = (if eneg {
        -x
    } else {
        x
    }) - (d - c);
    if !has_dot && g == f {
        if m <= MAX_SAFE_INT {
            Ok(
                (
                    Number::Int(
                        (if neg {
                            -m
                        } else {
                            m
                        }) as i64,
                    ),
                    z,
                ),
            )
        } else if m <= u64::MAX {
            Ok((Number::Float { negative: neg, mantissa: m as u64, exponent: 0 }, z))
        } else {
            Err((ErrorCode::NumberOutOfRange, i))
        }
    } else if m > u64::MAX || x > 0x8000_0000 || e < i32::MIN || e > i32::MAX {
        Err((ErrorCode::NumberOutOfRange, i))
    } else {
        Ok((Number::Float { negative: neg, mantissa: m as u64, exponent: e as i32 }, z))
    }
}

/// The first position in `m` from `i` on that holds key `k`, or -1.
pub open spec fn key_pos(m: Seq<(Seq<char>, Tree)>, k: Seq<char>, i: int) -> int
    decreases m.len() - i,
{
    if i < 0 || i >= m.len() {
        -1
    } else if m[i].0 == k {
        i
    } else {
        key_pos(m, k, i + 1)
    }
}

/// A pair added to an object: a key that is there already gets the new value
/// in its place, a new key goes last.
pub open spec fn insert_pair(m: Seq<(Seq<char>, Tree)>, k: Seq<char>, v: Tree) -> Seq<
    (Seq<char>, Tree),
> {
    let p = key_pos(m, k, 0);
    if p >= 0 {
        m.update(p, (k, v))
    } else {
        m.push((k, v))
    }
}

/// One value whose text starts at `i`, after optional whitespace.
pub open spec fn parse_value(s: Seq<char>, i: int) -> Step<Tree>
    decreases s.len() - i, 0int,
{
    let j = skip_ws(s, i);
    if j < i || j >= s.len() {
        Err((ErrorCode::EofWhileParsing, j))
    } else if s[j] == '{' {
        parse_members(s, j + 1, Seq::empty())
    } else if s[j] == '[' {
        parse_elems(s, j + 1, Seq::empty())
    } else if s[j] == '"' {
        match parse_string(s, j + 1, Seq::empty()) {
            Ok((t, k)) => Ok((Tree::Str(t), k)),
            Err(e) => Err(e),
        }
    } else if s[j] == '-' || is_digit(s[j]) {
        match parse_number(s, j) {
            Ok((n, k)) => Ok((Tree::Number(n), k)),
            Err(e) => Err(e),
        }
    } else if is_bare_char(s[j]) {
        let k = bare_end(s, j);
        let t = s.subrange(j, k);
        if t == seq!['t', 'r', 'u', 'e'] {
            Ok((Tree::Bool(true), k))
        } else if t == seq!['f', 'a', 'l', 's', 'e'] {
            Ok((Tree::Bool(false), k))
        } else if t == seq!['n', 'u', 'l', 'l'] {
            Ok((Tree::Null, k))
        } else {
            Ok((Tree::Str(t), k))
        }
    } else {
        Err((ErrorCode::UnexpectedToken, j))
    }
}

/// The rest of an array whose elements so far are `acc`.
pub open spec fn parse_elems(s: Seq<char>, i: int, acc: Seq<Tree>) -> Step<Tree>
    decreases s.len() - i, 1int,
{
    let j = skip_seps(s, i);
    if j < i || j >= s.len() {
        Err((ErrorCode::EofWhileParsing, j))
    } else if s[j] == ']' {
        Ok((Tree::Array(acc), j + 1))
    } else {
        match parse_value(s, j) {
            Err(e) => Err(e),
            Ok((t, k)) => if k <= j || k > s.len() {
                Err((ErrorCode::UnexpectedToken, j))
            } else {
                parse_elems(s, k, acc.push(t))
            },
        }
    }
}

/// A key at `j`: quoted, or a run of bare-key characters.
pub open spec fn parse_key(s: Seq<char>, j: int) -> Step<Seq<char>> {
    if s[j] == '"' {
        parse_string(s, j + 1, Seq::empty())
    } else if is_bare_char(s[j]) {
        Ok((s.subrange(j, bare_end(s, j)), bare_end(s, j)))
    } else {
        Err((ErrorCode::UnexpectedToken, j))
    }
}

/// The rest of an object whose pairs so far are `acc`.
pub open spec fn parse_members(s: Seq<char>, i: int, acc: Seq<(Seq<char>, Tree)>) -> Step<Tree>
    decreases s.len() - i, 1int,
{
    let j = skip_seps(s, i);
    if j < i || j >= s.len() {
        Err((ErrorCode::EofWhileParsing, j))
    } else if s[j] == '}' {
        Ok((Tree::Object(acc), j + 1))
    } else {
        match parse_key(s, j) {
            Err(e) => Err(e),
            Ok((k, p)) => {
                let q = skip_ws(s, p);
                if q <= j || q >= s.len() {
                    Err((ErrorCode::EofWhileParsing, q))
                } else if s[q] != '=' && s[q] != ':' {
                    Err((ErrorCode::UnexpectedToken, q))
                } else {
                    match parse_value(s, q + 1) {
                        Err(e) => Err(e),
                        Ok((v, r)) => if r <= q || r > s.len() {
                            Err((ErrorCode::UnexpectedToken, q))
                        } else {
                            parse_members(s, r, insert_pair(acc, k, v))
                        },
                    }
                }
            },
        }
    }
}

/// A whole document: one value, then nothing but whitespace.
pub open spec fn parse_document(s: Seq<char>) -> Result<Tree, (ErrorCode, int)> {
    match parse_value(s, 0) {
        Err(e) => Err(e),
        Ok((t, k)) => if skip_ws(s, k) < s.len() {
            Err((ErrorCode::TrailingCharacters, skip_ws(s, k)))
        } else {
            Ok(t)
        },
    }
}

/// The 1-based line and column of position `p`.
pub open spec fn line_col(s: Seq<char>, p: int) -> (int, int)
    decreases p,
{
    if p <= 0 {
        (1, 1)
    } else {
        let (l, c) = line_col(s, p - 1);
        if p - 1 < s.len() && s[p - 1] == '\n' {
            (l + 1, 1)
        } else {
            (l, c + 1)
        }
    }
}

/// An executable step agrees with its statement: the same position, and the
/// same result by its model, or the same error.
pub open spec fn agrees<T: View>(r: Result<(T, usize), (ErrorCode, usize)>, sp: Step<T::V>) -> bool {
    match sp {
        Ok((t, k)) => r matches Ok((x, k2)) && x@ == t && k2 == k,
        Err((c, p)) => r matches Err((c2, p2)) && c2 == c && p2 == p,
    }
}

/// Relies on `char::from_u32`: a Unicode scalar value gives the character
/// with that code.
#[verifier::external_body]
fn char_from_code(u: u32) -> (r: Option<char>)
    ensures
        is_scalar_code(u as int) ==> r == Some(u as char),
{
    char::from_u32(u)
}

fn skip_ws_exec(s: &Vec<char>, i: usize) -> (r: usize)
    requires
        i <= s.len(),
    ensures
        r == skip_ws(s@, i as int),
        i <= r <= s.len(),
{
    let mut j = i;
    while j < s.len() && (s[j] == ' ' || s[j] == '\n' || s[j] == '\r' || s[j] == '\t')
        invariant
            i <= j <= s.len(),
            skip_ws(s@, j as int) == skip_ws(s@, i as int),
        decreases s.len() - j,
    {
        j = j + 1;
    }
    j
}

fn skip_seps_exec(s: &Vec<char>, i: usize) -> (r: usize)
    requires
        i <= s.len(),
    ensures
        r == skip_seps(s@, i as int),
        i <= r <= s.len(),
{
    let mut j = i;
    while j < s.len() && (s[j] == ' ' || s[j] == '\n' || s[j] == '\r' || s[j] == '\t' || s[j]
        == ',')
        invariant
            i <= j <= s.len(),
            skip_seps(s@, j as int) == skip_seps(s@, i as int),
        decreases s.len() - j,
    {
        j = j + 1;
    }
    j
}

pub(crate) fn digits_end_exec(s: &Vec<char>, i: usize) -> (r: usize)
    requires
        i <= s.len(),
    ensures
        r == digits_end(s@, i as int),
        i <= r <= s.len(),
        forall|k: int| i <= k < r ==> is_digit(#[trigger] s@[k]),
        r < s.len() ==> !is_digit(s@[r as int]),
{
    let mut j = i;
    while j < s.len() && '0' <= s[j] && s[j] <= '9'
        invariant
            i <= j <= s.len(),
            digits_end(s@, j as int) == digits_end(s@, i as int),
            forall|k: int| i <= k < j ==> is_digit(#[trigger] s@[k]),
        decreases s.len() - j,
    {
        j = j + 1;
    }
    j
}

fn bare_end_exec(s: &Vec<char>, i: usize) -> (r: usize)
    requires
        i <= s.len(),
    ensures
        r == bare_end(s@, i as int),
        i <= r <= s.len(),
{
    let mut j = i;
    while j < s.len() && is_bare_char_exec(s[j])
        invariant
            i <= j <= s.len(),
            bare_end(s@, j as int) == bare_end(s@, i as int),
        decreases s.len() - j,
    {
        j = j + 1;
    }
    j
}

fn is_bare_char_exec(c: char) -> (r: bool)
    ensures
        r == is_bare_char(c),
{
    ('a' <= c && c <= 'z') || ('A' <= c && c <= 'Z') || ('0' <= c && c <= '9') || c == '_' || c
        == '-' || c == '.'
}

fn range_chars(s: &Vec<char>, a: usize, b: usize) -> (r: Vec<char>)
    requires
        a <= b <= s.len(),
    ensures
        r@ == s@.subrange(a as int, b as int),
{
    let mut r: Vec<char> = Vec::new();
    let mut k = a;
    while k < b
        invariant
            a <= k <= b <= s.len(),
            r@ == s@.subrange(a as int, k as int),
        decreases b - k,
    {
        r.push(s[k]);
        k = k + 1;
        assert(r@ =~= s@.subrange(a as int, k as int));
    }
    r
}

proof fn lemma_scale_step(s: Seq<char>, c: int, k: int, base: int)
    requires
        c <= k < s.len(),
    ensures
        base * pow10((k + 1 - c) as nat) + digits_value(s, c, k + 1) == (base * pow10(
            (k - c) as nat,
        ) + digits_value(s, c, k)) * 10 + digit_val(s[k]),
{
    let p = pow10((k - c) as nat);
    assert(pow10((k + 1 - c) as nat) == 10 * p);
    assert(base * (10 * p) == (base * p) * 10) by (nonlinear_arith);
}

/// `base * 10^(d-c)` plus the value of the digits `s[c..d]`, when it is at most
/// `cap`; `None` when it is past `cap`.
pub(crate) fn scale_digits(s: &Vec<char>, c: usize, d: usize, base: u64, cap: u64) -> (r: Option<u64>)
    requires
        c <= d <= s.len(),
        base <= cap,
        forall|k: int| c <= k < d ==> is_digit(#[trigger] s@[k]),
    ensures
        match r {
            Some(v) => v == base * pow10((d - c) as nat) + digits_value(s@, c as int, d as int)
                && v <= cap,
            None => base * pow10((d - c) as nat) + digits_value(s@, c as int, d as int) > cap,
        },
{
    let mut acc: u64 = base;
    let mut over = false;
    let mut k = c;
    let ghost mut val: int = base as int;
    assert(digits_value(s@, c as int, c as int) == 0);
    assert(pow10(0) == 1);
    while k < d
        invariant
            c <= k <= d <= s.len(),
            forall|j: int| c <= j < d ==> is_digit(#[trigger] s@[j]),
            val == base * pow10((k - c) as nat) + digits_value(s@, c as int, k as int),
            val >= 0,
            over ==> val > cap,
            !over ==> acc == val && acc <= cap,
        decreases d - k,
    {
        proof {
            lemma_scale_step(s@, c as int, k as int, base as int);
        }
        assert(is_digit(s@[k as int]));
        let dig: u64 = (s[k] as u32 - 48) as u64;
        proof {
            val = val * 10 + digit_val(s@[k as int]);
        }
        if !over {
            let next: u128 = (acc as u128) * 10 + dig as u128;
            if next > cap as u128 {
                over = true;
            } else {
                acc = next as u64;
            }
        }
        k = k + 1;
    }
    if over {
        None
    } else {
        Some(acc)
    }
}

pub(crate) proof fn lemma_digits_nonneg(s: Seq<char>, a: int, b: int)
    requires
        forall|k: int| a <= k < b ==> is_digit(#[trigger] s[k]),
    ensures
        digits_value(s, a, b) >= 0,
    decreases b - a,
{
    if b > a {
        lemma_digits_nonneg(s, a, b - 1);
    }
}

proof fn lemma_pow10_pos(n: nat)
    ensures
        pow10(n) >= 1,
    decreases n,
{
    if n > 0 {
        lemma_pow10_pos((n - 1) as nat);
    }
}

fn parse_number_exec(s: &Vec<char>, i: usize) -> (r: Result<(Number, usize), (ErrorCode, usize)>)
    requires
        i < s.len(),
    ensures
        match parse_number(s@, i as int) {
            Ok((n, k)) => r == Ok::<(Number, usize), (ErrorCode, usize)>((n, k as usize)) && i < k
                <= s.len(),
            Err((c, p)) => r matches Err((c2, p2)) && c2 == c && p2 == p,
        },
        r matches Err((_, p)) ==> p <= s.len(),
{
    let neg = s[i] == '-';
    let a = if neg {
        i + 1
    } else {
        i
    };
    let b = digits_end_exec(s, a);
    let has_dot = b < s.len() && s[b] == '.';
    let mut c = b;
    let mut d = b;
    if has_dot {
        c = b + 1;
        d = digits_end_exec(s, c);
    } else {
        assert(digits_end(s@, b as int) == b);
    }
    if b == a {
        return Err((ErrorCode::InvalidNumber, a));
    }
    if has_dot && d == c {
        return Err((ErrorCode::InvalidNumber, c));
    }
    let has_exp = d < s.len() && (s[d] == 'e' || s[d] == 'E');
    let mut eneg = false;
    let mut f = d;
    let mut g = d;
    if has_exp {
        f = d + 1;
        if d + 1 < s.len() && (s[d + 1] == '-' || s[d + 1] == '+') {
            f = d + 2;
        }
        eneg = d + 1 < s.len() && s[d + 1] == '-';
        g = digits_end_exec(s, f);
        if g == f {
            return Err((ErrorCode::InvalidNumber, d));
        }
    }
    assert(exponent_part(s@, d as int) == Some((g as int, eneg, f as int, g as int)));
    let z = g;
    if z < s.len() && is_bare_char_exec(s[z]) {
        return Err((ErrorCode::InvalidNumber, z));
    }
    match number_from_parts_exec(s, i, neg, a, b, c, d, eneg, f, g, has_dot) {
        Ok(n) => Ok((n, z)),
        Err(e) => Err((e, i)),
    }
}

fn number_from_parts_exec(
    s: &Vec<char>,
    i: usize,
    neg: bool,
    a: usize,
    b: usize,
    c: usize,
    d: usize,
    eneg: bool,
    f: usize,
    g: usize,
    has_dot: bool,
) -> (r: Result<Number, ErrorCode>)
    requires
        a <= b <= c <= d <= f <= g <= s.len(),
        forall|k: int| a <= k < b ==> is_digit(#[trigger] s@[k]),
        forall|k: int| c <= k < d ==> is_digit(#[trigger] s@[k]),
        forall|k: int| f <= k < g ==> is_digit(#[trigger] s@[k]),
        !has_dot ==> c == d,
    ensures
        match number_from_parts(
            s@,
            i as int,
            neg,
            a as int,
            b as int,
            c as int,
            d as int,
            eneg,
            f as int,
            g as int,
            g as int,
            has_dot,
        ) {
            Ok((n, _)) => r == Ok::<Number, ErrorCode>(n),
            Err((e, p)) => r == Err::<Number, ErrorCode>(e) && p == i,
        },
{
    proof {
        lemma_digits_nonneg(s@, a as int, b as int);
        lemma_digits_nonneg(s@, c as int, d as int);
        lemma_pow10_pos((d - c) as nat);
        assert(digits_value(s@, a as int, b as int) * pow10((d - c) as nat) >= digits_value(
            s@,
            a as int,
            b as int,
        )) by (nonlinear_arith)
            requires
                digits_value(s@, a as int, b as int) >= 0,
                pow10((d - c) as nat) >= 1,
        ;
        assert(pow10(0) == 1);
    }
    let ip = scale_digits(s, a, b, 0, u64::MAX);
    let mant = match ip {
        None => None,
        Some(v) => scale_digits(s, c, d, v, u64::MAX),
    };
    if !has_dot && g == f {
        match mant {
            Some(mv) => {
                if mv <= MAX_SAFE_INT {
                    let iv: i64 = if neg {
                        -(mv as i64)
                    } else {
                        mv as i64
                    };
                    Ok(Number::Int(iv))
                } else {
                    Ok(Number::Float { negative: neg, mantissa: mv, exponent: 0 })
                }
            },
            None => Err(ErrorCode::NumberOutOfRange),
        }
    } else {
        let xe = scale_digits(s, f, g, 0, 0x8000_0000);
        match (mant, xe) {
            (Some(mv), Some(xv)) => {
                let e: i128 = (if eneg {
                    -(xv as i128)
                } else {
                    xv as i128
                }) - (d - c) as i128;
                if e < i32::MIN as i128 || e > i32::MAX as i128 {
                    Err(ErrorCode::NumberOutOfRange)
                } else {
                    Ok(Number::Float { negative: neg, mantissa: mv, exponent: e as i32 })
                }
            },
            _ => Err(ErrorCode::NumberOutOfRange),
        }
    }
}

fn hex_val_exec(c: char) -> (r: i64)
    ensures
        r == hex_val(c),
{
    if '0' <= c && c <= '9' {
        c as u32 as i64 - 48
    } else if 'a' <= c && c <= 'f' {
        c as u32 as i64 - 87
    } else if 'A' <= c && c <= 'F' {
        c as u32 as i64 - 55
    } else {
        -1
    }
}

fn simple_escape_exec(e: char) -> (r: Option<char>)
    ensures
        r == simple_escape(e),
{
    match e {
        '"' => Some('"'),
        '\\' => Some('\\'),
        '/' => Some('/'),
        'n' => Some('\n'),
        'r' => Some('\r'),
        't' => Some('\t'),
        'b' => Some('\u{8}'),
        'f' => Some('\u{c}'),
        _ => None,
    }
}

fn parse_string_exec(s: &Vec<char>, i: usize) -> (r: Result<(String, usize), (ErrorCode, usize)>)
    requires
        i <= s.len(),
    ensures
        agrees(r, parse_string(s@, i as int, Seq::empty())),
        r matches Err((_, p)) ==> p <= s.len(),
        r matches Ok((_, k)) ==> i < k <= s.len(),
{
    let mut acc: Vec<char> = Vec::new();
    let mut j = i;
    while j < s.len()
        invariant
            i <= j <= s.len(),
            parse_string(s@, j as int, acc@) == parse_string(s@, i as int, Seq::empty()),
        decreases s.len() - j,
    {
        let c = s[j];
        if c == '"' {
            return Ok((string_of(&acc), j + 1));
        } else if c == '\\' {
            if j + 1 >= s.len() {
                return Err((ErrorCode::UnterminatedString, j + 1));
            }
            if s[j + 1] == 'u' {
                if s.len() - j < 6 {
                    return Err((ErrorCode::InvalidEscape, j));
                }
                let h0 = hex_val_exec(s[j + 2]);
                let h1 = hex_val_exec(s[j + 3]);
                let h2 = hex_val_exec(s[j + 4]);
                let h3 = hex_val_exec(s[j + 5]);
                if h0 < 0 || h1 < 0 || h2 < 0 || h3 < 0 {
                    return Err((ErrorCode::InvalidEscape, j));
                }
                let code: i64 = ((h0 * 16 + h1) * 16 + h2) * 16 + h3;
                assert(code == hex4(s@, j + 2));
                if !((0 <= code && code < 0xD800) || (0xE000 <= code && code <= 0x10FFFF)) {
                    return Err((ErrorCode::InvalidEscape, j));
                }
                match char_from_code(code as u32) {
                    Some(ch) => acc.push(ch),
                    None => {
                        return Err((ErrorCode::InvalidEscape, j));
                    },
                }
                j = j + 6;
            } else {
                match simple_escape_exec(s[j + 1]) {
                    Some(ch) => acc.push(ch),
                    None => {
                        return Err((ErrorCode::InvalidEscape, j));
                    },
                }
                j = j + 2;
            }
        } else {
            acc.push(c);
            j = j + 1;
        }
    }
    Err((ErrorCode::UnterminatedString, j))
}

fn parse_key_exec(s: &Vec<char>, j: usize) -> (r: Result<(String, usize), (ErrorCode, usize)>)
    requires
        j < s.len(),
    ensures
        agrees(r, parse_key(s@, j as int)),
        r matches Err((_, p)) ==> p <= s.len(),
        r matches Ok((_, k)) ==> j < k <= s.len(),
{
    if s[j] == '"' {
        parse_string_exec(s, j + 1)
    } else if is_bare_char_exec(s[j]) {
        let e = bare_end_exec(s, j + 1);
        let cs = range_chars(s, j, e);
        Ok((string_of(&cs), e))
    } else {
        Err((ErrorCode::UnexpectedToken, j))
    }
}

pub(crate) fn key_pos_exec(m: &Vec<(String, Value)>, k: &String, Ghost(ts): Ghost<Seq<(Seq<char>, Tree)>>) -> (r: Option<usize>)
    requires
        ts.len() == m.len(),
        forall|j: int| 0 <= j < m.len() ==> #[trigger] ts[j] == (m[j].0@, m[j].1@),
    ensures
        match r {
            Some(p) => p as int == key_pos(ts, k@, 0) && p < m.len(),
            None => key_pos(ts, k@, 0) == -1,
        },
{
    let mut i: usize = 0;
    while i < m.len()
        invariant
            i <= m.len(),
            ts.len() == m.len(),
            forall|j: int| 0 <= j < m.len() ==> #[trigger] ts[j] == (m[j].0@, m[j].1@),
            key_pos(ts, k@, i as int) == key_pos(ts, k@, 0),
        decreases m.len() - i,
    {
        assert(ts[i as int] == (m[i as int].0@, m[i as int].1@));
        if m[i].0 == *k {
            return Some(i);
        }
        i = i + 1;
    }
    None
}

/// One value at `i`, after optional whitespace.
fn parse_value_exec(s: &Vec<char>, i: usize) -> (r: Result<(Value, usize), (ErrorCode, usize)>)
    requires
        i <= s.len(),
    ensures
        agrees(r, parse_value(s@, i as int)),
        r matches Ok((_, k)) ==> k <= s.len(),
        r matches Err((_, p)) ==> p <= s.len(),
    decreases s.len() - i, 0int,
{
    let j = skip_ws_exec(s, i);
    if j >= s.len() {
        return Err((ErrorCode::EofWhileParsing, j));
    }
    let c = s[j];
    if c == '{' {
        parse_members_exec(s, j + 1)
    } else if c == '[' {
        parse_elems_exec(s, j + 1)
    } else if c == '"' {
        match parse_string_exec(s, j + 1) {
            Ok((t, k)) => Ok((Value::String(t), k)),
            Err(e) => Err(e),
        }
    } else if c == '-' || ('0' <= c && c <= '9') {
        match parse_number_exec(s, j) {
            Ok((n, k)) => Ok((Value::Number(n), k)),
            Err(e) => Err(e),
        }
    } else if is_bare_char_exec(c) {
        let k = bare_end_exec(s, j + 1);
        let cs = range_chars(s, j, k);
        let ghost t = s@.subrange(j as int, k as int);
        if k - j == 4 && cs[0] == 't' && cs[1] == 'r' && cs[2] == 'u' && cs[3] == 'e' {
            assert(t =~= seq!['t', 'r', 'u', 'e']);
            Ok((Value::Bool(true), k))
        } else if k - j == 5 && cs[0] == 'f' && cs[1] == 'a' && cs[2] == 'l' && cs[3] == 's'
            && cs[4] == 'e' {
            assert(t =~= seq!['f', 'a', 'l', 's', 'e']);
            Ok((Value::Bool(false), k))
        } else if k - j == 4 && cs[0] == 'n' && cs[1] == 'u' && cs[2] == 'l' && cs[3] == 'l' {
            assert(t =~= seq!['n', 'u', 'l', 'l']);
            Ok((Value::Null, k))
        } else {
            proof {
                let w1 = seq!['t', 'r', 'u', 'e'];
                let w2 = seq!['f', 'a', 'l', 's', 'e'];
                let w3 = seq!['n', 'u', 'l', 'l'];
                assert(w1.len() == 4 && w1[0] == 't' && w1[1] == 'r' && w1[2] == 'u' && w1[3]
                    == 'e');
                assert(w2.len() == 5 && w2[0] == 'f' && w2[1] == 'a' && w2[2] == 'l' && w2[3]
                    == 's' && w2[4] == 'e');
                assert(w3.len() == 4 && w3[0] == 'n' && w3[1] == 'u' && w3[2] == 'l' && w3[3]
                    == 'l');
                assert(cs@ == t);
            }
            Ok((Value::String(string_of(&cs)), k))
        }
    } else {
        Err((ErrorCode::UnexpectedToken, j))
    }
}

/// The rest of an array, from just past its `[`.
fn parse_elems_exec(s: &Vec<char>, i: usize) -> (r: Result<(Value, usize), (ErrorCode, usize)>)
    requires
        i <= s.len(),
    ensures
        agrees(r, parse_elems(s@, i as int, Seq::empty())),
        r matches Ok((_, k)) ==> k <= s.len(),
        r matches Err((_, p)) ==> p <= s.len(),
    decreases s.len() - i, 1int,
{
    let mut acc: Vec<Value> = Vec::new();
    let ghost mut ts: Seq<Tree> = Seq::empty();
    let mut p = i;
    while p <= s.len()
        invariant
            i <= p <= s.len(),
            ts.len() == acc.len(),
            forall|j: int| 0 <= j < acc.len() ==> #[trigger] ts[j] == acc[j]@,
            parse_elems(s@, p as int, ts) == parse_elems(s@, i as int, Seq::empty()),
        decreases s.len() - p,
    {
        let j = skip_seps_exec(s, p);
        if j >= s.len() {
            return Err((ErrorCode::EofWhileParsing, j));
        }
        if s[j] == ']' {
            let v = Value::Array(acc);
            proof {
                lemma_view_parts(v);
                assert(v@->Array_0 =~= ts);
            }
            return Ok((v, j + 1));
        }
        match parse_value_exec(s, j) {
            Err(e) => {
                return Err(e);
            },
            Ok((t, k)) => {
                if k <= j || k > s.len() {
                    return Err((ErrorCode::UnexpectedToken, j));
                }
                proof {
                    ts = ts.push(t@);
                }
                acc.push(t);
                p = k;
            },
        }
    }
    Err((ErrorCode::EofWhileParsing, p))
}

/// The rest of an object, from just past its `{`.
fn parse_members_exec(s: &Vec<char>, i: usize) -> (r: Result<(Value, usize), (ErrorCode, usize)>)
    requires
        i <= s.len(),
    ensures
        agrees(r, parse_members(s@, i as int, Seq::empty())),
        r matches Ok((_, k)) ==> k <= s.len(),
        r matches Err((_, p)) ==> p <= s.len(),
    decreases s.len() - i, 1int,
{
    let mut acc: Vec<(String, Value)> = Vec::new();
    let ghost mut ts: Seq<(Seq<char>, Tree)> = Seq::empty();
    let mut p = i;
    while p <= s.len()
        invariant
            i <= p <= s.len(),
            ts.len() == acc.len(),
            forall|j: int| 0 <= j < acc.len() ==> #[trigger] ts[j] == (acc[j].0@, acc[j].1@),
            parse_members(s@, p as int, ts) == parse_members(s@, i as int, Seq::empty()),
        decreases s.len() - p,
    {
        let j = skip_seps_exec(s, p);
        if j >= s.len() {
            return Err((ErrorCode::EofWhileParsing, j));
        }
        if s[j] == '}' {
            let v = Value::Object(acc);
            proof {
                lemma_view_parts(v);
                assert(v@->Object_0 =~= ts);
            }
            return Ok((v, j + 1));
        }
        let (k, kp) = match parse_key_exec(s, j) {
            Err(e) => {
                return Err(e);
            },
            Ok(x) => x,
        };
        let q = skip_ws_exec(s, kp);
        if q >= s.len() {
            return Err((ErrorCode::EofWhileParsing, q));
        }
        if s[q] != '=' && s[q] != ':' {
            return Err((ErrorCode::UnexpectedToken, q));
        }
        match parse_value_exec(s, q + 1) {
            Err(e) => {
                return Err(e);
            },
            Ok((v, r)) => {
                if r <= q || r > s.len() {
                    return Err((ErrorCode::UnexpectedToken, q));
                }
                match key_pos_exec(&acc, &k, Ghost(ts)) {
                    Some(at) => {
                        proof {
                            ts = ts.update(at as int, (k@, v@));
                        }
                        acc[at] = (k, v);
                    },
                    None => {
                        proof {
                            ts = ts.push((k@, v@));
                        }
                        acc.push((k, v));
                    },
                }
                p = r;
            },
        }
    }
    Err((ErrorCode::EofWhileParsing, p))
}

fn line_col_exec(s: &Vec<char>, p: usize) -> (r: (usize, usize))
    requires
        p <= s.len() < usize::MAX,
    ensures
        r.0 == line_col(s@, p as int).0,
        r.1 == line_col(s@, p as int).1,
{
    let mut l: usize = 1;
    let mut c: usize = 1;
    let mut k: usize = 0;
    while k < p
        invariant
            k <= p <= s.len() < usize::MAX,
            (l as int, c as int) == line_col(s@, k as int),
            l >= 1,
            c >= 1,
            l + c <= k + 2,
        decreases p - k,
    {
        if s[k] == '\n' {
            l = l + 1;
            c = 1;
        } else {
            c = c + 1;
        }
        k = k + 1;
    }
    (l, c)
}

/// Parses one whole document: a value, then nothing but whitespace. An error
/// carries the line and column where it was found.
pub fn from_str(s: &str) -> (r: Result<Value, Error>)
    requires
        s@.len() < usize::MAX,
    ensures
        match parse_document(s@) {
            Ok(t) => r matches Ok(v) && v@ == t && tree_wf(t),
            Err((c, p)) => r matches Err(e) && e.code == c && e.line == line_col(s@, p).0
                && e.column == line_col(s@, p).1,
        },
{
    let cs = chars_of(s);
    proof {
        lemma_value_wf(cs@, 0);
    }
    let (code, p) = match parse_value_exec(&cs, 0) {
        Ok((v, k)) => {
            let j = skip_ws_exec(&cs, k);
            if j < cs.len() {
                (ErrorCode::TrailingCharacters, j)
            } else {
                return Ok(v);
            }
        },
        Err(e) => e,
    };
    let (line, column) = line_col_exec(&cs, p);
    Err(Error::syntax(code, line, column))
}

proof fn lemma_digits_end_digits(s: Seq<char>, i: int)
    requires
        0 <= i,
    ensures
        i <= digits_end(s, i),
        forall|k: int| i <= k < digits_end(s, i) ==> is_digit(#[trigger] s[k]),
    decreases s.len() - i,
{
    if 0 <= i < s.len() && is_digit(s[i]) {
        lemma_digits_end_digits(s, i + 1);
    }
}

proof fn lemma_number_wf(s: Seq<char>, i: int)
    requires
        0 <= i < s.len(),
    ensures
        parse_number(s, i) matches Ok((n, _)) ==> number_wf(n),
{
    let a = if s[i] == '-' {
        i + 1
    } else {
        i
    };
    let b = digits_end(s, a);
    let c = if b < s.len() && s[b] == '.' {
        b + 1
    } else {
        b
    };
    let d = digits_end(s, c);
    lemma_digits_end_digits(s, a);
    lemma_digits_end_digits(s, c);
    lemma_digits_nonneg(s, a, b);
    lemma_digits_nonneg(s, c, d);
    lemma_pow10_pos((d - c) as nat);
    let x = digits_value(s, a, b);
    let y = pow10((d - c) as nat);
    assert(x * y >= 0) by (nonlinear_arith)
        requires
            x >= 0,
            y >= 1,
    ;
}

proof fn lemma_key_pos(m: Seq<(Seq<char>, Tree)>, k: Seq<char>, i: int)
    requires
        0 <= i,
    ensures
        key_pos(m, k, i) == -1 || (i <= key_pos(m, k, i) < m.len() && m[key_pos(m, k, i)].0
            == k),
        key_pos(m, k, i) == -1 ==> forall|j: int| i <= j < m.len() ==> (#[trigger] m[j]).0 != k,
    decreases m.len() - i,
{
    if i < m.len() {
        lemma_key_pos(m, k, i + 1);
    }
}

proof fn lemma_insert_pair_wf(m: Seq<(Seq<char>, Tree)>, k: Seq<char>, v: Tree)
    requires
        keys_unique(m),
        forall|j: int| 0 <= j < m.len() ==> tree_wf(#[trigger] m[j].1),
        tree_wf(v),
    ensures
        keys_unique(insert_pair(m, k, v)),
        forall|j: int|
            0 <= j < insert_pair(m, k, v).len() ==> tree_wf(#[trigger] insert_pair(m, k, v)[j].1),
{
    lemma_key_pos(m, k, 0);
    let r = insert_pair(m, k, v);
    let p = key_pos(m, k, 0);
    assert forall|a: int, b: int| 0 <= a < b < r.len() implies #[trigger] r[a].0 != #[trigger] r[b].0 by {
        if p < 0 {
            if b == m.len() {
                assert(m[a].0 != k);
            } else {
                assert(m[a].0 != m[b].0);
            }
        } else {
            assert(m[a].0 != m[b].0);
        }
    }
    assert forall|j: int| 0 <= j < r.len() implies tree_wf(#[trigger] r[j].1) by {
        if j < m.len() && j != p {
            assert(tree_wf(m[j].1));
        }
    }
}

/// What the reader gives is well-formed: integers in the exact range, and
/// each key of an object once.
pub proof fn lemma_value_wf(s: Seq<char>, i: int)
    requires
        0 <= i,
    ensures
        parse_value(s, i) matches Ok((t, _)) ==> tree_wf(t),
    decreases s.len() - i, 0int,
{
    let j = skip_ws(s, i);
    if j < i || j >= s.len() {
    } else if s[j] == '{' {
        lemma_members_wf(s, j + 1, Seq::empty());
    } else if s[j] == '[' {
        lemma_elems_wf(s, j + 1, Seq::empty());
    } else if s[j] == '"' {
    } else if s[j] == '-' || is_digit(s[j]) {
        lemma_number_wf(s, j);
    }
}

proof fn lemma_elems_wf(s: Seq<char>, i: int, acc: Seq<Tree>)
    requires
        0 <= i,
        forall|j: int| 0 <= j < acc.len() ==> tree_wf(#[trigger] acc[j]),
    ensures
        parse_elems(s, i, acc) matches Ok((t, _)) ==> tree_wf(t),
    decreases s.len() - i, 1int,
{
    let j = skip_seps(s, i);
    if j < i || j >= s.len() {
    } else if s[j] == ']' {
    } else {
        lemma_value_wf(s, j);
        match parse_value(s, j) {
            Err(_) => {},
            Ok((t, k)) => if k <= j || k > s.len() {
            } else {
                let acc2 = acc.push(t);
                assert forall|x: int| 0 <= x < acc2.len() implies tree_wf(#[trigger] acc2[x]) by {
                    if x < acc.len() {
                        assert(tree_wf(acc[x]));
                    }
                }
                lemma_elems_wf(s, k, acc2);
            },
        }
    }
}

proof fn lemma_members_wf(s: Seq<char>, i: int, acc: Seq<(Seq<char>, Tree)>)
    requires
        0 <= i,
        keys_unique(acc),
        forall|j: int| 0 <= j < acc.len() ==> tree_wf(#[trigger] acc[j].1),
    ensures
        parse_members(s, i, acc) matches Ok((t, _)) ==> tree_wf(t),
    decreases s.len() - i, 1int,
{
    let j = skip_seps(s, i);
    if j < i || j >= s.len() {
    } else if s[j] == '}' {
    } else {
        match parse_key(s, j) {
            Err(_) => {},
            Ok((k, p)) => {
                let q = skip_ws(s, p);
                if q <= j || q >= s.len() {
                } else if s[q] != '=' && s[q] != ':' {
                } else {
                    lemma_value_wf(s, q + 1);
                    match parse_value(s, q + 1) {
                        Err(_) => {},
                        Ok((v, r)) => if r <= q || r > s.len() {
                        } else {
                            lemma_insert_pair_wf(acc, k, v);
                            lemma_members_wf(s, r, insert_pair(acc, k, v));
                        },
                    }
                }
            },
        }
    }
}

} // verus!
