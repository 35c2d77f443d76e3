//! What holds of the writer and the reader together: every well-formed value
//! reads back from either rendering as itself.
use crate::de::{
    bare_end, digit_val, digits_end, digits_value, exponent_part, hex4, hex_val, insert_pair,
    is_digit, is_ws, key_pos, lemma_value_wf, number_from_parts, parse_document, parse_elems,
    parse_key, parse_members, parse_number, parse_string, parse_value, pow10,
    skip_seps, skip_ws,
};
use crate::text::{
    compact, compact_elems, compact_members, digit_char, escape, escape_char, hex_char, int_text,
    is_bare, is_bare_char, is_control, key_text, nat_text, number_text, pretty, pretty_elems,
    pretty_members, quoted, scalar_text,
};
use crate::value::{keys_unique, number_wf, tree_wf, Number, Tree, Value};
use vstd::prelude::*;

verus! {

/// Text `t` stands in `s` from position `i` on.
pub open spec fn text_at(s: Seq<char>, i: int, t: Seq<char>) -> bool {
    0 <= i && i + t.len() <= s.len() && s.subrange(i, i + t.len()) == t
}

/// Position `e` ends a token: the input ends there, or a character that no
/// bare token holds stands there.
pub open spec fn ends_token(s: Seq<char>, e: int) -> bool {
    e == s.len() || (0 <= e < s.len() && !is_bare_char(s[e]))
}

proof fn lemma_text_at_char(s: Seq<char>, i: int, t: Seq<char>, k: int)
    requires
        text_at(s, i, t),
        0 <= k < t.len(),
    ensures
        s[i + k] == t[k],
{
    assert(s.subrange(i, i + t.len())[k] == s[i + k]);
}

proof fn lemma_text_at_split(s: Seq<char>, i: int, t1: Seq<char>, t2: Seq<char>)
    requires
        text_at(s, i, t1 + t2),
    ensures
        text_at(s, i, t1),
        text_at(s, i + t1.len(), t2),
{
    assert(s.subrange(i, i + t1.len()) =~= (t1 + t2).subrange(0, t1.len() as int));
    assert((t1 + t2).subrange(0, t1.len() as int) =~= t1);
    assert(s.subrange(i + t1.len(), i + t1.len() + t2.len()) =~= (t1 + t2).subrange(
        t1.len() as int,
        (t1.len() + t2.len()) as int,
    ));
    assert((t1 + t2).subrange(t1.len() as int, (t1.len() + t2.len()) as int) =~= t2);
}

proof fn lemma_digit_char(d: int)
    requires
        0 <= d < 10,
    ensures
        is_digit(digit_char(d)),
        digit_val(digit_char(d)) == d,
        is_bare_char(digit_char(d)),
        !is_ws(digit_char(d)),
{
}

proof fn lemma_nat_text(s: Seq<char>, a: int, m: nat)
    requires
        text_at(s, a, nat_text(m)),
    ensures
        nat_text(m).len() >= 1,
        forall|k: int| a <= k < a + nat_text(m).len() ==> is_digit(#[trigger] s[k]),
        digits_value(s, a, a + nat_text(m).len()) == m,
    decreases m,
{
    let t = nat_text(m);
    if m < 10 {
        lemma_digit_char(m as int);
        lemma_text_at_char(s, a, t, 0);
        assert(digits_value(s, a, a) == 0);
    } else {
        let h = nat_text(m / 10);
        let d = digit_char((m % 10) as int);
        assert(t == h + seq![d]);
        lemma_text_at_split(s, a, h, seq![d]);
        lemma_nat_text(s, a, m / 10);
        lemma_text_at_char(s, a + h.len(), seq![d], 0);
        lemma_digit_char((m % 10) as int);
        assert(digits_value(s, a, a + t.len()) == digits_value(s, a, a + h.len()) * 10 + digit_val(
            s[a + h.len()],
        ));
        assert(m == (m / 10) * 10 + m % 10);
    }
}

proof fn lemma_digits_end(s: Seq<char>, a: int, b: int)
    requires
        0 <= a <= b <= s.len(),
        forall|k: int| a <= k < b ==> is_digit(#[trigger] s[k]),
        b == s.len() || !is_digit(s[b]),
    ensures
        digits_end(s, a) == b,
    decreases b - a,
{
    if a < b {
        lemma_digits_end(s, a + 1, b);
    }
}

proof fn lemma_bare_end(s: Seq<char>, a: int, b: int)
    requires
        0 <= a <= b <= s.len(),
        forall|k: int| a <= k < b ==> is_bare_char(#[trigger] s[k]),
        b == s.len() || !is_bare_char(s[b]),
    ensures
        bare_end(s, a) == b,
    decreases b - a,
{
    if a < b {
        lemma_bare_end(s, a + 1, b);
    }
}

/// The digits of `m` at `a`, ended by a character that no bare token holds
/// or by some other non-digit at the end.
proof fn lemma_digits_at(s: Seq<char>, a: int, m: nat)
    requires
        text_at(s, a, nat_text(m)),
        a + nat_text(m).len() == s.len() || !is_digit(s[a + nat_text(m).len()]),
    ensures
        digits_end(s, a) == a + nat_text(m).len(),
        digits_value(s, a, a + nat_text(m).len()) == m,
        nat_text(m).len() >= 1,
        is_digit(s[a]),
{
    lemma_nat_text(s, a, m);
    lemma_digits_end(s, a, a + nat_text(m).len());
}

proof fn lemma_number_int(s: Seq<char>, i: int, n: Number, v: i64)
    requires
        number_wf(n),
        n == Number::Int(v),
        text_at(s, i, number_text(n)),
        ends_token(s, i + number_text(n).len()),
    ensures
        parse_number(s, i) == Ok::<(Number, int), (crate::error::ErrorCode, int)>(
            (n, i + number_text(n).len()),
        ),
        s[i] == '-' || is_digit(s[i]),
{
    let z = i + number_text(n).len();
    let neg = v < 0;
    let mag: nat = if neg {
        (-v) as nat
    } else {
        v as nat
    };
    let a = if neg {
        i + 1
    } else {
        i
    };
    if neg {
        lemma_text_at_split(s, i, seq!['-'], nat_text(mag));
        lemma_text_at_char(s, i, seq!['-'], 0);
    }
    assert(z == a + nat_text(mag).len());
    lemma_digits_at(s, a, mag);
    assert(s[i] == '-' <==> neg);
    assert(digits_end(s, z) == z);
    assert(digits_value(s, z, z) == 0);
    assert(pow10(0) == 1);
    assert(parse_number(s, i) == number_from_parts(s, i, neg, a, z, z, z, false, z, z, z, false));

}

proof fn lemma_number_float(s: Seq<char>, i: int, n: Number, negative: bool, mantissa: u64, exponent: i32)
    requires
        n == (Number::Float { negative, mantissa, exponent }),
        text_at(s, i, number_text(n)),
        ends_token(s, i + number_text(n).len()),
    ensures
        parse_number(s, i) == Ok::<(Number, int), (crate::error::ErrorCode, int)>(
            (n, i + number_text(n).len()),
        ),
        s[i] == '-' || is_digit(s[i]),
{
    let z = i + number_text(n).len();
    let sign = if negative {
        seq!['-']
    } else {
        Seq::<char>::empty()
    };
    let a = i + sign.len();
    let mt = nat_text(mantissa as nat);
    let et = int_text(exponent as int);
    assert(number_text(n) == sign + mt + seq!['e'] + et);
    lemma_text_at_split(s, i, sign + mt + seq!['e'], et);
    lemma_text_at_split(s, i, sign + mt, seq!['e']);
    lemma_text_at_split(s, i, sign, mt);
    let b = a + mt.len();
    lemma_text_at_char(s, b, seq!['e'], 0);
    lemma_digits_at(s, a, mantissa as nat);
    if negative {
        lemma_text_at_char(s, i, sign, 0);
    }
    assert(s[i] == '-' <==> negative);
    assert(digits_end(s, b) == b);
    let eneg = exponent < 0;
    let x: nat = if eneg {
        (-exponent) as nat
    } else {
        exponent as nat
    };
    let f = if eneg {
        b + 2
    } else {
        b + 1
    };
    if eneg {
        lemma_text_at_split(s, b + 1, seq!['-'], nat_text(x));
        lemma_text_at_char(s, b + 1, seq!['-'], 0);
    }
    assert(f + nat_text(x).len() == z);
    lemma_digits_at(s, f, x);
    assert(s[b + 1] == '-' <==> eneg);
    assert(exponent_part(s, b) == Some((z, eneg, f, z)));
    assert(digits_value(s, b, b) == 0);
    assert(pow10(0) == 1);
    assert(digits_value(s, a, b) == mantissa);
    assert(digits_value(s, f, z) == x);
    assert(digits_value(s, a, b) * pow10(0) + digits_value(s, b, b) == mantissa);
    assert(x <= 0x8000_0000);
    assert(number_from_parts(s, i, negative, a, b, b, b, eneg, f, z, z, false) == Ok::<(Number, int), (crate::error::ErrorCode, int)>((n, z)));
    assert(parse_number(s, i) == number_from_parts(s, i, negative, a, b, b, b, eneg, f, z, z, false));

}

proof fn lemma_number(s: Seq<char>, i: int, n: Number)
    requires
        number_wf(n),
        text_at(s, i, number_text(n)),
        ends_token(s, i + number_text(n).len()),
    ensures
        parse_number(s, i) == Ok::<(Number, int), (crate::error::ErrorCode, int)>(
            (n, i + number_text(n).len()),
        ),
        s[i] == '-' || is_digit(s[i]),
{
    match n {
        Number::Int(v) => lemma_number_int(s, i, n, v),
        Number::Float { negative, mantissa, exponent } => lemma_number_float(
            s,
            i,
            n,
            negative,
            mantissa,
            exponent,
        ),
    }
}

proof fn lemma_hex_char(d: int)
    requires
        0 <= d < 16,
    ensures
        hex_val(hex_char(d)) == d,
{
}

proof fn lemma_escape_char(s: Seq<char>, p: int, c: char, acc: Seq<char>)
    requires
        text_at(s, p, escape_char(c)),
    ensures
        parse_string(s, p, acc) == parse_string(s, p + escape_char(c).len(), acc.push(c)),
{
    let t = escape_char(c);
    lemma_text_at_char(s, p, t, 0);
    if t.len() >= 2 {
        lemma_text_at_char(s, p, t, 1);
    }
    if c != '"' && c != '\\' && c != '\n' && c != '\r' && c != '\t' && is_control(c) {
        let u = c as u32;
        lemma_text_at_char(s, p, t, 2);
        lemma_text_at_char(s, p, t, 3);
        lemma_text_at_char(s, p, t, 4);
        lemma_text_at_char(s, p, t, 5);
        lemma_hex_char((u / 16) as int);
        lemma_hex_char((u % 16) as int);
        assert(hex_val('0') == 0);
        assert(hex4(s, p + 2) == u);
        vstd::utf8::char_u32_cast(c, u);
        assert((hex4(s, p + 2) as u32) as char == c);
    }
}

proof fn lemma_escape(s: Seq<char>, i: int, t: Seq<char>, acc: Seq<char>)
    requires
        text_at(s, i, escape(t)),
    ensures
        parse_string(s, i, acc) == parse_string(s, i + escape(t).len(), acc + t),
    decreases t.len(),
{
    if t.len() == 0 {
        assert(acc + t =~= acc);
    } else {
        let d = t.drop_last();
        lemma_text_at_split(s, i, escape(d), escape_char(t.last()));
        lemma_escape(s, i, d, acc);
        lemma_escape_char(s, i + escape(d).len(), t.last(), acc + d);
        assert((acc + d).push(t.last()) =~= acc + t);
    }
}

proof fn lemma_quoted(s: Seq<char>, i: int, t: Seq<char>)
    requires
        text_at(s, i, quoted(t)),
    ensures
        s[i] == '"',
        parse_string(s, i + 1, Seq::empty()) == Ok::<(Seq<char>, int), (crate::error::ErrorCode, int)>(
            (t, i + quoted(t).len()),
        ),
{
    lemma_text_at_split(s, i, seq!['"'] + escape(t), seq!['"']);
    lemma_text_at_split(s, i, seq!['"'], escape(t));
    lemma_text_at_char(s, i, seq!['"'], 0);
    lemma_escape(s, i + 1, t, Seq::empty());
    lemma_text_at_char(s, i + 1 + escape(t).len(), seq!['"'], 0);
    assert(Seq::<char>::empty() + t =~= t);
}

proof fn lemma_word(s: Seq<char>, i: int, w: Seq<char>)
    requires
        text_at(s, i, w),
        ends_token(s, i + w.len()),
        w.len() > 0,
        forall|k: int| 0 <= k < w.len() ==> is_bare_char(#[trigger] w[k]),
    ensures
        bare_end(s, i) == i + w.len(),
        s.subrange(i, bare_end(s, i)) == w,
        skip_ws(s, i) == i,
        s[i] == w[0],
{
    assert forall|k: int| i <= k < i + w.len() implies is_bare_char(#[trigger] s[k]) by {
        lemma_text_at_char(s, i, w, k - i);
    }
    lemma_bare_end(s, i, i + w.len());
    lemma_text_at_char(s, i, w, 0);
}

proof fn lemma_scalar(s: Seq<char>, i: int, t: Tree)
    requires
        !(t is Array),
        !(t is Object),
        tree_wf(t),
        text_at(s, i, scalar_text(t)),
        ends_token(s, i + scalar_text(t).len()),
    ensures
        parse_value(s, i) == Ok::<(Tree, int), (crate::error::ErrorCode, int)>(
            (t, i + scalar_text(t).len()),
        ),
{
    let w_true = seq!['t', 'r', 'u', 'e'];
    let w_false = seq!['f', 'a', 'l', 's', 'e'];
    let w_null = seq!['n', 'u', 'l', 'l'];
    assert(w_true[0] == 't' && w_false[0] == 'f' && w_null[0] == 'n');
    match t {
        Tree::Null => {
            lemma_word(s, i, w_null);
        },
        Tree::Bool(b) => {
            if b {
                lemma_word(s, i, w_true);
            } else {
                lemma_word(s, i, w_false);
            }
        },
        Tree::Number(n) => {
            let nt = number_text(n);
            lemma_number(s, i, n);
            assert(s[i] == '-' || is_digit(s[i]));
            assert(skip_ws(s, i) == i);
        },
        Tree::Str(x) => {
            lemma_quoted(s, i, x);
            assert(skip_ws(s, i) == i);
        },
        _ => {},
    }
}

/// A character that can open the text of a value.
pub open spec fn opens_value(c: char) -> bool {
    !is_ws(c) && c != ',' && c != ']' && c != '}' && c != '=' && c != ':'
}

proof fn lemma_nat_text_first(m: nat)
    ensures
        nat_text(m).len() >= 1,
        is_digit(nat_text(m)[0]),
    decreases m,
{
    if m >= 10 {
        lemma_nat_text_first(m / 10);
        assert(nat_text(m)[0] == nat_text(m / 10)[0]);
    } else {
        lemma_digit_char(m as int);
    }
}

proof fn lemma_first(t: Tree, ind: Seq<char>)
    ensures
        compact(t).len() > 0,
        pretty(t, ind).len() > 0,
        compact(t)[0] == pretty(t, ind)[0],
        opens_value(compact(t)[0]),
        compact(t)[0] != '"' ==> is_bare_char(compact(t)[0]) || compact(t)[0] == '['
            || compact(t)[0] == '{',
{
    match t {
        Tree::Number(n) => {
            match n {
                Number::Int(v) => {
                    if v >= 0 {
                        lemma_nat_text_first(v as nat);
                    } else {
                        lemma_nat_text_first((-v) as nat);
                    }
                },
                Number::Float { negative, mantissa, exponent } => {
                    lemma_nat_text_first(mantissa as nat);
                },
            }
        },
        _ => {},
    }
}

proof fn lemma_text_at_prefix(s: Seq<char>, i: int, t: Seq<char>, n: int)
    requires
        text_at(s, i, t),
        0 <= n <= t.len(),
    ensures
        text_at(s, i, t.subrange(0, n)),
{
    assert(s.subrange(i, i + n) =~= t.subrange(0, n));
}

proof fn lemma_ce_prefix(a: Seq<Tree>, k: int)
    requires
        0 <= k <= a.len(),
    ensures
        compact_elems(a.take(k)).len() <= compact_elems(a).len(),
        compact_elems(a).subrange(0, compact_elems(a.take(k)).len() as int) == compact_elems(
            a.take(k),
        ),
    decreases a.len() - k,
{
    if k == a.len() {
        assert(a.take(k) =~= a);
        assert(compact_elems(a).subrange(0, compact_elems(a).len() as int) =~= compact_elems(a));
    } else {
        lemma_ce_prefix(a, k + 1);
        lemma_ce_step(a, k + 1);
        let x = compact_elems(a.take(k));
        let y = compact_elems(a.take(k + 1));
        assert(y.subrange(0, x.len() as int) =~= x);
        assert(compact_elems(a).subrange(0, x.len() as int) =~= y.subrange(0, x.len() as int));
    }
}

proof fn lemma_ce_step(a: Seq<Tree>, k: int)
    requires
        1 <= k <= a.len(),
    ensures
        compact_elems(a.take(k)) == compact_elems(a.take(k - 1)) + (if k > 1 {
            seq![' ']
        } else {
            Seq::empty()
        }) + compact(a[k - 1]),
{
    let t = a.take(k);
    assert(t.drop_last() =~= a.take(k - 1));
    assert(t.last() == a[k - 1]);
    if k == 1 {
        assert(compact_elems(a.take(0)) == Seq::<char>::empty());
        assert(Seq::<char>::empty() + Seq::<char>::empty() + compact(a[0]) =~= compact(a[0]));
    }
}

proof fn lemma_skip_seps_run(s: Seq<char>, a: int, b: int)
    requires
        0 <= a <= b < s.len(),
        forall|k: int| a <= k < b ==> is_ws(#[trigger] s[k]) || s[k] == ',',
        !is_ws(s[b]) && s[b] != ',',
    ensures
        skip_seps(s, a) == b,
    decreases b - a,
{
    if a < b {
        lemma_skip_seps_run(s, a + 1, b);
    }
}

/// The elements of a compact array are read one by one: after `k` of them
/// the reader stands just past the text of the first `k`.
proof fn lemma_compact_elems(s: Seq<char>, i: int, a: Seq<Tree>, k: int)
    requires
        forall|j: int| 0 <= j < a.len() ==> tree_wf(#[trigger] a[j]),
        0 <= k <= a.len(),
        text_at(s, i, compact_elems(a) + seq![']']),
    ensures
        parse_elems(s, i, Seq::empty()) == parse_elems(
            s,
            i + compact_elems(a.take(k)).len(),
            a.take(k),
        ),
    decreases a, k,
{
    let whole = compact_elems(a) + seq![']'];
    if k == 0 {
        assert(a.take(0) =~= Seq::<Tree>::empty());
    } else {
        lemma_compact_elems(s, i, a, k - 1);
        lemma_ce_step(a, k);
        lemma_ce_prefix(a, k);
        let prev = compact_elems(a.take(k - 1));
        let cur = compact_elems(a.take(k));
        let sep: Seq<char> = if k > 1 {
            seq![' ']
        } else {
            Seq::empty()
        };
        let p0 = i + prev.len();
        let q = p0 + sep.len();
        let p1 = i + cur.len();
        lemma_text_at_split(s, i, compact_elems(a), seq![']']);
        lemma_text_at_prefix(s, i, compact_elems(a), cur.len() as int);
        assert(compact_elems(a).subrange(0, cur.len() as int) == cur);
        lemma_text_at_split(s, i, prev + sep, compact(a[k - 1]));
        lemma_text_at_split(s, i, prev, sep);
        lemma_first(a[k - 1], Seq::empty());
        lemma_text_at_char(s, q, compact(a[k - 1]), 0);
        if k > 1 {
            lemma_text_at_char(s, p0, sep, 0);
        }
        lemma_skip_seps_run(s, p0, q);
        // what follows the element: a space before the next one, or the bracket
        if k < a.len() {
            lemma_ce_step(a, k + 1);
            lemma_ce_prefix(a, k + 1);
            let nxt = compact_elems(a.take(k + 1));
            lemma_text_at_prefix(s, i, compact_elems(a), nxt.len() as int);
            assert(compact_elems(a).subrange(0, nxt.len() as int) == nxt);
            lemma_text_at_char(s, i, nxt, cur.len() as int);
        } else {
            assert(a.take(k) =~= a);
            lemma_text_at_char(s, i + compact_elems(a).len(), seq![']'], 0);
        }
        lemma_compact(s, q, a[k - 1]);
        assert(a.take(k - 1).push(a[k - 1]) =~= a.take(k));
    }
}

proof fn lemma_key(s: Seq<char>, q: int, key: Seq<char>)
    requires
        text_at(s, q, key_text(key)),
        ends_token(s, q + key_text(key).len()),
    ensures
        parse_key(s, q) == Ok::<(Seq<char>, int), (crate::error::ErrorCode, int)>(
            (key, q + key_text(key).len()),
        ),
        key_text(key).len() > 0,
        s[q] != '}' && !is_ws(s[q]) && s[q] != ',',
{
    if is_bare(key) {
        lemma_word(s, q, key);
    } else {
        lemma_quoted(s, q, key);
    }
}

proof fn lemma_key_absent(m: Seq<(Seq<char>, Tree)>, k: Seq<char>, i: int)
    requires
        0 <= i,
        forall|j: int| i <= j < m.len() ==> (#[trigger] m[j]).0 != k,
    ensures
        key_pos(m, k, i) == -1,
    decreases m.len() - i,
{
    if i < m.len() {
        lemma_key_absent(m, k, i + 1);
    }
}

pub open spec fn compact_pair(k: Seq<char>, v: Tree) -> Seq<char> {
    key_text(k) + seq!['='] + compact(v)
}

proof fn lemma_cm_step(m: Seq<(Seq<char>, Tree)>, k: int)
    requires
        1 <= k <= m.len(),
    ensures
        compact_members(m.take(k)) == compact_members(m.take(k - 1)) + (if k > 1 {
            seq![',']
        } else {
            Seq::empty()
        }) + compact_pair(m[k - 1].0, m[k - 1].1),
{
    let t = m.take(k);
    assert(t.drop_last() =~= m.take(k - 1));
    assert(t.last() == m[k - 1]);
    if k == 1 {
        assert(compact_members(m.take(0)) == Seq::<char>::empty());
        assert(Seq::<char>::empty() + Seq::<char>::empty() + compact_pair(m[0].0, m[0].1)
            =~= compact_pair(m[0].0, m[0].1));
    } else {
        assert(compact_members(t) =~= compact_members(m.take(k - 1)) + seq![','] + compact_pair(
            m[k - 1].0,
            m[k - 1].1,
        ));
    }
}

proof fn lemma_cm_prefix(m: Seq<(Seq<char>, Tree)>, k: int)
    requires
        0 <= k <= m.len(),
    ensures
        compact_members(m.take(k)).len() <= compact_members(m).len(),
        compact_members(m).subrange(0, compact_members(m.take(k)).len() as int)
            == compact_members(m.take(k)),
    decreases m.len() - k,
{
    if k == m.len() {
        assert(m.take(k) =~= m);
        assert(compact_members(m).subrange(0, compact_members(m).len() as int) =~= compact_members(
            m,
        ));
    } else {
        lemma_cm_prefix(m, k + 1);
        lemma_cm_step(m, k + 1);
        let x = compact_members(m.take(k));
        let y = compact_members(m.take(k + 1));
        assert(y.subrange(0, x.len() as int) =~= x);
        assert(compact_members(m).subrange(0, x.len() as int) =~= y.subrange(0, x.len() as int));
    }
}

/// The pairs of a compact object are read one by one.
#[verifier::rlimit(100)]
proof fn lemma_compact_members(s: Seq<char>, i: int, m: Seq<(Seq<char>, Tree)>, k: int)
    requires
        keys_unique(m),
        forall|j: int| 0 <= j < m.len() ==> tree_wf(#[trigger] m[j].1),
        0 <= k <= m.len(),
        text_at(s, i, compact_members(m) + seq!['}']),
    ensures
        parse_members(s, i, Seq::empty()) == parse_members(
            s,
            i + compact_members(m.take(k)).len(),
            m.take(k),
        ),
    decreases m, k,
{
    if k == 0 {
        assert(m.take(0) =~= Seq::<(Seq<char>, Tree)>::empty());
    } else {
        lemma_compact_members(s, i, m, k - 1);
        lemma_cm_step(m, k);
        lemma_cm_prefix(m, k);
        let prev = compact_members(m.take(k - 1));
        let cur = compact_members(m.take(k));
        let sep: Seq<char> = if k > 1 {
            seq![',']
        } else {
            Seq::empty()
        };
        let key = m[k - 1].0;
        let v = m[k - 1].1;
        let kt = key_text(key);
        let p0 = i + prev.len();
        let q = p0 + sep.len();
        let p = q + kt.len();
        let p1 = i + cur.len();
        lemma_text_at_split(s, i, compact_members(m), seq!['}']);
        lemma_text_at_prefix(s, i, compact_members(m), cur.len() as int);
        assert(compact_members(m).subrange(0, cur.len() as int) == cur);
        assert(cur == (prev + sep) + (kt + (seq!['='] + compact(v))));
        lemma_text_at_split(s, i, prev + sep, kt + (seq!['='] + compact(v)));
        lemma_text_at_split(s, i, prev, sep);
        lemma_text_at_split(s, q, kt, seq!['='] + compact(v));
        lemma_text_at_split(s, p, seq!['='], compact(v));
        lemma_text_at_char(s, p, seq!['='], 0);
        lemma_key(s, q, key);
        if k > 1 {
            lemma_text_at_char(s, p0, sep, 0);
        }
        lemma_skip_seps_run(s, p0, q);
        if k < m.len() {
            lemma_cm_step(m, k + 1);
            lemma_cm_prefix(m, k + 1);
            let nxt = compact_members(m.take(k + 1));
            lemma_text_at_prefix(s, i, compact_members(m), nxt.len() as int);
            assert(compact_members(m).subrange(0, nxt.len() as int) == nxt);
            lemma_text_at_char(s, i, nxt, cur.len() as int);
        } else {
            assert(m.take(k) =~= m);
            lemma_text_at_char(s, i + compact_members(m).len(), seq!['}'], 0);
        }
        lemma_compact(s, p + 1, v);
        assert(skip_ws(s, p) == p);
        assert forall|j: int| 0 <= j < m.take(k - 1).len() implies (#[trigger] m.take(k - 1)[j]).0
            != key by {
            assert(m[j].0 != m[k - 1].0);
        }
        lemma_key_absent(m.take(k - 1), key, 0);
        assert(m.take(k - 1).push((key, v)) =~= m.take(k));
        assert(insert_pair(m.take(k - 1), key, v) == m.take(k));
    }
}

/// The compact text of a well-formed tree reads back as the tree, wherever
/// it stands, as long as no bare-token character follows it.
pub proof fn lemma_compact(s: Seq<char>, i: int, t: Tree)
    requires
        tree_wf(t),
        text_at(s, i, compact(t)),
        ends_token(s, i + compact(t).len()),
    ensures
        parse_value(s, i) == Ok::<(Tree, int), (crate::error::ErrorCode, int)>(
            (t, i + compact(t).len()),
        ),
    decreases t, 0int,
{
    match t {
        Tree::Array(a) => {
            let body = compact_elems(a);
            assert(compact(t) == seq!['['] + (body + seq![']']));
            lemma_text_at_split(s, i, seq!['['], body + seq![']']);
            lemma_text_at_char(s, i, seq!['['], 0);
            lemma_compact_elems(s, i + 1, a, a.len() as int);
            assert(a.take(a.len() as int) =~= a);
            lemma_text_at_split(s, i + 1, body, seq![']']);
            lemma_text_at_char(s, i + 1 + body.len(), seq![']'], 0);
            assert(skip_seps(s, i + 1 + body.len()) == i + 1 + body.len());
            assert(skip_ws(s, i) == i);
        },
        Tree::Object(m) => {
            let body = compact_members(m);
            assert(compact(t) == seq!['{'] + (body + seq!['}']));
            lemma_text_at_split(s, i, seq!['{'], body + seq!['}']);
            lemma_text_at_char(s, i, seq!['{'], 0);
            lemma_compact_members(s, i + 1, m, m.len() as int);
            assert(m.take(m.len() as int) =~= m);
            lemma_text_at_split(s, i + 1, body, seq!['}']);
            lemma_text_at_char(s, i + 1 + body.len(), seq!['}'], 0);
            assert(skip_seps(s, i + 1 + body.len()) == i + 1 + body.len());
            assert(skip_ws(s, i) == i);
        },
        _ => lemma_scalar(s, i, t),
    }
}

pub open spec fn all_spaces(ind: Seq<char>) -> bool {
    forall|k: int| 0 <= k < ind.len() ==> #[trigger] ind[k] == ' '
}

pub open spec fn deeper(ind: Seq<char>) -> Seq<char> {
    ind + seq![' ', ' ']
}

proof fn lemma_deeper(ind: Seq<char>)
    requires
        all_spaces(ind),
    ensures
        all_spaces(deeper(ind)),
{
    assert forall|k: int| 0 <= k < deeper(ind).len() implies #[trigger] deeper(ind)[k] == ' ' by {
        if k < ind.len() {
            assert(deeper(ind)[k] == ind[k]);
        }
    }
}

/// A line break and an indentation: only whitespace.
proof fn lemma_skip_break(s: Seq<char>, p: int, ind: Seq<char>)
    requires
        all_spaces(ind),
        text_at(s, p, seq!['\n'] + ind),
        p + 1 + ind.len() < s.len(),
        !is_ws(s[p + 1 + ind.len()]) && s[p + 1 + ind.len()] != ',',
    ensures
        skip_seps(s, p) == p + 1 + ind.len(),
{
    assert forall|k: int| p <= k < p + 1 + ind.len() implies is_ws(#[trigger] s[k]) || s[k]
        == ',' by {
        lemma_text_at_char(s, p, seq!['\n'] + ind, k - p);
    }
    lemma_skip_seps_run(s, p, p + 1 + ind.len());
}

proof fn lemma_pe_step(a: Seq<Tree>, k: int, ind: Seq<char>)
    requires
        1 <= k <= a.len(),
    ensures
        pretty_elems(a.take(k), ind) == pretty_elems(a.take(k - 1), ind) + ((seq!['\n'] + deeper(
            ind,
        )) + pretty(a[k - 1], deeper(ind))),
{
    let t = a.take(k);
    assert(t.drop_last() =~= a.take(k - 1));
    assert(t.last() == a[k - 1]);
    assert(pretty_elems(t, ind) =~= pretty_elems(a.take(k - 1), ind) + ((seq!['\n'] + deeper(ind))
        + pretty(a[k - 1], deeper(ind))));
}

proof fn lemma_pe_prefix(a: Seq<Tree>, k: int, ind: Seq<char>)
    requires
        0 <= k <= a.len(),
    ensures
        pretty_elems(a.take(k), ind).len() <= pretty_elems(a, ind).len(),
        pretty_elems(a, ind).subrange(0, pretty_elems(a.take(k), ind).len() as int)
            == pretty_elems(a.take(k), ind),
    decreases a.len() - k,
{
    if k == a.len() {
        assert(a.take(k) =~= a);
        assert(pretty_elems(a, ind).subrange(0, pretty_elems(a, ind).len() as int)
            =~= pretty_elems(a, ind));
    } else {
        lemma_pe_prefix(a, k + 1, ind);
        lemma_pe_step(a, k + 1, ind);
        let x = pretty_elems(a.take(k), ind);
        let y = pretty_elems(a.take(k + 1), ind);
        assert(y.subrange(0, x.len() as int) =~= x);
        assert(pretty_elems(a, ind).subrange(0, x.len() as int) =~= y.subrange(
            0,
            x.len() as int,
        ));
    }
}

proof fn lemma_pretty_elems(s: Seq<char>, i: int, a: Seq<Tree>, ind: Seq<char>, k: int)
    requires
        all_spaces(ind),
        forall|j: int| 0 <= j < a.len() ==> tree_wf(#[trigger] a[j]),
        0 <= k <= a.len(),
        text_at(s, i, pretty_elems(a, ind) + seq!['\n']),
    ensures
        parse_elems(s, i, Seq::empty()) == parse_elems(
            s,
            i + pretty_elems(a.take(k), ind).len(),
            a.take(k),
        ),
    decreases a, k,
{
    if k == 0 {
        assert(a.take(0) =~= Seq::<Tree>::empty());
    } else {
        lemma_pretty_elems(s, i, a, ind, k - 1);
        lemma_pe_step(a, k, ind);
        lemma_pe_prefix(a, k, ind);
        lemma_deeper(ind);
        let d = deeper(ind);
        let prev = pretty_elems(a.take(k - 1), ind);
        let cur = pretty_elems(a.take(k), ind);
        let sep = seq!['\n'] + d;
        let el = pretty(a[k - 1], d);
        let p0 = i + prev.len();
        let q = p0 + sep.len();
        lemma_text_at_split(s, i, pretty_elems(a, ind), seq!['\n']);
        lemma_text_at_prefix(s, i, pretty_elems(a, ind), cur.len() as int);
        assert(pretty_elems(a, ind).subrange(0, cur.len() as int) == cur);
        assert(cur == (prev + sep) + el);
        lemma_text_at_split(s, i, prev + sep, el);
        lemma_text_at_split(s, i, prev, sep);
        lemma_first(a[k - 1], d);
        lemma_text_at_char(s, q, el, 0);
        lemma_skip_break(s, p0, d);
        if k < a.len() {
            lemma_pe_step(a, k + 1, ind);
            lemma_pe_prefix(a, k + 1, ind);
            let nxt = pretty_elems(a.take(k + 1), ind);
            lemma_text_at_prefix(s, i, pretty_elems(a, ind), nxt.len() as int);
            assert(pretty_elems(a, ind).subrange(0, nxt.len() as int) == nxt);
            lemma_text_at_char(s, i, nxt, cur.len() as int);
        } else {
            assert(a.take(k) =~= a);
            lemma_text_at_char(s, i + pretty_elems(a, ind).len(), seq!['\n'], 0);
        }
        lemma_pretty(s, q, a[k - 1], d);
        assert(a.take(k - 1).push(a[k - 1]) =~= a.take(k));
    }
}

pub open spec fn pretty_pair(k: Seq<char>, v: Tree, ind: Seq<char>) -> Seq<char> {
    key_text(k) + seq![' ', '=', ' '] + pretty(v, ind)
}

proof fn lemma_pm_step(m: Seq<(Seq<char>, Tree)>, k: int, ind: Seq<char>)
    requires
        1 <= k <= m.len(),
    ensures
        pretty_members(m.take(k), ind) == pretty_members(m.take(k - 1), ind) + ((seq!['\n']
            + deeper(ind)) + pretty_pair(m[k - 1].0, m[k - 1].1, deeper(ind))),
{
    let t = m.take(k);
    assert(t.drop_last() =~= m.take(k - 1));
    assert(t.last() == m[k - 1]);
    assert(pretty_members(t, ind) =~= pretty_members(m.take(k - 1), ind) + ((seq!['\n'] + deeper(
        ind,
    )) + pretty_pair(m[k - 1].0, m[k - 1].1, deeper(ind))));
}

proof fn lemma_pm_prefix(m: Seq<(Seq<char>, Tree)>, k: int, ind: Seq<char>)
    requires
        0 <= k <= m.len(),
    ensures
        pretty_members(m.take(k), ind).len() <= pretty_members(m, ind).len(),
        pretty_members(m, ind).subrange(0, pretty_members(m.take(k), ind).len() as int)
            == pretty_members(m.take(k), ind),
    decreases m.len() - k,
{
    if k == m.len() {
        assert(m.take(k) =~= m);
        assert(pretty_members(m, ind).subrange(0, pretty_members(m, ind).len() as int)
            =~= pretty_members(m, ind));
    } else {
        lemma_pm_prefix(m, k + 1, ind);
        lemma_pm_step(m, k + 1, ind);
        let x = pretty_members(m.take(k), ind);
        let y = pretty_members(m.take(k + 1), ind);
        assert(y.subrange(0, x.len() as int) =~= x);
        assert(pretty_members(m, ind).subrange(0, x.len() as int) =~= y.subrange(
            0,
            x.len() as int,
        ));
    }
}

#[verifier::rlimit(100)]
proof fn lemma_pretty_members(
    s: Seq<char>,
    i: int,
    m: Seq<(Seq<char>, Tree)>,
    ind: Seq<char>,
    k: int,
)
    requires
        all_spaces(ind),
        keys_unique(m),
        forall|j: int| 0 <= j < m.len() ==> tree_wf(#[trigger] m[j].1),
        0 <= k <= m.len(),
        text_at(s, i, pretty_members(m, ind) + seq!['\n']),
    ensures
        parse_members(s, i, Seq::empty()) == parse_members(
            s,
            i + pretty_members(m.take(k), ind).len(),
            m.take(k),
        ),
    decreases m, k,
{
    if k == 0 {
        assert(m.take(0) =~= Seq::<(Seq<char>, Tree)>::empty());
    } else {
        lemma_pretty_members(s, i, m, ind, k - 1);
        lemma_pm_step(m, k, ind);
        lemma_pm_prefix(m, k, ind);
        lemma_deeper(ind);
        let d = deeper(ind);
        let prev = pretty_members(m.take(k - 1), ind);
        let cur = pretty_members(m.take(k), ind);
        let sep = seq!['\n'] + d;
        let key = m[k - 1].0;
        let v = m[k - 1].1;
        let kt = key_text(key);
        let vt = pretty(v, d);
        let p0 = i + prev.len();
        let q = p0 + sep.len();
        let p = q + kt.len();
        lemma_text_at_split(s, i, pretty_members(m, ind), seq!['\n']);
        lemma_text_at_prefix(s, i, pretty_members(m, ind), cur.len() as int);
        assert(pretty_members(m, ind).subrange(0, cur.len() as int) == cur);
        assert(cur == (prev + sep) + (kt + (seq![' ', '=', ' '] + vt)));
        lemma_text_at_split(s, i, prev + sep, kt + (seq![' ', '=', ' '] + vt));
        lemma_text_at_split(s, i, prev, sep);
        lemma_text_at_split(s, q, kt, seq![' ', '=', ' '] + vt);
        lemma_text_at_split(s, p, seq![' ', '=', ' '], vt);
        lemma_text_at_char(s, p, seq![' ', '=', ' '], 0);
        lemma_text_at_char(s, p, seq![' ', '=', ' '], 1);
        lemma_text_at_char(s, p, seq![' ', '=', ' '], 2);
        lemma_key(s, q, key);
        lemma_first(v, d);
        lemma_text_at_char(s, p + 3, vt, 0);
        lemma_skip_break(s, p0, d);
        if k < m.len() {
            lemma_pm_step(m, k + 1, ind);
            lemma_pm_prefix(m, k + 1, ind);
            let nxt = pretty_members(m.take(k + 1), ind);
            lemma_text_at_prefix(s, i, pretty_members(m, ind), nxt.len() as int);
            assert(pretty_members(m, ind).subrange(0, nxt.len() as int) == nxt);
            lemma_text_at_char(s, i, nxt, cur.len() as int);
        } else {
            assert(m.take(k) =~= m);
            lemma_text_at_char(s, i + pretty_members(m, ind).len(), seq!['\n'], 0);
        }
        lemma_pretty(s, p + 3, v, d);
        assert(skip_ws(s, p + 3) == p + 3);
        assert(skip_ws(s, p + 2) == p + 3);
        assert(skip_ws(s, p + 1) == p + 1);
        assert(skip_ws(s, p) == p + 1);
        assert(parse_value(s, p + 2) == parse_value(s, p + 3));
        assert forall|j: int| 0 <= j < m.take(k - 1).len() implies (#[trigger] m.take(k - 1)[j]).0
            != key by {
            assert(m[j].0 != m[k - 1].0);
        }
        lemma_key_absent(m.take(k - 1), key, 0);
        assert(m.take(k - 1).push((key, v)) =~= m.take(k));
        assert(insert_pair(m.take(k - 1), key, v) == m.take(k));
    }
}

proof fn lemma_pretty_array(s: Seq<char>, i: int, t: Tree, ind: Seq<char>)
    requires
        t is Array,
        tree_wf(t),
        all_spaces(ind),
        text_at(s, i, pretty(t, ind)),
        ends_token(s, i + pretty(t, ind).len()),
    ensures
        parse_value(s, i) == Ok::<(Tree, int), (crate::error::ErrorCode, int)>(
            (t, i + pretty(t, ind).len()),
        ),
    decreases t, 1int,
{
    let a = t->Array_0;
        lemma_text_at_char(s, i, pretty(t, ind), 0);
        assert(skip_ws(s, i) == i);
        assert(s[i] == '[');
        assert(parse_value(s, i) == parse_elems(s, i + 1, Seq::empty()));
        if a.len() == 0 {
            assert(pretty(t, ind) == seq!['[', ']']);
            lemma_text_at_char(s, i, pretty(t, ind), 1);
            assert(skip_seps(s, i + 1) == i + 1);
            assert(a =~= Seq::empty());
        } else {
            let body = pretty_elems(a, ind);
            let close = seq!['\n'] + ind + seq![']'];
            assert(pretty(t, ind) =~= seq!['['] + ((body + seq!['\n']) + (ind + seq![']'])));
            lemma_text_at_split(s, i, seq!['['], (body + seq!['\n']) + (ind + seq![']']));
            lemma_text_at_split(s, i + 1, body + seq!['\n'], ind + seq![']']);
            lemma_pretty_elems(s, i + 1, a, ind, a.len() as int);
            assert(a.take(a.len() as int) =~= a);
            let e = i + 1 + body.len();
            lemma_text_at_split(s, i + 1, body, seq!['\n']);
            lemma_text_at_split(s, e + 1, ind, seq![']']);
            lemma_text_at_char(s, e + 1 + ind.len(), seq![']'], 0);
            assert(text_at(s, e, seq!['\n'] + ind)) by {
                assert(s.subrange(e, e + 1 + ind.len()) =~= seq!['\n'] + ind) by {
                    assert forall|k: int| 0 <= k < 1 + ind.len() implies s.subrange(
                        e,
                        e + 1 + ind.len(),
                    )[k] == (seq!['\n'] + ind)[k] by {
                        if k == 0 {
                            lemma_text_at_char(s, e, seq!['\n'], 0);
                        } else {
                            lemma_text_at_char(s, e + 1, ind, k - 1);
                        }
                    }
                }
            }
            lemma_skip_break(s, e, ind);
            assert(parse_elems(s, e, a) == Ok::<(Tree, int), (crate::error::ErrorCode, int)>(
                (Tree::Array(a), e + 2 + ind.len()),
            ));
        }
}

proof fn lemma_pretty_object(s: Seq<char>, i: int, t: Tree, ind: Seq<char>)
    requires
        t is Object,
        tree_wf(t),
        all_spaces(ind),
        text_at(s, i, pretty(t, ind)),
        ends_token(s, i + pretty(t, ind).len()),
    ensures
        parse_value(s, i) == Ok::<(Tree, int), (crate::error::ErrorCode, int)>(
            (t, i + pretty(t, ind).len()),
        ),
    decreases t, 1int,
{
    let m = t->Object_0;
        lemma_text_at_char(s, i, pretty(t, ind), 0);
        assert(skip_ws(s, i) == i);
        assert(s[i] == '{');
        assert(parse_value(s, i) == parse_members(s, i + 1, Seq::empty()));
        if m.len() == 0 {
            assert(pretty(t, ind) == seq!['{', '}']);
            lemma_text_at_char(s, i, pretty(t, ind), 1);
            assert(skip_seps(s, i + 1) == i + 1);
            assert(m =~= Seq::empty());
        } else {
            let body = pretty_members(m, ind);
            assert(pretty(t, ind) =~= seq!['{'] + ((body + seq!['\n']) + (ind + seq!['}'])));
            lemma_text_at_split(s, i, seq!['{'], (body + seq!['\n']) + (ind + seq!['}']));
            lemma_text_at_split(s, i + 1, body + seq!['\n'], ind + seq!['}']);
            lemma_pretty_members(s, i + 1, m, ind, m.len() as int);
            assert(m.take(m.len() as int) =~= m);
            let e = i + 1 + body.len();
            lemma_text_at_split(s, i + 1, body, seq!['\n']);
            lemma_text_at_split(s, e + 1, ind, seq!['}']);
            lemma_text_at_char(s, e + 1 + ind.len(), seq!['}'], 0);
            assert(text_at(s, e, seq!['\n'] + ind)) by {
                assert(s.subrange(e, e + 1 + ind.len()) =~= seq!['\n'] + ind) by {
                    assert forall|k: int| 0 <= k < 1 + ind.len() implies s.subrange(
                        e,
                        e + 1 + ind.len(),
                    )[k] == (seq!['\n'] + ind)[k] by {
                        if k == 0 {
                            lemma_text_at_char(s, e, seq!['\n'], 0);
                        } else {
                            lemma_text_at_char(s, e + 1, ind, k - 1);
                        }
                    }
                }
            }
            lemma_skip_break(s, e, ind);
            assert(parse_members(s, e, m) == Ok::<(Tree, int), (crate::error::ErrorCode, int)>(
                (Tree::Object(m), e + 2 + ind.len()),
            ));
        }
}

/// The pretty text of a well-formed tree, indented by `ind`, reads back as
/// the tree wherever it stands, as long as no bare-token character follows it.
pub proof fn lemma_pretty(s: Seq<char>, i: int, t: Tree, ind: Seq<char>)
    requires
        tree_wf(t),
        all_spaces(ind),
        text_at(s, i, pretty(t, ind)),
        ends_token(s, i + pretty(t, ind).len()),
    ensures
        parse_value(s, i) == Ok::<(Tree, int), (crate::error::ErrorCode, int)>(
            (t, i + pretty(t, ind).len()),
        ),
    decreases t, 2int,
{
    match t {
        Tree::Array(_) => lemma_pretty_array(s, i, t, ind),
        Tree::Object(_) => lemma_pretty_object(s, i, t, ind),
        _ => lemma_scalar(s, i, t),
    }
}

proof fn lemma_whole(s: Seq<char>)
    ensures
        text_at(s, 0, s),
        ends_token(s, s.len() as int),
        skip_ws(s, s.len() as int) == s.len(),
{
    assert(s.subrange(0, s.len() as int) =~= s);
}

/// Reading the pretty text of a well-formed value gives the value back.
pub proof fn law_round_trip_pretty(v: Value)
    requires
        tree_wf(v@),
    ensures
        parse_document(pretty(v@, Seq::empty())) == Ok::<Tree, (crate::error::ErrorCode, int)>(v@),
{
    let s = pretty(v@, Seq::empty());
    lemma_whole(s);
    lemma_pretty(s, 0, v@, Seq::empty());
}

/// Reading the compact text of a well-formed value gives the value back.
pub proof fn law_round_trip_compact(v: Value)
    requires
        tree_wf(v@),
    ensures
        parse_document(compact(v@)) == Ok::<Tree, (crate::error::ErrorCode, int)>(v@),
{
    let s = compact(v@);
    lemma_whole(s);
    lemma_compact(s, 0, v@);
}

/// Pretty text is a canonical form: reading it and rendering the result again
/// gives the same text.
pub proof fn law_pretty_rerender(v: Value)
    requires
        tree_wf(v@),
    ensures
        parse_document(pretty(v@, Seq::empty())) matches Ok(t) && pretty(t, Seq::empty()) == pretty(
            v@,
            Seq::empty(),
        ),
{
    law_round_trip_pretty(v);
}

/// Any text that reads as a tree has a canonical form in each mode: the
/// rendering of that tree, which reads back as the same tree.
pub proof fn law_read_then_render(s: Seq<char>)
    ensures
        parse_document(s) matches Ok(t) ==> tree_wf(t) && parse_document(pretty(t, Seq::empty()))
            == Ok::<Tree, (crate::error::ErrorCode, int)>(t) && parse_document(compact(t)) == Ok::<
            Tree,
            (crate::error::ErrorCode, int),
        >(t),
{
    lemma_value_wf(s, 0);
    if let Ok(t) = parse_document(s) {
        let p = pretty(t, Seq::empty());
        lemma_whole(p);
        lemma_pretty(p, 0, t, Seq::empty());
        let c = compact(t);
        lemma_whole(c);
        lemma_compact(c, 0, t);
    }
}

} // verus!
