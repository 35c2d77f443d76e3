//! The value model: what the codec reads and writes, and its mathematical model.
use crate::error::{Error, ErrorCode};
use vstd::prelude::*;

verus! {

/// A number: an integer, or a decimal `mantissa * 10^exponent` that carries a
/// floating-point magnitude exactly.
#[derive(Clone, Copy, Debug, PartialEq, Eq, Hash, Structural)]
pub enum Number {
    Int(i64),
    Float { negative: bool, mantissa: u64, exponent: i32 },
}

/// The largest integer magnitude that a double holds exactly, and so the
/// largest that an integer number may have.
pub const MAX_SAFE_INT: u64 = 9007199254740991;

impl Number {
    /// An integer number; `NumberOutOfRange` past what a double holds exactly.
    pub fn from_i64(i: i64) -> (r: Result<Number, Error>)
        ensures
            -(MAX_SAFE_INT as int) <= i <= MAX_SAFE_INT ==> r == Ok::<Number, Error>(Number::Int(i)),
            !(-(MAX_SAFE_INT as int) <= i <= MAX_SAFE_INT) ==> (r matches Err(e) && e.code
                == ErrorCode::NumberOutOfRange && e.line == 0),
    {
        if -(MAX_SAFE_INT as i64) <= i && i <= MAX_SAFE_INT as i64 {
            Ok(Number::Int(i))
        } else {
            Err(Error::syntax(ErrorCode::NumberOutOfRange, 0, 0))
        }
    }

    /// An integer number; `NumberOutOfRange` past what a double holds exactly.
    pub fn from_u64(u: u64) -> (r: Result<Number, Error>)
        ensures
            u <= MAX_SAFE_INT ==> r == Ok::<Number, Error>(Number::Int(u as i64)),
            u > MAX_SAFE_INT ==> (r matches Err(e) && e.code == ErrorCode::NumberOutOfRange
                && e.line == 0),
    {
        if u <= MAX_SAFE_INT {
            Ok(Number::Int(u as i64))
        } else {
            Err(Error::syntax(ErrorCode::NumberOutOfRange, 0, 0))
        }
    }
}

/// The structured value model.
#[derive(Debug, PartialEq, Eq, Hash)]
pub enum Value {
    Null,
    Bool(bool),
    Number(Number),
    String(String),
    Array(Vec<Value>),
    Object(Vec<(String, Value)>),
}

/// The mathematical model of a [`Value`].
pub enum Tree {
    Null,
    Bool(bool),
    Number(Number),
    Str(Seq<char>),
    Array(Seq<Tree>),
    Object(Seq<(Seq<char>, Tree)>),
}

/// The model of a value: strings by their characters, collections by their
/// parts' models, in order.
pub open spec fn tree_of(v: Value) -> Tree
    decreases v,
{
    match v {
        Value::Null => Tree::Null,
        Value::Bool(b) => Tree::Bool(b),
        Value::Number(n) => Tree::Number(n),
        Value::String(s) => Tree::Str(s@),
        Value::Array(a) => Tree::Array(
            Seq::new(
                a@.len(),
                |i: int|
                    if 0 <= i < a@.len() {
                        tree_of(a@[i])
                    } else {
                        Tree::Null
                    },
            ),
        ),
        Value::Object(o) => Tree::Object(
            Seq::new(
                o@.len(),
                |i: int|
                    if 0 <= i < o@.len() {
                        (o@[i].0@, tree_of(o@[i].1))
                    } else {
                        (Seq::empty(), Tree::Null)
                    },
            ),
        ),
    }
}

impl View for Value {
    type V = Tree;

    open spec fn view(&self) -> Tree {
        tree_of(*self)
    }
}

/// A well-formed number: an integer within what a double holds exactly.
pub open spec fn number_wf(n: Number) -> bool {
    match n {
        Number::Int(i) => -(MAX_SAFE_INT as int) <= i <= MAX_SAFE_INT,
        _ => true,
    }
}

pub open spec fn keys_unique(m: Seq<(Seq<char>, Tree)>) -> bool {
    forall|i: int, j: int| 0 <= i < j < m.len() ==> #[trigger] m[i].0 != #[trigger] m[j].0
}

/// A well-formed tree: integers in the exact range, and no object with a
/// key twice. Every value that the reader gives is well-formed.
pub open spec fn tree_wf(t: Tree) -> bool
    decreases t,
{
    match t {
        Tree::Number(n) => number_wf(n),
        Tree::Array(a) => forall|i: int| 0 <= i < a.len() ==> tree_wf(#[trigger] a[i]),
        Tree::Object(m) => keys_unique(m) && forall|i: int|
            0 <= i < m.len() ==> tree_wf(#[trigger] m[i].1),
        _ => true,
    }
}

/// How the model of an array or object is made of its parts' models.
pub proof fn lemma_view_parts(v: Value)
    ensures
        v is Array ==> v@ is Array && v@->Array_0.len() == v->Array_0.len() && forall|j: int|
            0 <= j < v->Array_0.len() ==> v@->Array_0[j] == (#[trigger] v->Array_0[j])@,
        v is Object ==> v@ is Object && v@->Object_0.len() == v->Object_0.len() && forall|j: int|
            0 <= j < v->Object_0.len() ==> v@->Object_0[j] == (
            (#[trigger] v->Object_0[j]).0@,
            v->Object_0[j].1@,
        ),
{
}

} // verus!
