//! The audio server's object dump, as the equalizer tools read it, and the
//! choice of the equalizer nodes that these tools manage.
use crate::de::{key_pos, key_pos_exec};
use crate::ser::{chars_of, string_of};
use crate::value::{tree_of, Tree, Value};
use vstd::prelude::*;

verus! {

/// The property that marks a node as an equalizer that these tools manage.
pub const MANAGED_PROP: &'static str = "pw-eq.managed";

/// The property that holds a node's display name.
pub const MEDIA_NAME: &'static str = "media.name";

/// The interface an object of the dump implements.
#[derive(Debug, Clone, Copy, PartialEq, Eq, Structural)]
pub enum PwObjectType {
    Core,
    Module,
    Client,
    SecurityContext,
    Profiler,
    Factory,
    Device,
    Metadata,
    Node,
    Port,
    Link,
}

/// Description of one parameter that a node offers.
#[derive(Debug)]
pub struct PwPropInfo {
    pub id: Option<String>,
    pub name: Option<String>,
    pub description: String,
    pub type_: Value,
}

/// One set of parameter values of a node.
#[derive(Debug)]
pub struct Prop {
    pub params: Vec<(String, Value)>,
    pub fields: Vec<(String, Value)>,
}

/// The parameters of an object.
#[derive(Debug)]
pub struct PwParams {
    pub enum_format: Vec<Value>,
    pub prop_info: Vec<PwPropInfo>,
    pub props: Vec<Prop>,
}

/// What the dump says of an object: its properties, parameters and the rest.
#[derive(Debug)]
pub struct PwObjectInfo {
    pub props: Vec<(String, Value)>,
    pub params: PwParams,
    pub fields: Vec<(String, Value)>,
}

/// One object of the dump.
#[derive(Debug)]
pub struct PwDumpObject {
    pub id: u32,
    pub object_type: PwObjectType,
    pub version: Option<u32>,
    pub permissions: Option<Vec<String>>,
    pub info: PwObjectInfo,
    pub props: Option<Vec<(String, Value)>>,
}

/// A managed equalizer: its node id and its name.
#[derive(Debug, PartialEq, Eq)]
pub struct EqMeta {
    pub id: u32,
    pub name: String,
}

/// The model of a property list.
pub open spec fn props_model(p: Vec<(String, Value)>) -> Seq<(Seq<char>, Tree)> {
    tree_of(Value::Object(p))->Object_0
}

/// The value of property `k`, if the list has it.
pub open spec fn prop_of(p: Vec<(String, Value)>, k: Seq<char>) -> Option<Tree> {
    let i = key_pos(props_model(p), k, 0);
    if i >= 0 {
        Some(props_model(p)[i].1)
    } else {
        None
    }
}

pub open spec fn is_managed(o: PwDumpObject) -> bool {
    prop_of(o.info.props, MANAGED_PROP@) == Some(Tree::Bool(true))
}

pub open spec fn is_eq_node(o: PwDumpObject) -> bool {
    is_managed(o) && o.object_type == PwObjectType::Node
}

/// The name shown for an equalizer: its media name where that is a string.
pub open spec fn eq_name(o: PwDumpObject) -> Seq<char> {
    match prop_of(o.info.props, MEDIA_NAME@) {
        Some(Tree::Str(s)) => s,
        _ => "Unknown"@,
    }
}

/// The managed equalizer nodes among `objs`, in order, by id and name.
pub open spec fn eq_list(objs: Seq<PwDumpObject>) -> Seq<(u32, Seq<char>)>
    decreases objs.len(),
{
    if objs.len() == 0 {
        Seq::empty()
    } else {
        let rest = eq_list(objs.drop_last());
        let o = objs.last();
        if is_eq_node(o) {
            rest.push((o.id, eq_name(o)))
        } else {
            rest
        }
    }
}

/// The value of text `t` as an unsigned 32-bit number: an optional `+`, then
/// one or more digits, at most `u32::MAX`.
pub open spec fn u32_of(t: Seq<char>) -> Option<u32> {
    let a: int = if t.len() > 0 && t[0] == '+' {
        1
    } else {
        0
    };
    if a >= t.len() || crate::de::digits_end(t, a) != t.len() || crate::de::digits_value(
        t,
        a,
        t.len() as int,
    ) > u32::MAX {
        None
    } else {
        Some(crate::de::digits_value(t, a, t.len() as int) as u32)
    }
}

/// Whether object `o` is the equalizer that `profile` names: by id where
/// the profile is a number, by media name otherwise.
pub open spec fn matches_profile(o: PwDumpObject, profile: Seq<char>) -> bool {
    is_eq_node(o) && match u32_of(profile) {
        Some(id) => o.id == id,
        None => prop_of(o.info.props, MEDIA_NAME@) == Some(Tree::Str(profile)),
    }
}

/// The first index from `i` on whose object matches `profile`, or -1.
pub open spec fn first_match(objs: Seq<PwDumpObject>, profile: Seq<char>, i: int) -> int
    decreases objs.len() - i,
{
    if i < 0 || i >= objs.len() {
        -1
    } else if matches_profile(objs[i], profile) {
        i
    } else {
        first_match(objs, profile, i + 1)
    }
}

fn prop_get<'a>(p: &'a Vec<(String, Value)>, k: &str) -> (r: Option<&'a Value>)
    ensures
        match prop_of(*p, k@) {
            Some(t) => r matches Some(v) && v@ == t,
            None => r is None,
        },
{
    let key = string_of(&chars_of(k));
    proof {
        crate::value::lemma_view_parts(Value::Object(*p));
    }
    match key_pos_exec(p, &key, Ghost(props_model(*p))) {
        Some(i) => Some(&p[i].1),
        None => None,
    }
}

/// Whether the dump marks the object as a managed equalizer.
pub fn is_managed_eq(props: &PwDumpObject) -> (r: bool)
    ensures
        r == is_managed(*props),
{
    match prop_get(&props.info.props, MANAGED_PROP) {
        Some(v) => match v {
            Value::Bool(b) => *b,
            _ => false,
        },
        None => false,
    }
}

/// The managed equalizer nodes among `objects`, in order.
pub fn select_eqs(objects: &Vec<PwDumpObject>) -> (r: Vec<EqMeta>)
    ensures
        r@.len() == eq_list(objects@).len(),
        forall|j: int|
            0 <= j < r@.len() ==> (#[trigger] r@[j]).id == eq_list(objects@)[j].0 && r@[j].name@
                == eq_list(objects@)[j].1,
{
    let mut out: Vec<EqMeta> = Vec::new();
    let mut i: usize = 0;
    while i < objects.len()
        invariant
            i <= objects.len(),
            out@.len() == eq_list(objects@.subrange(0, i as int)).len(),
            forall|j: int|
                0 <= j < out@.len() ==> (#[trigger] out@[j]).id == eq_list(
                    objects@.subrange(0, i as int),
                )[j].0 && out@[j].name@ == eq_list(objects@.subrange(0, i as int))[j].1,
        decreases objects.len() - i,
    {
        let o = &objects[i];
        assert(objects@.subrange(0, i + 1).drop_last() =~= objects@.subrange(0, i as int));
        if is_managed_eq(o) && o.object_type == PwObjectType::Node {
            let name = match prop_get(&o.info.props, MEDIA_NAME) {
                Some(Value::String(s)) => s.clone(),
                _ => string_of(&chars_of("Unknown")),
            };
            out.push(EqMeta { id: o.id, name });
        }
        i = i + 1;
    }
    assert(objects@.subrange(0, objects.len() as int) =~= objects@);
    out
}

fn u32_of_exec(t: &str) -> (r: Option<u32>)
    ensures
        r == u32_of(t@),
{
    let cs = chars_of(t);
    let a: usize = if cs.len() > 0 && cs[0] == '+' {
        1
    } else {
        0
    };
    if a >= cs.len() {
        return None;
    }
    let e = crate::de::digits_end_exec(&cs, a);
    if e != cs.len() {
        return None;
    }
    match crate::de::scale_digits(&cs, a, e, 0, u32::MAX as u64) {
        Some(v) => Some(v as u32),
        None => None,
    }
}

/// The index of the managed equalizer node that `profile` names: the node
/// with that id where the profile reads as an unsigned number, else the node
/// with that media name; the first such in order, or `None`.
pub fn find_eq_index(objects: &Vec<PwDumpObject>, profile: &str) -> (r: Option<usize>)
    ensures
        match r {
            Some(i) => i as int == first_match(objects@, profile@, 0),
            None => first_match(objects@, profile@, 0) == -1,
        },
{
    let target = u32_of_exec(profile);
    let mut i: usize = 0;
    while i < objects.len()
        invariant
            i <= objects.len(),
            target == u32_of(profile@),
            first_match(objects@, profile@, i as int) == first_match(objects@, profile@, 0),
        decreases objects.len() - i,
    {
        let o = &objects[i];
        if is_managed_eq(o) && o.object_type == PwObjectType::Node {
            let hit = match target {
                Some(id) => o.id == id,
                None => match prop_get(&o.info.props, MEDIA_NAME) {
                    Some(Value::String(s)) => s_eq_str(s, profile),
                    _ => false,
                },
            };
            if hit {
                return Some(i);
            }
        }
        i = i + 1;
    }
    None
}

fn s_eq_str(s: &String, t: &str) -> (r: bool)
    ensures
        r == (s@ == t@),
{
    let u = string_of(&chars_of(t));
    *s == u
}

} // verus!
