//! A JSON document as a tree of plain values, with option-returning
//! accessors. Numbers carry both their reading as a u64 (when the document
//! holds an integral value in range) and the decimal text they were written
//! with, so no floating point runs through the verified logic.
use vstd::prelude::*;

use crate::strings::str_eq;

verus! {

/// One node of a decoded JSON document.
pub enum JNode {
    Null,
    Bool(bool),
    /// `uint` is the value as an unsigned integer where the document holds
    /// one; `repr` is the number's decimal rendering.
    Num { uint: Option<u64>, repr: String },
    Text(String),
    Arr(Vec<JNode>),
    Obj(Vec<(String, JNode)>),
}

/// The value under `key` among object entries: the first binding wins.
pub open spec fn lookup_entries(entries: Seq<(String, JNode)>, key: Seq<char>) -> Option<JNode>
    decreases entries.len(),
{
    if entries.len() == 0 {
        None
    } else if entries.first().0@ == key {
        Some(entries.first().1)
    } else {
        lookup_entries(entries.drop_first(), key)
    }
}

/// The value under `key` of an object node; `None` on any other node.
pub open spec fn jget(n: JNode, key: Seq<char>) -> Option<JNode> {
    match n {
        JNode::Obj(entries) => lookup_entries(entries@, key),
        _ => None,
    }
}

impl JNode {
    /// Field access on an object node, `None` elsewhere: the safe accessor
    /// that the extraction path chains together.
    pub fn get<'a>(&'a self, key: &str) -> (r: Option<&'a JNode>)
        ensures
            match r {
                Some(v) => jget(*self, key@) == Some(*v),
                None => jget(*self, key@) is None,
            },
    {
        match self {
            JNode::Obj(entries) => {
                let mut i: usize = 0;
                proof {
                    assert(entries@.skip(0) =~= entries@);
                }
                while i < entries.len()
                    invariant
                        i <= entries@.len(),
                        *self == JNode::Obj(*entries),
                        lookup_entries(entries@, key@) == lookup_entries(
                            entries@.skip(i as int),
                            key@,
                        ),
                    decreases entries@.len() - i,
                {
                    proof {
                        assert(entries@.skip(i as int).first() == entries@[i as int]);
                        assert(entries@.skip(i as int).drop_first() =~= entries@.skip(i as int + 1));
                    }
                    if str_eq(entries[i].0.as_str(), key) {
                        proof {
                            assert(entries@.skip(i as int).len() > 0);
                            assert(entries@.skip(i as int).first().0@ == key@);
                            assert(lookup_entries(entries@.skip(i as int), key@) == Some(
                                entries@[i as int].1,
                            ));
                        }
                        return Some(&entries[i].1);
                    }
                    i = i + 1;
                }
                proof {
                    assert(entries@.skip(entries@.len() as int) =~= Seq::<(String, JNode)>::empty());
                }
                None
            },
            _ => None,
        }
    }

    /// The elements of an array node.
    pub fn as_array(&self) -> (r: Option<&Vec<JNode>>)
        ensures
            match r {
                Some(v) => *self == JNode::Arr(*v),
                None => !(*self is Arr),
            },
    {
        match self {
            JNode::Arr(v) => Some(v),
            _ => None,
        }
    }

    /// The unsigned-integer reading of a number node.
    pub fn as_u64(&self) -> (r: Option<u64>)
        ensures
            r == spec_as_u64(*self),
    {
        match self {
            JNode::Num { uint, repr: _ } => *uint,
            _ => None,
        }
    }

    /// The text of a string node.
    pub fn as_text(&self) -> (r: Option<&String>)
        ensures
            match r {
                Some(s) => *self == JNode::Text(*s),
                None => !(*self is Text),
            },
    {
        match self {
            JNode::Text(s) => Some(s),
            _ => None,
        }
    }

    /// The decimal rendering of a number node.
    pub fn num_repr(&self) -> (r: Option<&String>)
        ensures
            match r {
                Some(s) => spec_num_repr(*self) == Some(*s),
                None => spec_num_repr(*self) is None,
            },
    {
        match self {
            JNode::Num { uint: _, repr } => Some(repr),
            _ => None,
        }
    }
}

/// The unsigned-integer reading of a number node, if any.
pub open spec fn spec_as_u64(n: JNode) -> Option<u64> {
    match n {
        JNode::Num { uint, repr } => uint,
        _ => None,
    }
}

/// The decimal rendering of a number node, if the node is a number.
pub open spec fn spec_num_repr(n: JNode) -> Option<String> {
    match n {
        JNode::Num { uint, repr } => Some(repr),
        _ => None,
    }
}

#[verifier::external_type_specification]
#[verifier::external_body]
pub struct ExValue(serde_json::Value);

/// The tree a well-formed JSON text decodes to, or `None` where the text is
/// not valid JSON. Decoding is a function of the text alone.
pub uninterp spec fn json_tree_of(text: Seq<char>) -> Option<JNode>;

/// Relies on serde_json::from_str: decodes the text as a JSON document and
/// fails exactly on malformed input. The tree is rebuilt with each number
/// carried as serde_json's u64 reading (where the value is an unsigned
/// integer) plus its decimal rendering.
#[verifier::external_body]
pub fn parse_json_text(text: &str) -> (r: Option<JNode>)
    ensures
        r == json_tree_of(text@),
{
    serde_json::from_str::<serde_json::Value>(text).ok().map(node_from_value)
}

/// Relies on serde_json::Value's public variants: moves the decoded document
/// into the library's tree, arm by arm.
#[verifier::external_body]
fn node_from_value(v: serde_json::Value) -> JNode {
    match v {
        serde_json::Value::Null => JNode::Null,
        serde_json::Value::Bool(b) => JNode::Bool(b),
        serde_json::Value::Number(n) => JNode::Num { uint: n.as_u64(), repr: n.to_string() },
        serde_json::Value::String(s) => JNode::Text(s),
        serde_json::Value::Array(a) => JNode::Arr(a.into_iter().map(node_from_value).collect()),
        serde_json::Value::Object(m) => JNode::Obj(
            m.into_iter().map(|(k, val)| (k, node_from_value(val))).collect(),
        ),
    }
}

} // verus!
