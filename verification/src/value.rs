//! The value tree: a JSON document in memory, and what it stands for.
use vstd::prelude::*;
use crate::grammar::{collected, number_literal};

verus! {

/// A JSON document as a mathematical value: what a [`Value`] stands for.
pub enum Json {
    Null,
    Bool(bool),
    /// A number, given by its decimal literal.
    Number(Seq<char>),
    /// A string, given by its characters with every escape resolved.
    String(Seq<char>),
    /// An object, given by its members in the order in which they are kept.
    Object(Seq<(Seq<char>, Json)>),
    Array(Seq<Json>),
}

/// No two members have the same key.
pub open spec fn distinct_keys(members: Seq<(Seq<char>, Json)>) -> bool {
    forall|i: int, j: int|
        0 <= i < j < members.len() ==> (#[trigger] members[i]).0 != (#[trigger] members[j]).0
}

impl Json {
    /// Every number is a JSON number literal and no object has a key twice,
    /// at any depth.
    pub open spec fn well_formed(self) -> bool
        decreases self,
    {
        match self {
            Json::Number(n) => number_literal(n),
            Json::Object(members) => {
                &&& distinct_keys(members)
                &&& forall|i: int|
                    0 <= i < members.len() ==> (#[trigger] members[i]).1.well_formed()
            },
            Json::Array(items) => forall|i: int|
                0 <= i < items.len() ==> (#[trigger] items[i]).well_formed(),
            _ => true,
        }
    }
}

/// Each element as it is read back.
pub open spec fn normalized_items(items: Seq<Json>) -> Seq<Json>
    decreases items, 1nat,
{
    Seq::new(
        items.len(),
        |i: int|
            if 0 <= i < items.len() {
                items[i].normalized()
            } else {
                Json::Null
            },
    )
}

/// Each member with its value as it is read back.
pub open spec fn normalized_members(members: Seq<(Seq<char>, Json)>) -> Seq<(Seq<char>, Json)>
    decreases members, 1nat,
{
    Seq::new(
        members.len(),
        |i: int|
            if 0 <= i < members.len() {
                (members[i].0, members[i].1.normalized())
            } else {
                (Seq::empty(), Json::Null)
            },
    )
}

impl Json {
    /// The document as it is read back from its text: a number that is no
    /// JSON number literal has become `null`, and of two members with one key
    /// the later one has given the earlier one its value. A well-formed
    /// document is its own normal form.
    pub open spec fn normalized(self) -> Json
        decreases self, 0nat,
    {
        match self {
            Json::Number(n) => if number_literal(n) {
                self
            } else {
                Json::Null
            },
            Json::Object(members) => Json::Object(collected(normalized_members(members))),
            Json::Array(items) => Json::Array(normalized_items(items)),
            _ => self,
        }
    }
}

/// A JSON document in memory.
///
/// The tree owns all its parts: a node is built from finished children and
/// never changed afterwards.
#[derive(Debug, PartialEq)]
pub enum Value {
    Null,
    Bool(bool),
    /// A number, kept as the decimal literal that spells it, so that nothing
    /// is rounded: `1.50` stays `1.50`. The literal of a number that was read
    /// is a JSON number; one that is not is written as `null`.
    Number(String),
    /// A string of Unicode scalar values.
    String(String),
    /// An object: its members, each key once. The reader keeps the members in
    /// the order in which their keys first came, and a key that comes again
    /// replaces the value of the member that has it.
    Object(Vec<(String, Value)>),
    Array(Vec<Value>),
}

/// What the elements of an array stand for.
pub open spec fn array_view(a: Seq<Value>) -> Seq<Json>
    decreases a, 1nat,
{
    Seq::new(
        a.len(),
        |i: int|
            if 0 <= i < a.len() {
                a[i].view()
            } else {
                Json::Null
            },
    )
}

/// What the members of an object stand for.
pub open spec fn object_view(o: Seq<(String, Value)>) -> Seq<(Seq<char>, Json)>
    decreases o, 1nat,
{
    Seq::new(
        o.len(),
        |i: int|
            if 0 <= i < o.len() {
                (o[i].0@, o[i].1.view())
            } else {
                (Seq::empty(), Json::Null)
            },
    )
}

impl View for Value {
    type V = Json;

    open spec fn view(&self) -> Json
        decreases self, 0nat,
    {
        match self {
            Value::Null => Json::Null,
            Value::Bool(b) => Json::Bool(*b),
            Value::Number(n) => Json::Number(n@),
            Value::String(s) => Json::String(s@),
            Value::Object(o) => {
                proof {
                    assert(decreases_to!(o => o@));
                }
                Json::Object(object_view(o@))
            },
            Value::Array(a) => {
                proof {
                    assert(decreases_to!(a => a@));
                }
                Json::Array(array_view(a@))
            },
        }
    }
}

impl Clone for Value {
    /// A deep copy: the copy stands for the same document and shares nothing.
    fn clone(&self) -> (r: Self)
        ensures
            r@ == self@,
        decreases self,
    {
        match self {
            Value::Null => Value::Null,
            Value::Bool(b) => Value::Bool(*b),
            Value::Number(n) => Value::Number(n.clone()),
            Value::String(s) => Value::String(s.clone()),
            Value::Object(o) => {
                let mut out: Vec<(String, Value)> = Vec::new();
                let mut i: usize = 0;
                while i < o.len()
                    invariant
                        i <= o.len(),
                        out.len() == i,
                        decreases_to!(self => o),
                        object_view(out@) == object_view(o@).take(i as int),
                    decreases o.len() - i,
                {
                    proof {
                        assert(decreases_to!(o => o[i as int]));
                    }
                    let key = o[i].0.clone();
                    let val = o[i].1.clone();
                    out.push((key, val));
                    i = i + 1;
                    assert(object_view(out@) =~= object_view(o@).take(i as int));
                }
                assert(object_view(out@) =~= object_view(o@));
                Value::Object(out)
            },
            Value::Array(a) => {
                let mut out: Vec<Value> = Vec::new();
                let mut i: usize = 0;
                while i < a.len()
                    invariant
                        i <= a.len(),
                        out.len() == i,
                        decreases_to!(self => a),
                        array_view(out@) == array_view(a@).take(i as int),
                    decreases a.len() - i,
                {
                    proof {
                        assert(decreases_to!(a => a[i as int]));
                    }
                    out.push(a[i].clone());
                    i = i + 1;
                    assert(array_view(out@) =~= array_view(a@).take(i as int));
                }
                assert(array_view(out@) =~= array_view(a@));
                Value::Array(out)
            },
        }
    }
}

impl Default for Value {
    /// The default value is `null`.
    fn default() -> (r: Self)
        ensures
            r == Value::Null,
    {
        Value::Null
    }
}

} // verus!
