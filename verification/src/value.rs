//! Leaf values stored in nodes, and JSON documents handed to the store.

use vstd::prelude::*;

verus! {

/// Leaf value storable in a `Node`.
///
/// A JSON floating point number is held as the bits of its IEEE 754
/// binary64 encoding, so that it can be stored and compared as a plain value.
#[derive(Debug, PartialEq)]
pub enum Leaf {
    /// Represents a JSON null value
    Null,
    /// Represents a JSON boolean
    Bool(bool),
    /// Represents a JSON signed integer
    I64(i64),
    /// Represents a JSON unsigned integer
    U64(u64),
    /// Represents a JSON floating point number (its binary64 bits)
    F64(u64),
    /// Represents a JSON string
    String(String),
}

impl Leaf {
    /// Returns an equal copy of this value.
    pub fn copy(&self) -> (r: Leaf)
        ensures
            r == *self,
    {
        match self {
            Leaf::Null => Leaf::Null,
            Leaf::Bool(b) => Leaf::Bool(*b),
            Leaf::I64(i) => Leaf::I64(*i),
            Leaf::U64(u) => Leaf::U64(*u),
            Leaf::F64(f) => Leaf::F64(*f),
            Leaf::String(s) => Leaf::String(s.clone()),
        }
    }

    /// Returns true if this is the JSON null value.
    pub fn is_null(&self) -> (r: bool)
        ensures
            r == (*self is Null),
    {
        match self {
            Leaf::Null => true,
            _ => false,
        }
    }

    /// Builds a string value.
    pub fn from_string(s: String) -> (r: Leaf)
        ensures
            r == Leaf::String(s),
    {
        Leaf::String(s)
    }
}

/// A JSON document: a leaf value, an array or an object whose members are
/// listed with their keys.
#[derive(Debug, PartialEq)]
pub enum Json {
    Scalar(Leaf),
    Array(Vec<Json>),
    Object(Vec<(String, Json)>),
}

/// The mathematical content of a `Json` document.
pub enum JsonV {
    Scalar(Leaf),
    Array(Seq<JsonV>),
    Object(Seq<(Seq<char>, JsonV)>),
}

pub open spec fn items_view(s: Seq<Json>) -> Seq<JsonV>
    decreases s,
{
    if s.len() == 0 {
        Seq::empty()
    } else {
        let init = s.subrange(0, s.len() - 1);
        items_view(init).push(json_view(s.last()))
    }
}

pub open spec fn members_view(s: Seq<(String, Json)>) -> Seq<(Seq<char>, JsonV)>
    decreases s,
{
    if s.len() == 0 {
        Seq::empty()
    } else {
        let init = s.subrange(0, s.len() - 1);
        members_view(init).push((s.last().0@, json_view(s.last().1)))
    }
}

pub open spec fn json_view(j: Json) -> JsonV
    decreases j,
{
    match j {
        Json::Scalar(v) => JsonV::Scalar(v),
        Json::Array(a) => JsonV::Array(items_view(a@)),
        Json::Object(o) => JsonV::Object(members_view(o@)),
    }
}

impl View for Json {
    type V = JsonV;

    open spec fn view(&self) -> JsonV {
        json_view(*self)
    }
}

pub proof fn lemma_items_view(s: Seq<Json>)
    ensures
        items_view(s).len() == s.len(),
        forall|j: int| 0 <= j < s.len() ==> #[trigger] items_view(s)[j] == json_view(s[j]),
    decreases s.len(),
{
    if s.len() > 0 {
        let init = s.subrange(0, s.len() - 1);
        lemma_items_view(init);
        assert forall|j: int| 0 <= j < s.len() implies #[trigger] items_view(s)[j] == json_view(
            s[j],
        ) by {
            if j < s.len() - 1 {
                assert(init[j] == s[j]);
            }
        }
    }
}

pub proof fn lemma_members_view(s: Seq<(String, Json)>)
    ensures
        members_view(s).len() == s.len(),
        forall|j: int|
            0 <= j < s.len() ==> #[trigger] members_view(s)[j] == (s[j].0@, json_view(s[j].1)),
    decreases s.len(),
{
    if s.len() > 0 {
        let init = s.subrange(0, s.len() - 1);
        lemma_members_view(init);
        assert forall|j: int| 0 <= j < s.len() implies #[trigger] members_view(s)[j] == (
            s[j].0@,
            json_view(s[j].1),
        ) by {
            if j < s.len() - 1 {
                assert(init[j] == s[j]);
            }
        }
    }
}

pub open spec fn opt_json_view(j: Option<Json>) -> Option<JsonV> {
    match j {
        Some(j) => Some(json_view(j)),
        None => None,
    }
}

impl Json {
    /// Returns an equal copy of this document.
    pub fn copy(&self) -> (r: Json)
        ensures
            r@ == self@,
        decreases self,
    {
        match self {
            Json::Scalar(v) => Json::Scalar(v.copy()),
            Json::Array(items) => {
                let mut out: Vec<Json> = Vec::new();
                let mut i: usize = 0;
                while i < items.len()
                    invariant
                        *self == Json::Array(*items),
                        0 <= i <= items@.len(),
                        out@.len() == i,
                        forall|j: int| 0 <= j < i ==> #[trigger] json_view(out@[j]) == json_view(items@[j]),
                    decreases items@.len() - i,
                {
                    proof {
                        assert(decreases_to!(self => self->Array_0));
                        assert(decreases_to!(items => items@[i as int]));
                    }
                    out.push(items[i].copy());
                    i = i + 1;
                }
                proof {
                    lemma_items_view(out@);
                    lemma_items_view(items@);
                    assert(items_view(out@) =~= items_view(items@));
                }
                Json::Array(out)
            },
            Json::Object(members) => {
                let mut out: Vec<(String, Json)> = Vec::new();
                let mut i: usize = 0;
                while i < members.len()
                    invariant
                        *self == Json::Object(*members),
                        0 <= i <= members@.len(),
                        out@.len() == i,
                        forall|j: int|
                            0 <= j < i ==> #[trigger] out@[j].0@ == members@[j].0@ && json_view(out@[j].1)
                                == json_view(members@[j].1),
                    decreases members@.len() - i,
                {
                    proof {
                        assert(decreases_to!(self => self->Object_0));
                        assert(decreases_to!(members => members@[i as int].1));
                    }
                    out.push((members[i].0.clone(), members[i].1.copy()));
                    i = i + 1;
                }
                proof {
                    lemma_members_view(out@);
                    lemma_members_view(members@);
                    assert(members_view(out@) =~= members_view(members@));
                }
                Json::Object(out)
            },
        }
    }
}

} // verus!
