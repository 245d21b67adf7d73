//! Represents a command sent by a client

use vstd::prelude::*;
use vstd::string::*;

use crate::json_text::{json_text, parse_json, precise_time_ns};
use crate::node::{update_json, Update};
use crate::path::{path_json, Path};
use crate::value::{
    items_view, json_view, lemma_items_view, opt_json_view, Json, JsonV, Leaf,
};

verus! {

#[derive(Clone, Copy, Debug, PartialEq, Eq, Structural)]
pub enum Call {
    Bind,
    Kill,
    Read,
    Write,
}

#[derive(Debug, PartialEq)]
pub struct Command {
    pub id: u64,
    pub call: Call,
    pub path: Path,
    pub params: Json,
    pub timestamp: u64,
}

/// A JSON value read as an unsigned integer.
pub open spec fn json_u64(j: JsonV) -> Option<u64> {
    match j {
        JsonV::Scalar(Leaf::U64(n)) => Some(n),
        JsonV::Scalar(Leaf::I64(i)) => if i >= 0 {
            Some(i as u64)
        } else {
            None
        },
        _ => None,
    }
}

/// A JSON value read as a string.
pub open spec fn json_str(j: JsonV) -> Option<Seq<char>> {
    match j {
        JsonV::Scalar(Leaf::String(s)) => Some(s@),
        _ => None,
    }
}

/// A JSON value read as an array.
pub open spec fn json_array(j: JsonV) -> Option<Seq<JsonV>> {
    match j {
        JsonV::Array(a) => Some(a),
        _ => None,
    }
}

/// The call a name stands for.
pub open spec fn call_named(name: Seq<char>) -> Option<Call> {
    if name == "bind"@ {
        Some(Call::Bind)
    } else if name == "kill"@ {
        Some(Call::Kill)
    } else if name == "read"@ {
        Some(Call::Read)
    } else if name == "write"@ {
        Some(Call::Write)
    } else {
        None
    }
}

/// All items are strings.
pub open spec fn all_strings(items: Seq<JsonV>) -> bool {
    forall|i: int| 0 <= i < items.len() ==> (#[trigger] json_str(items[i])) is Some
}

/// What a client command reads as, from its parsed JSON (`None` when the
/// text was not JSON): `[id, call, path, params]`, or the error reported.
pub open spec fn command_of(data: Option<JsonV>) -> Result<(u64, Call, Seq<Seq<char>>, JsonV), Seq<char>> {
    match data {
        None => Err("Bad JSON"@),
        Some(d) => match json_array(d) {
            None => Err("Not array"@),
            Some(items) => if items.len() != 4 {
                Err("Wrong number of elements"@)
            } else if json_u64(items[0]) is None {
                Err("Bad ID"@)
            } else if json_str(items[1]) is None {
                Err("Bad call"@)
            } else if json_array(items[2]) is None {
                Err("Bad path"@)
            } else if !all_strings(json_array(items[2])->0) {
                Err("Bad path"@)
            } else {
                match call_named(json_str(items[1])->0) {
                    None => Err("Bad call"@),
                    Some(call) => Ok(
                        (
                            json_u64(items[0])->0,
                            call,
                            json_array(items[2])->0.map_values(|p: JsonV| json_str(p)->0),
                            items[3],
                        ),
                    ),
                }
            },
        },
    }
}

/// Whether `s` reads `lit`.
pub fn text_is(s: &String, lit: &str) -> (r: bool)
    ensures
        r == (s@ == lit@),
{
    let a = s.as_str();
    let n = a.unicode_len();
    if n != lit.unicode_len() {
        return false;
    }
    let mut i: usize = 0;
    while i < n
        invariant
            n == s@.len(),
            n == lit@.len(),
            0 <= i <= n,
            a@ == s@,
            forall|j: int| 0 <= j < i ==> s@[j] == lit@[j],
        decreases n - i,
    {
        if a.get_char(i) != lit.get_char(i) {
            return false;
        }
        i = i + 1;
    }
    assert(s@ =~= lit@);
    true
}

fn bad(message: &str) -> (r: String)
    ensures
        r@ == message@,
{
    String::from_str(message)
}

impl Command {
    /// Reads a command from its parsed JSON, stamped with `timestamp`.
    pub fn from_parsed(data: Option<Json>, timestamp: u64) -> (r: Result<Command, String>)
        ensures
            match r {
                Ok(c) => command_of(opt_json_view(data)) == Ok::<_, Seq<char>>(
                    (c.id, c.call, c.path@, c.params@),
                ) && c.timestamp == timestamp,
                Err(e) => command_of(opt_json_view(data)) == Err::<(u64, Call, Seq<Seq<char>>, JsonV), _>(e@),
            },
    {
        let data = match data {
            Some(d) => d,
            None => return Err(bad("Bad JSON")),
        };
        let items = match &data {
            Json::Array(items) => items,
            _ => return Err(bad("Not array")),
        };
        proof {
            lemma_items_view(items@);
        }
        if items.len() != 4 {
            return Err(bad("Wrong number of elements"));
        }
        let id = match &items[0] {
            Json::Scalar(Leaf::U64(n)) => *n,
            Json::Scalar(Leaf::I64(i)) => if *i >= 0 {
                *i as u64
            } else {
                return Err(bad("Bad ID"));
            },
            _ => return Err(bad("Bad ID")),
        };
        let call = match &items[1] {
            Json::Scalar(Leaf::String(s)) => s,
            _ => return Err(bad("Bad call")),
        };
        let path = match &items[2] {
            Json::Array(p) => p,
            _ => return Err(bad("Bad path")),
        };
        proof {
            lemma_items_view(path@);
        }
        let ghost pv = items_view(path@);
        let mut path_string: Vec<String> = Vec::new();
        let mut i: usize = 0;
        #[verifier::loop_isolation(false)]
        while i < path.len()
            invariant
                pv == items_view(path@),
                pv.len() == path@.len(),
                0 <= i <= path@.len(),
                path_string@.len() == i,
                forall|j: int| 0 <= j < i ==> (#[trigger] json_str(pv[j])) is Some && path_string@[j]@
                    == json_str(pv[j])->0,
            decreases path@.len() - i,
        {
            proof {
                lemma_items_view(path@);
            }
            match &path[i] {
                Json::Scalar(Leaf::String(p)) => path_string.push(p.clone()),
                _ => {
                    proof {
                        assert(json_str(pv[i as int]) is None);
                    }
                    return Err(bad("Bad path"));
                },
            }
            i = i + 1;
        }
        let params = items[3].copy();
        let call = if text_is(call, "bind") {
            Call::Bind
        } else if text_is(call, "kill") {
            Call::Kill
        } else if text_is(call, "read") {
            Call::Read
        } else if text_is(call, "write") {
            Call::Write
        } else {
            return Err(bad("Bad call"));
        };
        let path = Path { path: path_string };
        proof {
            assert(path@ =~= pv.map_values(|p: JsonV| json_str(p)->0));
        }
        Ok(Command { id: id, call: call, path: path, params: params, timestamp: timestamp })
    }

    /// Reads a command sent by a client, as a JSON array
    /// `[id, call, path, params]`, stamped with the current time.
    pub fn from_json(json: &str) -> (r: Result<Command, String>)
        ensures
            match r {
                Ok(c) => command_of(json_text(json@)) == Ok::<_, Seq<char>>(
                    (c.id, c.call, c.path@, c.params@),
                ),
                Err(e) => command_of(json_text(json@)) == Err::<(u64, Call, Seq<Seq<char>>, JsonV), _>(e@),
            },
    {
        let data = parse_json(json);
        let timestamp = precise_time_ns();
        Command::from_parsed(data, timestamp)
    }

    /// Returns true if delegated data requires separate calls.
    ///
    /// Right now, only `Call::Bind` and Call::Read` fall into this category
    pub fn recursive(&self) -> (r: bool)
        ensures
            r == (self.call == Call::Bind || self.call == Call::Read),
    {
        match self.call {
            Call::Bind | Call::Read => true,
            _ => false,
        }
    }
}

/// The reply to the command numbered `id`: `[id, left, path, update]`, where
/// `left` counts the replies still to come, `path` is the zone that answered
/// and `update` is what it reported, or null.
pub fn reply_message(id: u64, left: u64, path: &Path, update: &Option<Update>) -> (r: Json)
    ensures
        r@ == JsonV::Array(
            seq![
                JsonV::Scalar(Leaf::U64(id)),
                JsonV::Scalar(Leaf::U64(left)),
                path_json(path.path@),
                match *update {
                    Some(u) => update_json(u@),
                    None => JsonV::Scalar(Leaf::Null),
                },
            ],
        ),
{
    let mut items: Vec<Json> = Vec::new();
    items.push(Json::Scalar(Leaf::U64(id)));
    items.push(Json::Scalar(Leaf::U64(left)));
    items.push(path.to_json());
    let reported = match update {
        Some(u) => u.to_json(),
        None => Json::Scalar(Leaf::Null),
    };
    items.push(reported);
    proof {
        lemma_items_view(items@);
        assert(items_view(items@) =~= seq![
            JsonV::Scalar(Leaf::U64(id)),
            JsonV::Scalar(Leaf::U64(left)),
            path_json(path.path@),
            match *update {
                Some(u) => update_json(u@),
                None => JsonV::Scalar(Leaf::Null),
            },
        ]);
    }
    Json::Array(items)
}

} // verus!
