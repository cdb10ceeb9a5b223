//! The ledger document as serde_json reads it: an object whose member
//! "timeledger" is a list of day blocks, each block an object from dates
//! ("YYYY-MM-DD") to lists of task tuples
//! `[start "HH:MM", end "HH:MM", description, tag...]`.
use vstd::prelude::*;
use vstd::string::StringExecFns;

verus! {

#[verifier::external_type_specification]
#[verifier::external_body]
pub struct ExJsonError(serde_json::Error);

/// A task tuple, a day's tasks, and a day block as plain text.
pub type TupleView = Seq<Seq<char>>;

pub type BlockView = Seq<(Seq<char>, Seq<TupleView>)>;

/// The members of a JSON object, each with the raw text of its value, in
/// key order, if `text` is one.
pub uninterp spec fn json_members(text: Seq<char>) -> Option<Seq<(Seq<char>, Seq<char>)>>;

/// The day blocks that `text` holds, if it is a JSON list of objects from
/// strings to lists of lists of strings; each block in key order.
pub uninterp spec fn json_day_blocks(text: Seq<char>) -> Option<Seq<BlockView>>;

pub open spec fn members_view(v: Seq<(String, String)>) -> Seq<(Seq<char>, Seq<char>)> {
    v.map_values(|p: (String, String)| (p.0@, p.1@))
}

pub open spec fn tuple_view(t: Vec<String>) -> TupleView {
    t@.map_values(|s: String| s@)
}

pub open spec fn block_view(b: Vec<(String, Vec<Vec<String>>)>) -> BlockView {
    b@.map_values(|e: (String, Vec<Vec<String>>)| (e.0@, e.1@.map_values(|t: Vec<String>| tuple_view(t))))
}

pub open spec fn blocks_view(bs: Seq<Vec<(String, Vec<Vec<String>>)>>) -> Seq<BlockView> {
    bs.map_values(|b: Vec<(String, Vec<Vec<String>>)>| block_view(b))
}

/// Relies on `serde_json::from_str` into a `BTreeMap<String, Box<RawValue>>`
/// (members in key order) and on `RawValue::get`.
#[verifier::external_body]
fn object_members(text: &str) -> (r: Result<Vec<(String, String)>, serde_json::Error>)
    ensures
        r is Ok <==> json_members(text@) is Some,
        r matches Ok(v) ==> members_view(v@) == json_members(text@).unwrap(),
{
    serde_json::from_str::<std::collections::BTreeMap<String, Box<serde_json::value::RawValue>>>(text)
        .map(|m| m.into_iter().map(|(k, v)| (k, v.get().to_string())).collect())
}

/// Relies on `serde_json::from_str` into a
/// `Vec<BTreeMap<String, Vec<Vec<String>>>>` (each block in key order).
#[verifier::external_body]
fn day_blocks(text: &str) -> (r: Result<Vec<Vec<(String, Vec<Vec<String>>)>>, serde_json::Error>)
    ensures
        r is Ok <==> json_day_blocks(text@) is Some,
        r matches Ok(v) ==> blocks_view(v@) == json_day_blocks(text@).unwrap(),
{
    serde_json::from_str::<Vec<std::collections::BTreeMap<String, Vec<Vec<String>>>>>(text)
        .map(|bs| bs.into_iter().map(|b| b.into_iter().collect()).collect())
}

/// Why a text is no ledger document.
#[derive(Debug)]
pub enum DocumentError {
    /// Not a JSON object, or its "timeledger" member is not a list of day blocks.
    Syntax(serde_json::Error),
    /// The object has no "timeledger" member.
    NoTimeledger,
}

/// The raw day blocks of a ledger document.
pub struct JsonTimeledger {
    pub timeledger: Vec<Vec<(String, Vec<Vec<String>>)>>,
}

pub open spec fn key_name() -> Seq<char> {
    seq!['t', 'i', 'm', 'e', 'l', 'e', 'd', 'g', 'e', 'r']
}

/// The value text of the first member named `key`.
pub open spec fn member(ms: Seq<(Seq<char>, Seq<char>)>, key: Seq<char>) -> Option<Seq<char>>
    decreases ms.len(),
{
    if ms.len() == 0 {
        None
    } else if ms[0].0 == key {
        Some(ms[0].1)
    } else {
        member(ms.drop_first(), key)
    }
}

/// What reading `text` as a ledger document gives: `None` where it is no
/// JSON object, `Some(None)` where it has no "timeledger" member, and
/// `Some(Some(b))` where that member's text reads as the blocks `b`, if any.
pub open spec fn document(text: Seq<char>) -> Option<Option<Option<Seq<BlockView>>>> {
    match json_members(text) {
        None => None,
        Some(ms) => match member(ms, key_name()) {
            None => Some(None),
            Some(raw) => Some(Some(json_day_blocks(raw))),
        },
    }
}

impl JsonTimeledger {
    pub open spec fn view(&self) -> Seq<BlockView> {
        blocks_view(self.timeledger@)
    }

    /// Reads a ledger document.
    pub fn new(json: &String) -> (r: Result<JsonTimeledger, DocumentError>)
        ensures
            r matches Ok(d) ==> document(json@) == Some(Some(Some(d.view()))),
            r is Err ==> (r->Err_0 is NoTimeledger <==> document(json@) == Some(None::<Option<Seq<BlockView>>>)),
            r is Ok <==> (document(json@) matches Some(Some(Some(_)))),
    {
        let members = match object_members(json.as_str()) {
            Ok(m) => m,
            Err(e) => return Err(DocumentError::Syntax(e)),
        };
        proof { reveal_strlit("timeledger"); }
        let key = String::from_str("timeledger");
        let mut i: usize = 0;
        assert(members_view(members@).subrange(0, members@.len() as int) =~= members_view(members@));
        while i < members.len()
            invariant
                0 <= i <= members.len(),
                key@ == key_name(),
                members_view(members@) == json_members(json@).unwrap(),
                json_members(json@) is Some,
                member(members_view(members@), key_name())
                    == member(members_view(members@).subrange(i as int, members@.len() as int), key_name()),
            decreases members.len() - i,
        {
            let ghost rest = members_view(members@).subrange(i as int, members@.len() as int);
            assert(rest[0] == (members@[i as int].0@, members@[i as int].1@));
            if members[i].0 == key {
                return match day_blocks(members[i].1.as_str()) {
                    Ok(b) => Ok(JsonTimeledger { timeledger: b }),
                    Err(e) => Err(DocumentError::Syntax(e)),
                };
            }
            assert(rest.drop_first() =~= members_view(members@).subrange(i + 1, members@.len() as int));
            i += 1;
        }
        assert(members_view(members@).subrange(i as int, members@.len() as int).len() == 0);
        Err(DocumentError::NoTimeledger)
    }
}

} // verus!
