//! Snapshots: the whole map as a JSON object, for export and import.
use vstd::prelude::*;
use crate::kv_store::KvStore;

verus! {

/// serde_json's error, turned into a message and never looked into.
#[verifier::external_type_specification]
#[verifier::external_body]
pub struct ExJsonError(serde_json::Error);

/// The map that inserting the pairs `ps`, in order, into an empty map gives.
pub open spec fn pairs_map(ps: Seq<(String, String)>) -> Map<Seq<char>, Seq<char>>
    decreases ps.len(),
{
    if ps.len() == 0 {
        Map::empty()
    } else {
        pairs_map(ps.drop_last()).insert(ps.last().0@, ps.last().1@)
    }
}

/// The pretty-printed JSON object that serde_json writes for a string map.
pub uninterp spec fn pretty_json_of(m: Map<Seq<char>, Seq<char>>) -> Seq<char>;

/// The string map that serde_json reads from a JSON text, if the text is a
/// JSON object whose values are all strings.
pub uninterp spec fn json_string_map(s: Seq<char>) -> Option<Map<Seq<char>, Seq<char>>>;

/// Relies on `serde_json::to_string_pretty`, on a `BTreeMap` made of the pairs,
/// whose keys are distinct, so that the map holds every pair:
/// the text depends on the map that the pairs give alone; it cannot fail, as
/// the keys are strings and `String`'s serialisation never fails; and
/// `serde_json::from_str` reads the same map back from it.
#[verifier::external_body]
pub(crate) fn to_pretty_json(pairs: &Vec<(String, String)>) -> (r: Result<
    String,
    serde_json::Error,
>)
    requires
        forall|i: int, j: int|
            0 <= i < j < pairs@.len() ==> #[trigger] pairs@[i].0@ != #[trigger] pairs@[j].0@,
    ensures
        r is Ok,
        r matches Ok(s) ==> s@ == pretty_json_of(pairs_map(pairs@)),
        r matches Ok(s) ==> json_string_map(s@) == Some(pairs_map(pairs@)),
{
    let map: std::collections::BTreeMap<&String, &String> = pairs.iter().map(
        |p| (&p.0, &p.1),
    ).collect();
    serde_json::to_string_pretty(&map)
}

/// Relies on `serde_json::from_str` into a `BTreeMap<String, String>`, whose
/// pairs are handed out: the outcome depends on the text alone.
#[verifier::external_body]
pub(crate) fn parse_json_map(text: &str) -> (r: Result<Vec<(String, String)>, serde_json::Error>)
    ensures
        r is Ok <==> json_string_map(text@) is Some,
        r matches Ok(ps) ==> json_string_map(text@) == Some(pairs_map(ps@)),
{
    let map: std::collections::BTreeMap<String, String> = serde_json::from_str(text)?;
    Ok(map.into_iter().collect())
}

pub open spec fn deserialize_error() -> Seq<char> {
    "Deserialize error: "@
}

/// An error message: `prefix`, then what serde_json said.
fn error_message(prefix: &str, e: serde_json::Error) -> (r: String)
    ensures
        prefix@.is_prefix_of(r@),
{
    let mut msg = String::from_str(prefix);
    let detail = e.to_string();
    msg.append(detail.as_str());
    assert(msg@.take(prefix@.len() as int) =~= prefix@);
    msg
}

impl KvStore {
    /// The store's map as a pretty-printed JSON object, from which
    /// `from_snapshot` rebuilds the same map.
    pub fn snapshot(&self) -> (r: Result<String, String>)
        requires
            self.wf(),
        ensures
            r is Ok,
            r matches Ok(s) ==> s@ == pretty_json_of(self@),
            r matches Ok(s) ==> json_string_map(s@) == Some(self@),
    {
        let pairs = self.pairs();
        match to_pretty_json(&pairs) {
            Ok(s) => Ok(s),
            Err(e) => Err(error_message("Serialize error: ", e)),
        }
    }

    /// A store that holds the map of a JSON object of strings.
    pub fn from_snapshot(json: &str) -> (r: Result<Self, String>)
        ensures
            match r {
                Ok(s) => s.wf() && json_string_map(json@) == Some(s@),
                Err(msg) => json_string_map(json@) is None && deserialize_error().is_prefix_of(
                    msg@,
                ),
            },
    {
        match parse_json_map(json) {
            Ok(pairs) => Ok(KvStore::from_pairs(pairs)),
            Err(e) => Err(error_message("Deserialize error: ", e)),
        }
    }
}

} // verus!
