//! The journal codec: the per-ingress record of pre-substitution originals is
//! persisted as one JSON object inside the reserved state annotation. A state
//! annotation that does not parse degrades to an empty journal, so a damaged
//! history never blocks reconciliation.

use vstd::prelude::*;
use vstd::string::*;
use crate::keys::journal_key_str;
use crate::strmap::StrMap;

verus! {

/// The JSON object text that a journal serializes to. Its exact shape is
/// serde_json's business; the codec contracts below pin the round trip.
pub uninterp spec fn json_of(m: Map<Seq<char>, Seq<char>>) -> Seq<char>;

/// Relies on serde_json::to_string: a string-keyed BTreeMap always serializes,
/// and the produced JSON object text is a function of the map alone.
#[verifier::external_body]
fn journal_to_json(journal: &StrMap) -> (r: String)
    requires
        journal.wf(),
    ensures
        r@ == json_of(journal.as_map()),
{
    let tree: std::collections::BTreeMap<String, String> =
        journal.pairs.iter().cloned().collect();
    match serde_json::to_string(&tree) {
        Ok(s) => s,
        Err(_) => String::new(),
    }
}

/// Relies on serde_json::from_str: text written by serde_json::to_string for
/// a string-keyed BTreeMap parses back to exactly that map, and a successful
/// parse hands the entries out of the BTreeMap in strictly ascending key
/// order.
#[verifier::external_body]
fn journal_from_json(s: &str) -> (r: Option<StrMap>)
    ensures
        forall|m: Map<Seq<char>, Seq<char>>| s@ == #[trigger] json_of(m) ==> r is Some
            && r.unwrap().wf() && r.unwrap().as_map() == m,
        r matches Some(j) ==> j.wf(),
{
    match serde_json::from_str::<std::collections::BTreeMap<String, String>>(s) {
        Ok(tree) => Some(StrMap { pairs: tree.into_iter().collect() }),
        Err(_) => None,
    }
}

/// Serializes the journal under the reserved state-annotation key.
pub fn encode_journal(journal: &StrMap) -> (r: String)
    requires
        journal.wf(),
    ensures
        r@ == json_of(journal.as_map()),
{
    journal_to_json(journal)
}

/// Reads the journal out of the annotation map: absent or malformed state
/// degrades to the empty journal rather than blocking reconciliation.
pub fn decode_journal(ann: &StrMap) -> (r: StrMap)
    requires
        ann.wf(),
    ensures
        r.wf(),
        forall|m: Map<Seq<char>, Seq<char>>|
            ann.as_map().contains_key(crate::keys::journal_key())
                && ann.as_map()[crate::keys::journal_key()] == #[trigger] json_of(m)
                ==> r.as_map() == m,
        !ann.as_map().contains_key(crate::keys::journal_key()) ==> r.as_map()
            == Map::<Seq<char>, Seq<char>>::empty(),
{
    let key = journal_key_str();
    match ann.get(key.as_str()) {
        Some(text) => match journal_from_json(text.as_str()) {
            Some(j) => j,
            None => StrMap::new(),
        },
        None => StrMap::new(),
    }
}

} // verus!
