//! The persisted form of an index: one JSON object that maps each path to
//! an object that maps each term to its count.
//!
//! Writing and reading JSON is left to `serde_json`. The index crosses that
//! border as a list of pairs, and this module says what the list stands for.

use vstd::prelude::*;
use std::collections::BTreeMap;

verus! {

/// The terms of one document with their counts, as they cross the border.
pub type Counts = Vec<(String, u64)>;

/// The documents of an index with their tables, as they cross the border.
pub type Tables = Vec<(String, Counts)>;

/// No term stands twice in the list.
pub open spec fn distinct_terms(counts: Seq<(String, u64)>) -> bool {
    forall|i: int, j: int|
        0 <= i < counts.len() && 0 <= j < counts.len() && i != j ==> counts[i].0@ != counts[j].0@
}

/// No path stands twice in the list, and no term twice under one path.
pub open spec fn distinct_keys(tables: Seq<(String, Counts)>) -> bool {
    &&& forall|i: int, j: int|
        0 <= i < tables.len() && 0 <= j < tables.len() && i != j ==> tables[i].0@ != tables[j].0@
    &&& forall|i: int| 0 <= i < tables.len() ==> distinct_terms(#[trigger] tables[i].1@)
}

/// The mapping that a list of terms and counts writes down.
pub open spec fn counts_map(counts: Seq<(String, u64)>) -> Map<Seq<char>, nat> {
    Map::new(
        |t: Seq<char>| exists|i: int| 0 <= i < counts.len() && counts[i].0@ == t,
        |t: Seq<char>| counts[choose|i: int| 0 <= i < counts.len() && counts[i].0@ == t].1 as nat,
    )
}

/// The mapping that a list of paths and tables writes down.
pub open spec fn tables_map(tables: Seq<(String, Counts)>) -> Map<Seq<char>, Map<Seq<char>, nat>> {
    Map::new(
        |p: Seq<char>| exists|i: int| 0 <= i < tables.len() && tables[i].0@ == p,
        |p: Seq<char>|
            counts_map(tables[choose|i: int| 0 <= i < tables.len() && tables[i].0@ == p].1@),
    )
}

/// A list without repeated terms writes down, for each of its terms, the
/// count that stands beside it, and nothing for any other term.
pub proof fn lemma_counts_map(counts: Seq<(String, u64)>)
    requires
        distinct_terms(counts),
    ensures
        counts_map(counts).dom().finite(),
        forall|i: int|
            0 <= i < counts.len() ==> counts_map(counts).contains_key(#[trigger] counts[i].0@)
                && counts_map(counts)[counts[i].0@] == counts[i].1,
{
    let keys = counts.map_values(|e: (String, u64)| e.0@);
    assert forall|t: Seq<char>| counts_map(counts).dom().contains(t) <==> keys.to_set().contains(
        t,
    ) by {
        if counts_map(counts).dom().contains(t) {
            let i = choose|i: int| 0 <= i < counts.len() && counts[i].0@ == t;
            assert(keys[i] == t);
        }
        if keys.to_set().contains(t) {
            let i = choose|i: int| 0 <= i < keys.len() && keys[i] == t;
            assert(counts[i].0@ == t);
        }
    }
    assert(counts_map(counts).dom() =~= keys.to_set());
    vstd::seq_lib::seq_to_set_is_finite(keys);
}

/// A list without repeated paths writes down, for each of its paths, the
/// table that stands beside it, and nothing for any other path.
pub proof fn lemma_tables_map(tables: Seq<(String, Counts)>)
    requires
        distinct_keys(tables),
    ensures
        tables_map(tables).dom().finite(),
        forall|i: int|
            0 <= i < tables.len() ==> tables_map(tables).contains_key(#[trigger] tables[i].0@)
                && tables_map(tables)[tables[i].0@] == counts_map(tables[i].1@),
{
    let keys = tables.map_values(|e: (String, Counts)| e.0@);
    assert forall|p: Seq<char>| tables_map(tables).dom().contains(p) <==> keys.to_set().contains(
        p,
    ) by {
        if tables_map(tables).dom().contains(p) {
            let i = choose|i: int| 0 <= i < tables.len() && tables[i].0@ == p;
            assert(keys[i] == p);
        }
        if keys.to_set().contains(p) {
            let i = choose|i: int| 0 <= i < keys.len() && keys[i] == p;
            assert(tables[i].0@ == p);
        }
    }
    assert(tables_map(tables).dom() =~= keys.to_set());
    vstd::seq_lib::seq_to_set_is_finite(keys);
}

/// The JSON text that `serde_json::to_string` writes for a mapping from
/// paths to mappings from terms to counts, held in maps that are sorted by
/// key.
pub uninterp spec fn json_text(tables: Map<Seq<char>, Map<Seq<char>, nat>>) -> Seq<char>;

/// The mapping from paths to mappings from terms to counts that
/// `serde_json::from_str` reads from a text, or `None` where it reports an
/// error: the text is no JSON, is no object of objects of unsigned numbers,
/// or holds a number beyond 64 bits.
pub uninterp spec fn json_tables(text: Seq<char>) -> Option<Map<Seq<char>, Map<Seq<char>, nat>>>;

/// The error that `serde_json` reports. Nothing is known of what it holds.
#[verifier::external_type_specification]
#[verifier::external_body]
pub struct ExJsonError(serde_json::Error);

/// Calls `serde_json::to_string` on the mapping that `tables` writes down,
/// held in maps sorted by key. The call succeeds, and its text is the one
/// that belongs to that mapping: the serializer fails only where its writer
/// fails or where a key is no string, and here it writes into memory and
/// every key is a string.
#[verifier::external_body]
pub(crate) fn write_json(tables: &Tables) -> (written: Result<String, serde_json::Error>)
    requires
        distinct_keys(tables@),
    ensures
        written is Ok,
        written matches Ok(text) ==> text@ == json_text(tables_map(tables@)),
{
    let sorted: BTreeMap<&str, BTreeMap<&str, u64>> = tables.iter().map(
        |(path, counts)| (path.as_str(), counts.iter().map(|(term, n)| (term.as_str(), *n)).collect()),
    ).collect();
    serde_json::to_string(&sorted)
}

/// Calls `serde_json::from_str` for maps sorted by key and lists their
/// entries. The list writes down the mapping that the text holds, each key
/// once; an error means that the text holds none.
#[verifier::external_body]
pub(crate) fn read_json(text: &str) -> (read: Result<Tables, serde_json::Error>)
    ensures
        match read {
            Ok(tables) => distinct_keys(tables@) && json_tables(text@) == Some(tables_map(tables@)),
            Err(_) => json_tables(text@) is None,
        },
{
    let sorted: BTreeMap<String, BTreeMap<String, u64>> = serde_json::from_str(text)?;
    Ok(sorted.into_iter().map(|(path, counts)| (path, counts.into_iter().collect())).collect())
}

} // verus!
