//! JSON: the persisted form of a corpus index, and the body of a search's
//! answer.
//!
//! A persisted index is a JSON object that maps each document's identity
//! to an object that maps each term to its count. Reading and writing JSON
//! is the work of `serde_json`. An index goes to and from JSON as a list
//! of plain entries; whether entries that were read describe an index is
//! decided in verified code.

use std::collections::BTreeMap;
use serde_json::Value;
use vstd::prelude::*;
use crate::corpus::{valid_index_entries, CorpusIndex};

verus! {

/// The JSON library's error, carried through as it is.
#[verifier::external_type_specification]
#[verifier::external_body]
pub struct ExJsonError(serde_json::Error);

/// Why an index could not be written or read.
#[derive(Debug)]
pub enum SerializationError {
    /// The JSON library failed; its words are kept. On reading, the text is
    /// not a JSON object of objects of counts.
    Json(String),
    /// The entries describe no index: they list an identity twice, or for
    /// one document a term twice, a zero count, or counts that together
    /// overflow.
    Invalid,
}

/// The JSON text, as bytes, of the documents `entries`, each with the
/// entries of its table; `None` where the JSON library fails.
pub uninterp spec fn json_bytes(entries: Seq<(Seq<char>, Seq<(Seq<char>, usize)>)>) -> Option<
    Seq<u8>,
>;

/// The documents that the JSON text `text` lists, each with the entries of
/// its table; `None` where the JSON library refuses the text.
pub uninterp spec fn json_entries(text: Seq<char>) -> Option<
    Seq<(Seq<char>, Seq<(Seq<char>, usize)>)>,
>;

/// `serde_json::to_writer` on a map of maps, into a vector of bytes:
/// trusted to write the JSON text of `entries`, which depends on them
/// alone. The entries, which list no identity and no term twice, are
/// handed over as ordered maps, so the text lists identities and terms in
/// ascending order.
#[verifier::external_body]
fn write_json(entries: &Vec<(String, Vec<(String, usize)>)>) -> (written: Result<
    Vec<u8>,
    serde_json::Error,
>)
    requires
        valid_index_entries(entries.deep_view()),
    ensures
        match written {
            Ok(bytes) => json_bytes(entries.deep_view()) == Some(bytes@),
            Err(_) => json_bytes(entries.deep_view()) is None,
        },
{
    let documents: BTreeMap<&String, BTreeMap<&String, usize>> = entries.iter().map(
        |(identity, counts)| (identity, counts.iter().map(|(term, count)| (term, *count)).collect()),
    ).collect();
    let mut bytes = Vec::new();
    serde_json::to_writer(&mut bytes, &documents)?;
    Ok(bytes)
}

/// `serde_json::from_str` into a map of maps: trusted to read a JSON object
/// of objects of counts, which depends on `text` alone, and to refuse any
/// other text. The maps are handed back as lists in ascending order of key.
#[verifier::external_body]
fn read_json(text: &str) -> (read: Result<Vec<(String, Vec<(String, usize)>)>, serde_json::Error>)
    ensures
        match read {
            Ok(entries) => json_entries(text@) == Some(entries.deep_view()),
            Err(_) => json_entries(text@) is None,
        },
{
    let documents: BTreeMap<String, BTreeMap<String, usize>> = serde_json::from_str(text)?;
    Ok(
        documents.into_iter().map(
            |(identity, counts)| (identity, counts.into_iter().collect()),
        ).collect(),
    )
}

/// The JSON text of the object with two members: under `list_key` the
/// array of the strings `list`, under `number_key` the number `number`;
/// `None` where the JSON library fails.
pub uninterp spec fn json_object_text(
    list_key: Seq<char>,
    list: Seq<Seq<char>>,
    number_key: Seq<char>,
    number: usize,
) -> Option<Seq<char>>;

/// `serde_json::to_string` on an object of two members, an array of
/// strings and a number: trusted to give its JSON text, which depends on
/// the keys and values alone.
#[verifier::external_body]
fn write_object(list_key: &str, list: &Vec<String>, number_key: &str, number: usize) -> (written:
    Result<String, serde_json::Error>)
    ensures
        match written {
            Ok(text) => json_object_text(list_key@, list.deep_view(), number_key@, number) == Some(
                text@,
            ),
            Err(_) => json_object_text(list_key@, list.deep_view(), number_key@, number) is None,
        },
{
    let mut object = serde_json::Map::new();
    object.insert(list_key.to_owned(), Value::from(list.clone()));
    object.insert(number_key.to_owned(), Value::from(number));
    serde_json::to_string(&Value::Object(object))
}

/// `Display` of `serde_json::Error`: the JSON library's words for its error.
#[verifier::external_body]
fn json_error_text(error: &serde_json::Error) -> String {
    error.to_string()
}

/// What reading entries gives: the index that they describe, or the reason
/// why they describe none.
pub fn index_of_entries(entries: &Vec<(String, Vec<(String, usize)>)>) -> (made: Result<
    CorpusIndex,
    SerializationError,
>)
    ensures
        match made {
            Ok(index) => valid_index_entries(entries.deep_view()) && index.wf() && index.entries()
                == entries.deep_view(),
            Err(error) => !valid_index_entries(entries.deep_view()) && error
                is Invalid,
        },
{
    match CorpusIndex::from_entries(entries) {
        Some(index) => Ok(index),
        None => Err(SerializationError::Invalid),
    }
}

/// The JSON text of `index`, as the bytes to persist.
pub fn encode(index: &CorpusIndex) -> (written: Result<Vec<u8>, SerializationError>)
    requires
        index.wf(),
    ensures
        match written {
            Ok(bytes) => json_bytes(index.entries()) == Some(bytes@),
            Err(error) => json_bytes(index.entries()) is None && error is Json,
        },
{
    let entries = index.to_entries();
    proof {
        index.lemma_entries();
    }
    match write_json(&entries) {
        Ok(bytes) => Ok(bytes),
        Err(error) => Err(SerializationError::Json(json_error_text(&error))),
    }
}

/// The index that the JSON text `text` describes.
pub fn decode(text: &str) -> (read: Result<CorpusIndex, SerializationError>)
    ensures
        match read {
            Ok(index) => index.wf() && json_entries(text@) == Some(index.entries()),
            Err(SerializationError::Json(_)) => json_entries(text@) is None,
            Err(SerializationError::Invalid) => json_entries(text@) matches Some(entries)
                && !valid_index_entries(entries),
        },
{
    match read_json(text) {
        Ok(entries) => index_of_entries(&entries),
        Err(error) => Err(SerializationError::Json(json_error_text(&error))),
    }
}

/// The JSON text of a search's answer: the object with the member
/// `results`, the given identities in order, and the member `count`, the
/// given number.
pub fn encode_results(results: &Vec<String>, count: usize) -> (written: Result<
    String,
    SerializationError,
>)
    ensures
        match written {
            Ok(text) => json_object_text("results"@, results.deep_view(), "count"@, count) == Some(
                text@,
            ),
            Err(error) => json_object_text("results"@, results.deep_view(), "count"@, count)
                is None && error is Json,
        },
{
    match write_object("results", results, "count", count) {
        Ok(text) => Ok(text),
        Err(error) => Err(SerializationError::Json(json_error_text(&error))),
    }
}

} // verus!
