//! Which dense model a configuration file describes.
use vstd::prelude::*;

verus! {

/// A JSON document, carried as it is.
#[verifier::external_type_specification]
#[verifier::external_body]
pub struct ExJsonValue(serde_json::Value);

/// An error of the JSON parser, carried as it is.
#[verifier::external_type_specification]
#[verifier::external_body]
pub struct ExJsonError(serde_json::Error);

/// The member names of a JSON document; none where it is not an object.
pub uninterp spec fn member_names(document: serde_json::Value) -> Set<Seq<char>>;

/// The member names of the JSON document that a text holds, as `serde_json::from_str` reads it;
/// `None` where the text is not JSON.
pub uninterp spec fn json_members(text: Seq<char>) -> Option<Set<Seq<char>>>;

/// Calls `serde_json::from_str`: reads a text as a JSON document.
///
/// Whether it is one, and which members it has, is fixed by the text.
#[verifier::external_body]
fn parse_json(text: &str) -> (r: Result<serde_json::Value, serde_json::Error>)
    ensures
        match r {
            Ok(document) => json_members(text@) == Some(member_names(document)),
            Err(_) => json_members(text@) is None,
        },
{
    serde_json::from_str(text)
}

/// Calls `serde_json::Value::get`: whether a document is an object with the member `name`.
#[verifier::external_body]
fn has_member(document: &serde_json::Value, name: &str) -> (r: bool)
    ensures
        r == member_names(*document).contains(name@),
{
    document.get(name).is_some()
}

/// The dense models that can be run.
#[derive(Debug, Clone, Copy, PartialEq, Eq, Structural)]
pub enum DenseKind {
    Qwen3,
    Qwen3_5,
}

/// A configuration file that is not JSON.
#[derive(Debug)]
pub enum ConfigError {
    NotJson(serde_json::Error),
}

/// The model that a configuration with these members describes.
///
/// The configuration of the newer family nests the text model in a member of its own.
pub open spec fn kind_of_members(members: Set<Seq<char>>) -> DenseKind {
    if members.contains("text_config"@) {
        DenseKind::Qwen3_5
    } else {
        DenseKind::Qwen3
    }
}

/// The model that a parsed configuration describes.
pub fn kind_of_document(document: &serde_json::Value) -> (r: DenseKind)
    ensures
        r == kind_of_members(member_names(*document)),
{
    if has_member(document, "text_config") {
        DenseKind::Qwen3_5
    } else {
        DenseKind::Qwen3
    }
}

/// The model that the text of a configuration file describes.
pub fn load_config(data: &str) -> (r: Result<DenseKind, ConfigError>)
    ensures
        match json_members(data@) {
            Some(members) => r == Ok::<DenseKind, ConfigError>(kind_of_members(members)),
            None => r is Err,
        },
{
    match parse_json(data) {
        Ok(document) => Ok(kind_of_document(&document)),
        Err(e) => Err(ConfigError::NotJson(e)),
    }
}

/// The member with the text model tells the newer family from the older one, and no other member
/// matters.
pub proof fn nested_text_model_tells_the_family(members: Set<Seq<char>>, other: Seq<char>)
    ensures
        kind_of_members(members.insert("text_config"@)) == DenseKind::Qwen3_5,
        kind_of_members(members.remove("text_config"@)) == DenseKind::Qwen3,
        other != "text_config"@ ==> kind_of_members(members.insert(other)) == kind_of_members(
            members,
        ) && kind_of_members(members.remove(other)) == kind_of_members(members),
{
}

}
