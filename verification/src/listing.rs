//! The payload of a container: the list of the identifiers of its
//! children, written by `bincode` with big-endian numbers of variable
//! length.

use bincode::Options;
use crate::common::{ResourceId, ResourceStoreError};
use crate::index::id_views;
use crate::strings::string_views;
use vstd::prelude::*;

verus! {

/// The bytes that `bincode` writes for a list of strings, with big-endian
/// numbers of variable length.
pub uninterp spec fn child_list_bytes(ids: Seq<Seq<char>>) -> Seq<u8>;

/// The list of strings that `bincode` reads from a byte string, if it
/// reads one.
pub uninterp spec fn child_list_ids(bytes: Seq<u8>) -> Option<Seq<Seq<char>>>;

/// Writes a list of strings with `bincode`, set to big-endian numbers of
/// variable length. Writing a list of strings into memory without a limit
/// on the size does not fail. The bytes depend on the strings alone, and
/// the list can be read back from them.
#[verifier::external_body]
fn encode_child_list(ids: &Vec<String>) -> (encoded: Result<Vec<u8>, bincode::Error>)
    ensures
        encoded is Ok,
        encoded matches Ok(bytes) ==> (bytes@ == child_list_bytes(string_views(ids@))
            && child_list_ids(bytes@) == Some(string_views(ids@))),
{
    bincode::options().with_big_endian().with_varint_encoding().serialize(ids)
}

/// Reads a list of strings with `bincode`, set to big-endian numbers of
/// variable length. The result depends on the bytes alone.
#[verifier::external_body]
fn decode_child_list(bytes: &[u8]) -> (decoded: Result<Vec<String>, bincode::Error>)
    ensures
        match decoded {
            Ok(ids) => child_list_ids(bytes@) == Some(string_views(ids@)),
            Err(_) => child_list_ids(bytes@) is None,
        },
{
    bincode::options().with_big_endian().with_varint_encoding().deserialize(bytes)
}

/// The strings of a list of identifiers.
fn id_strings(ids: &Vec<ResourceId>) -> (texts: Vec<String>)
    ensures
        string_views(texts@) == id_views(ids@),
{
    let mut texts: Vec<String> = Vec::new();
    let mut i: usize = 0;
    while i < ids.len()
        invariant
            i <= ids@.len(),
            texts@.len() == i,
            forall|j: int| 0 <= j < i ==> texts@[j]@ == ids@[j]@,
        decreases ids@.len() - i,
    {
        texts.push(ids[i].to_string());
        i += 1;
    }
    assert(string_views(texts@) =~= id_views(ids@));
    texts
}

/// The identifiers of a list of strings.
fn string_ids(texts: &Vec<String>) -> (ids: Vec<ResourceId>)
    ensures
        id_views(ids@) == string_views(texts@),
{
    let mut ids: Vec<ResourceId> = Vec::new();
    let mut i: usize = 0;
    while i < texts.len()
        invariant
            i <= texts@.len(),
            ids@.len() == i,
            forall|j: int| 0 <= j < i ==> ids@[j]@ == texts@[j]@,
        decreases texts@.len() - i,
    {
        ids.push(ResourceId::from_text(texts[i].as_str()));
        i += 1;
    }
    assert(id_views(ids@) =~= string_views(texts@));
    ids
}

/// The payload of a container: the list of its children in binary.
pub fn serialize_children(ids: &Vec<ResourceId>) -> (encoded: Result<Vec<u8>, ResourceStoreError>)
    ensures
        encoded matches Ok(bytes) && bytes@ == child_list_bytes(id_views(ids@))
            && child_list_ids(bytes@) == Some(id_views(ids@)),
{
    match encode_child_list(&id_strings(ids)) {
        Ok(bytes) => Ok(bytes),
        Err(error) => Err(ResourceStoreError::Bincode(error)),
    }
}

/// The children that the payload of a container lists.
pub fn deserialize_children(bytes: &[u8]) -> (decoded: Result<Vec<ResourceId>, ResourceStoreError>)
    ensures
        match decoded {
            Ok(ids) => child_list_ids(bytes@) == Some(id_views(ids@)),
            Err(error) => error is Bincode && child_list_ids(bytes@) is None,
        },
{
    match decode_child_list(bytes) {
        Ok(texts) => Ok(string_ids(&texts)),
        Err(error) => Err(ResourceStoreError::Bincode(error)),
    }
}

} // verus!
