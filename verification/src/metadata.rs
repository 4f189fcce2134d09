//! The keys of the metadata table, and reading it.

use vstd::prelude::*;

use crate::error::FilesystemError;
use crate::hash::{blobs, Blobs};
use crate::inode::text_from_bytes;
use crate::keys::{decode_u64, decoded_u64};
use crate::table::Table;

verus! {

/// The key of the version of the table layout.
pub open spec fn schema_version_key() -> Seq<u8> {
    seq![115u8, 99, 104, 101, 109, 97, 95, 118, 101, 114, 115, 105, 111, 110]
}

/// Returns the key of the version of the table layout.
pub fn schema_version_key_bytes() -> (bytes: Vec<u8>)
    ensures
        bytes@ == schema_version_key(),
{
    let bytes: Vec<u8> = vec![115, 99, 104, 101, 109, 97, 95, 118, 101, 114, 115, 105, 111, 110];
    proof {
        assert(bytes@ =~= schema_version_key());
    }
    bytes
}

/// The key of the next inode number to give out.
pub open spec fn next_inode_number_key() -> Seq<u8> {
    seq![110u8, 101, 120, 116, 95, 105, 110, 111, 100, 101, 95, 110, 117, 109, 98, 101, 114]
}

/// Returns the key of the next inode number to give out.
pub fn next_inode_number_key_bytes() -> (bytes: Vec<u8>)
    ensures
        bytes@ == next_inode_number_key(),
{
    let bytes: Vec<u8> = vec![
        110, 101, 120, 116, 95, 105, 110, 111, 100, 101, 95, 110, 117, 109, 98, 101, 114,
    ];
    proof {
        assert(bytes@ =~= next_inode_number_key());
    }
    bytes
}

/// The key of the sequence of the newest event.
pub open spec fn last_event_sequence_key() -> Seq<u8> {
    seq![
        108u8, 97, 115, 116, 95, 99, 111, 109, 109, 105, 116, 116, 101, 100, 95, 101, 118, 101, 110,
        116, 95, 115, 101, 113, 117, 101, 110, 99, 101,
    ]
}

/// Returns the key of the sequence of the newest event.
pub fn last_event_sequence_key_bytes() -> (bytes: Vec<u8>)
    ensures
        bytes@ == last_event_sequence_key(),
{
    let bytes: Vec<u8> = vec![
        108, 97, 115, 116, 95, 99, 111, 109, 109, 105, 116, 116, 101, 100, 95, 101, 118, 101, 110,
        116, 95, 115, 101, 113, 117, 101, 110, 99, 101,
    ];
    proof {
        assert(bytes@ =~= last_event_sequence_key());
    }
    bytes
}

/// The key of the next branch number to give out.
pub open spec fn next_branch_identifier_key() -> Seq<u8> {
    seq![
        110u8, 101, 120, 116, 95, 98, 114, 97, 110, 99, 104, 95, 105, 100, 101, 110, 116, 105, 102,
        105, 101, 114,
    ]
}

/// Returns the key of the next branch number to give out.
pub fn next_branch_identifier_key_bytes() -> (bytes: Vec<u8>)
    ensures
        bytes@ == next_branch_identifier_key(),
{
    let bytes: Vec<u8> = vec![
        110, 101, 120, 116, 95, 98, 114, 97, 110, 99, 104, 95, 105, 100, 101, 110, 116, 105, 102,
        105, 101, 114,
    ];
    proof {
        assert(bytes@ =~= next_branch_identifier_key());
    }
    bytes
}

/// The key of the active branch.
pub open spec fn active_branch_identifier_key() -> Seq<u8> {
    seq![
        97u8, 99, 116, 105, 118, 101, 95, 98, 114, 97, 110, 99, 104, 95, 105, 100, 101, 110, 116,
        105, 102, 105, 101, 114,
    ]
}

/// Returns the key of the active branch.
pub fn active_branch_identifier_key_bytes() -> (bytes: Vec<u8>)
    ensures
        bytes@ == active_branch_identifier_key(),
{
    let bytes: Vec<u8> = vec![
        97, 99, 116, 105, 118, 101, 95, 98, 114, 97, 110, 99, 104, 95, 105, 100, 101, 110, 116, 105,
        102, 105, 101, 114,
    ];
    proof {
        assert(bytes@ =~= active_branch_identifier_key());
    }
    bytes
}

/// The key of the name of the filesystem.
pub open spec fn volume_name_key() -> Seq<u8> {
    seq![118u8, 111, 108, 117, 109, 101, 95, 110, 97, 109, 101]
}

/// Returns the key of the name of the filesystem.
pub fn volume_name_key_bytes() -> (bytes: Vec<u8>)
    ensures
        bytes@ == volume_name_key(),
{
    let bytes: Vec<u8> = vec![118, 111, 108, 117, 109, 101, 95, 110, 97, 109, 101];
    proof {
        assert(bytes@ =~= volume_name_key());
    }
    bytes
}

/// The number stored under a key.
pub open spec fn number_at(metadata: Blobs, key: Seq<u8>) -> Result<u64, FilesystemError> {
    if metadata.contains_key(key) {
        decoded_u64(metadata[key])
    } else {
        Err(FilesystemError::Integrity)
    }
}

/// Reads the number stored under a key.
pub fn read_metadata_u64(metadata: &Table<Vec<u8>>, key: &[u8]) -> (number: Result<
    u64,
    FilesystemError,
>)
    ensures
        number == number_at(blobs(metadata@), key@),
{
    match metadata.get(key) {
        None => Err(FilesystemError::Integrity),
        Some(value) => decode_u64(value.as_slice()),
    }
}

/// The text stored under a key.
pub open spec fn text_at(metadata: Blobs, key: Seq<u8>) -> Result<Seq<char>, FilesystemError> {
    if metadata.contains_key(key) && vstd::utf8::valid_utf8(metadata[key]) {
        Ok(vstd::utf8::decode_utf8(metadata[key]))
    } else {
        Err(FilesystemError::Integrity)
    }
}

/// Reads the text stored under a key.
pub fn read_metadata_string(metadata: &Table<Vec<u8>>, key: &[u8]) -> (text: Result<
    String,
    FilesystemError,
>)
    ensures
        match text {
            Ok(text) => text_at(blobs(metadata@), key@) == Ok::<Seq<char>, FilesystemError>(text@),
            Err(error) => text_at(blobs(metadata@), key@) == Err::<Seq<char>, FilesystemError>(
                error,
            ),
        },
{
    match metadata.get(key) {
        None => Err(FilesystemError::Integrity),
        Some(value) => match text_from_bytes(crate::bytes::copy_bytes(value.as_slice())) {
            Some(text) => Ok(text),
            None => Err(FilesystemError::Integrity),
        },
    }
}

} // verus!
