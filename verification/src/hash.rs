//! Content identifiers: a prefix byte that tells what is named, and the BLAKE3 hash of its bytes.

use vstd::prelude::*;

use crate::bytes::{append_bytes, bytes_equal};
use crate::error::FilesystemError;

verus! {

/// The BLAKE3 digest of some bytes.
pub uninterp spec fn blake3_digest(bytes: Seq<u8>) -> [u8; 32];

/// The BLAKE3 hash of some bytes.
pub open spec fn blake3_hash(bytes: Seq<u8>) -> Seq<u8> {
    blake3_digest(bytes)@
}

/// Prefix of content chunk identifiers.
pub const CONTENT_CHUNK_HASH_BLAKE3: u8 = 1;

/// Prefix of content manifest identifiers.
pub const CONTENT_MANIFEST_HASH_BLAKE3: u8 = 2;

/// Prefix of namespace node identifiers.
pub const NAMESPACE_HASH_BLAKE3: u8 = 3;

/// Length of an identifier.
pub const IDENTIFIER_LENGTH: usize = 33;

/// Calls `blake3::hash`, the hash function of the blake3 crate with its default key and output
/// length. Claimed: the digest depends on the bytes alone and has 32 bytes.
#[verifier::external_body]
pub(crate) fn hash_bytes(bytes: &[u8]) -> (digest: Vec<u8>)
    ensures
        digest@ == blake3_digest(bytes@)@,
        digest@.len() == 32,
{
    blake3::hash(bytes).as_bytes().to_vec()
}

/// An identifier: the prefix, then the digest.
pub open spec fn identifier_of(prefix: u8, digest: Seq<u8>) -> Seq<u8> {
    seq![prefix] + digest
}

/// The identifier of some bytes.
pub open spec fn identifier(prefix: u8, bytes: Seq<u8>) -> Seq<u8> {
    identifier_of(prefix, blake3_hash(bytes))
}

/// An identifier has the right length and prefix.
pub open spec fn well_shaped(identifier: Seq<u8>, prefix: u8) -> bool {
    identifier.len() == IDENTIFIER_LENGTH && identifier[0] == prefix
}

/// An identifier has the right shape and ends in a digest.
pub open spec fn carries_digest(identifier: Seq<u8>, prefix: u8, digest: Seq<u8>) -> bool {
    well_shaped(identifier, prefix) && identifier.skip(1) == digest
}

/// An identifier has the right shape and is that of some bytes.
pub open spec fn identifies(identifier: Seq<u8>, prefix: u8, bytes: Seq<u8>) -> bool {
    carries_digest(identifier, prefix, blake3_hash(bytes))
}

/// The integrity check of a condition.
pub open spec fn integrity_unless(holds: bool) -> Result<(), FilesystemError> {
    if holds {
        Ok(())
    } else {
        Err(FilesystemError::Integrity)
    }
}

/// Joins a prefix and a digest.
pub fn identifier_from_digest(prefix: u8, digest: &[u8]) -> (identifier: Vec<u8>)
    ensures
        identifier@ == identifier_of(prefix, digest@),
{
    let mut identifier: Vec<u8> = Vec::with_capacity(33);
    identifier.push(prefix);
    append_bytes(&mut identifier, digest);
    proof {
        assert(identifier@ =~= identifier_of(prefix, digest@));
    }
    identifier
}

/// Names some bytes.
pub fn prefixed_blake3_identifier(prefix: u8, bytes: &[u8]) -> (result: Vec<u8>)
    ensures
        result@ == identifier(prefix, bytes@),
        well_shaped(result@, prefix),
        identifies(result@, prefix, bytes@),
{
    let digest = hash_bytes(bytes);
    let result = identifier_from_digest(prefix, digest.as_slice());
    proof {
        assert(result@.skip(1) =~= digest@);
    }
    result
}

/// Checks the length and prefix of an identifier.
pub fn validate_prefixed_blake3_identifier_shape(identifier: &[u8], prefix: u8) -> (result: Result<
    (),
    FilesystemError,
>)
    ensures
        result == integrity_unless(well_shaped(identifier@, prefix)),
{
    if identifier.len() != IDENTIFIER_LENGTH || identifier[0] != prefix {
        return Err(FilesystemError::Integrity);
    }
    Ok(())
}

/// Checks an identifier against a digest.
pub fn validate_identifier_digest(identifier: &[u8], prefix: u8, digest: &[u8]) -> (result: Result<
    (),
    FilesystemError,
>)
    ensures
        result == integrity_unless(carries_digest(identifier@, prefix, digest@)),
{
    match validate_prefixed_blake3_identifier_shape(identifier, prefix) {
        Err(error) => return Err(error),
        Ok(_) => {},
    }
    let tail = vstd::slice::slice_subrange(identifier, 1, identifier.len());
    proof {
        assert(identifier@.subrange(1, identifier@.len() as int) =~= identifier@.skip(1));
    }
    if !bytes_equal(tail, digest) {
        return Err(FilesystemError::Integrity);
    }
    Ok(())
}

/// Checks that an identifier names some bytes.
pub fn validate_prefixed_blake3_identifier(
    identifier: &[u8],
    prefix: u8,
    bytes: &[u8],
) -> (result: Result<(), FilesystemError>)
    ensures
        result == integrity_unless(identifies(identifier@, prefix, bytes@)),
{
    let digest = hash_bytes(bytes);
    validate_identifier_digest(identifier, prefix, digest.as_slice())
}

/// Checks that a chunk identifier names some bytes.
pub fn validate_content_chunk(identifier: &[u8], bytes: &[u8]) -> (result: Result<
    (),
    FilesystemError,
>)
    ensures
        result == integrity_unless(identifies(identifier@, CONTENT_CHUNK_HASH_BLAKE3, bytes@)),
{
    validate_prefixed_blake3_identifier(identifier, CONTENT_CHUNK_HASH_BLAKE3, bytes)
}

/// Names the bytes of a content manifest.
pub fn content_manifest_identifier_for_bytes(bytes: &[u8]) -> (result: Vec<u8>)
    ensures
        result@ == identifier(CONTENT_MANIFEST_HASH_BLAKE3, bytes@),
        identifies(result@, CONTENT_MANIFEST_HASH_BLAKE3, bytes@),
{
    prefixed_blake3_identifier(CONTENT_MANIFEST_HASH_BLAKE3, bytes)
}

/// Checks that a content manifest identifier names some bytes.
pub fn validate_content_manifest(identifier: &[u8], bytes: &[u8]) -> (result: Result<
    (),
    FilesystemError,
>)
    ensures
        result == integrity_unless(identifies(identifier@, CONTENT_MANIFEST_HASH_BLAKE3, bytes@)),
{
    validate_prefixed_blake3_identifier(identifier, CONTENT_MANIFEST_HASH_BLAKE3, bytes)
}

/// Names the bytes of a namespace node.
pub fn namespace_identifier_for_bytes(bytes: &[u8]) -> (result: Vec<u8>)
    ensures
        result@ == identifier(NAMESPACE_HASH_BLAKE3, bytes@),
        identifies(result@, NAMESPACE_HASH_BLAKE3, bytes@),
{
    prefixed_blake3_identifier(NAMESPACE_HASH_BLAKE3, bytes)
}

/// Checks that a namespace identifier names some bytes.
pub fn validate_namespace(identifier: &[u8], bytes: &[u8]) -> (result: Result<
    (),
    FilesystemError,
>)
    ensures
        result == integrity_unless(identifies(identifier@, NAMESPACE_HASH_BLAKE3, bytes@)),
{
    validate_prefixed_blake3_identifier(identifier, NAMESPACE_HASH_BLAKE3, bytes)
}

/// A content manifest identifier of the right shape.
#[derive(Clone, Copy, Debug, PartialEq, Eq)]
pub struct ContentManifestIdentifier<'a> {
    bytes: &'a [u8],
}

impl<'a> ContentManifestIdentifier<'a> {
    /// The bytes of the identifier.
    pub closed spec fn view(self) -> Seq<u8> {
        self.bytes@
    }

    /// Accepts bytes of the right shape.
    pub fn from_bytes(bytes: &'a [u8]) -> (result: Result<Self, FilesystemError>)
        ensures
            match result {
                Ok(identifier) => identifier@ == bytes@ && well_shaped(
                    bytes@,
                    CONTENT_MANIFEST_HASH_BLAKE3,
                ),
                Err(error) => error == FilesystemError::Integrity && !well_shaped(
                    bytes@,
                    CONTENT_MANIFEST_HASH_BLAKE3,
                ),
            },
    {
        match validate_prefixed_blake3_identifier_shape(bytes, CONTENT_MANIFEST_HASH_BLAKE3) {
            Err(error) => Err(error),
            Ok(_) => Ok(ContentManifestIdentifier { bytes }),
        }
    }

    /// Returns the bytes.
    pub fn as_bytes(self) -> (bytes: &'a [u8])
        ensures
            bytes@ == self@,
    {
        self.bytes
    }
}

/// A namespace identifier of the right shape.
#[derive(Clone, Copy, Debug, PartialEq, Eq)]
pub struct NamespaceIdentifier<'a> {
    bytes: &'a [u8],
}

impl<'a> NamespaceIdentifier<'a> {
    /// The bytes of the identifier.
    pub closed spec fn view(self) -> Seq<u8> {
        self.bytes@
    }

    /// Accepts bytes of the right shape.
    pub fn from_bytes(bytes: &'a [u8]) -> (result: Result<Self, FilesystemError>)
        ensures
            match result {
                Ok(identifier) => identifier@ == bytes@ && well_shaped(bytes@, NAMESPACE_HASH_BLAKE3),
                Err(error) => error == FilesystemError::Integrity && !well_shaped(
                    bytes@,
                    NAMESPACE_HASH_BLAKE3,
                ),
            },
    {
        match validate_prefixed_blake3_identifier_shape(bytes, NAMESPACE_HASH_BLAKE3) {
            Err(error) => Err(error),
            Ok(_) => Ok(NamespaceIdentifier { bytes }),
        }
    }

    /// Returns the bytes.
    pub fn as_bytes(self) -> (bytes: &'a [u8])
        ensures
            bytes@ == self@,
    {
        self.bytes
    }
}

/// Content stored under the identifiers of its bytes.
pub type Blobs = Map<Seq<u8>, Seq<u8>>;

/// The bytes that a table of byte strings holds.
pub open spec fn blobs(map: Map<Seq<u8>, Vec<u8>>) -> Blobs {
    map.map_values(|bytes: Vec<u8>| bytes@)
}

/// Bytes to be stored under a key.
#[derive(Debug, PartialEq, Eq)]
pub struct BytesPut {
    /// The key.
    pub key: Vec<u8>,
    /// The bytes.
    pub value: Vec<u8>,
}

/// The keys and bytes of puts.
pub open spec fn put_views(puts: Seq<BytesPut>) -> Seq<(Seq<u8>, Seq<u8>)> {
    Seq::new(puts.len(), |i: int| (puts[i].key@, puts[i].value@))
}

} // verus!
