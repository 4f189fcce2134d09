//! Keys of the stored tables: big-endian integers, joined so that key order is the order of the
//! numbers.

use vstd::prelude::*;

use crate::bytes::{append_bytes, copy_bytes};
use crate::error::FilesystemError;

verus! {

/// The eight big-endian bytes of a number.
pub open spec fn u64_key(value: u64) -> Seq<u8> {
    seq![
        ((value >> 56) & 0xff) as u8,
        ((value >> 48) & 0xff) as u8,
        ((value >> 40) & 0xff) as u8,
        ((value >> 32) & 0xff) as u8,
        ((value >> 24) & 0xff) as u8,
        ((value >> 16) & 0xff) as u8,
        ((value >> 8) & 0xff) as u8,
        (value & 0xff) as u8,
    ]
}

/// The number that eight big-endian bytes stand for.
pub open spec fn u64_of(bytes: Seq<u8>) -> u64 {
    ((bytes[0] as u64) << 56) | ((bytes[1] as u64) << 48) | ((bytes[2] as u64) << 40) | ((
    bytes[3] as u64) << 32) | ((bytes[4] as u64) << 24) | ((bytes[5] as u64) << 16) | ((
    bytes[6] as u64) << 8) | (bytes[7] as u64)
}

/// What decoding eight big-endian bytes gives: the number, or an integrity error for any other
/// length.
pub open spec fn decoded_u64(bytes: Seq<u8>) -> Result<u64, FilesystemError> {
    if bytes.len() == 8 {
        Ok(u64_of(bytes))
    } else {
        Err(FilesystemError::Integrity)
    }
}

/// Two numbers one after the other.
pub open spec fn pair_key(first: u64, second: u64) -> Seq<u8> {
    u64_key(first) + u64_key(second)
}

/// Three numbers one after the other.
pub open spec fn triple_key(first: u64, second: u64, third: u64) -> Seq<u8> {
    u64_key(first) + u64_key(second) + u64_key(third)
}

/// A number followed by a name.
pub open spec fn named_key(number: u64, name: Seq<u8>) -> Seq<u8> {
    u64_key(number) + name
}

/// A number followed by one byte.
pub open spec fn part_key(number: u64, part: u8) -> Seq<u8> {
    u64_key(number).push(part)
}

/// Decoding gives back the number that was encoded.
pub proof fn lemma_u64_round_trip(value: u64)
    ensures
        u64_of(u64_key(value)) == value,
        decoded_u64(u64_key(value)) == Ok::<u64, FilesystemError>(value),
{
    let b0 = ((value >> 56) & 0xff) as u8;
    let b1 = ((value >> 48) & 0xff) as u8;
    let b2 = ((value >> 40) & 0xff) as u8;
    let b3 = ((value >> 32) & 0xff) as u8;
    let b4 = ((value >> 24) & 0xff) as u8;
    let b5 = ((value >> 16) & 0xff) as u8;
    let b6 = ((value >> 8) & 0xff) as u8;
    let b7 = (value & 0xff) as u8;
    assert(((b0 as u64) << 56) | ((b1 as u64) << 48) | ((b2 as u64) << 40) | ((b3 as u64) << 32) | ((
    b4 as u64) << 24) | ((b5 as u64) << 16) | ((b6 as u64) << 8) | (b7 as u64) == value)
        by (bit_vector)
        requires
            b0 == ((value >> 56) & 0xff) as u8,
            b1 == ((value >> 48) & 0xff) as u8,
            b2 == ((value >> 40) & 0xff) as u8,
            b3 == ((value >> 32) & 0xff) as u8,
            b4 == ((value >> 24) & 0xff) as u8,
            b5 == ((value >> 16) & 0xff) as u8,
            b6 == ((value >> 8) & 0xff) as u8,
            b7 == (value & 0xff) as u8,
    ;
}

/// Encoding gives back the eight bytes that were decoded.
pub proof fn lemma_u64_key_of(bytes: Seq<u8>)
    requires
        bytes.len() == 8,
    ensures
        u64_key(u64_of(bytes)) == bytes,
{
    let b0 = bytes[0];
    let b1 = bytes[1];
    let b2 = bytes[2];
    let b3 = bytes[3];
    let b4 = bytes[4];
    let b5 = bytes[5];
    let b6 = bytes[6];
    let b7 = bytes[7];
    let value = u64_of(bytes);
    assert(((value >> 56) & 0xff) as u8 == b0 && ((value >> 48) & 0xff) as u8 == b1 && ((value
        >> 40) & 0xff) as u8 == b2 && ((value >> 32) & 0xff) as u8 == b3 && ((value >> 24)
        & 0xff) as u8 == b4 && ((value >> 16) & 0xff) as u8 == b5 && ((value >> 8) & 0xff) as u8
        == b6 && (value & 0xff) as u8 == b7) by (bit_vector)
        requires
            value == ((b0 as u64) << 56) | ((b1 as u64) << 48) | ((b2 as u64) << 40) | ((b3 as u64)
                << 32) | ((b4 as u64) << 24) | ((b5 as u64) << 16) | ((b6 as u64) << 8) | (
            b7 as u64),
    ;
    assert(u64_key(value) =~= bytes);
}

/// Different numbers have different keys.
pub proof fn lemma_u64_key_injective(a: u64, b: u64)
    ensures
        u64_key(a) == u64_key(b) <==> a == b,
{
    lemma_u64_round_trip(a);
    lemma_u64_round_trip(b);
}

/// Key order is the order of the numbers.
pub proof fn lemma_u64_key_order(a: u64, b: u64)
    ensures
        crate::bytes::bytes_before(u64_key(a), u64_key(b)) <==> a < b,
{
    if a < b {
        lemma_smaller_key_first(a, b);
    } else if b < a {
        lemma_smaller_key_first(b, a);
        crate::bytes::lemma_bytes_before_asymmetric(u64_key(b), u64_key(a));
    } else {
        crate::bytes::lemma_bytes_before_irreflexive(u64_key(a));
    }
}

proof fn lemma_smaller_key_first(a: u64, b: u64)
    requires
        a < b,
    ensures
        crate::bytes::bytes_before(u64_key(a), u64_key(b)),
{
    let x = u64_key(a);
    let y = u64_key(b);
    lemma_u64_key_injective(a, b);
    crate::bytes::lemma_bytes_before_total(x, y);
    if crate::bytes::bytes_before(y, x) {
        let i = choose|i: int| crate::bytes::before_at(y, x, i);
        assert forall|j: int| 0 <= j < i implies x[j] == y[j] by {
            assert(x.take(i)[j] == y.take(i)[j]);
        }
        let a0 = ((a >> 56) & 0xff) as u8;
        let a1 = ((a >> 48) & 0xff) as u8;
        let a2 = ((a >> 40) & 0xff) as u8;
        let a3 = ((a >> 32) & 0xff) as u8;
        let a4 = ((a >> 24) & 0xff) as u8;
        let a5 = ((a >> 16) & 0xff) as u8;
        let a6 = ((a >> 8) & 0xff) as u8;
        let a7 = (a & 0xff) as u8;
        let b0 = ((b >> 56) & 0xff) as u8;
        let b1 = ((b >> 48) & 0xff) as u8;
        let b2 = ((b >> 40) & 0xff) as u8;
        let b3 = ((b >> 32) & 0xff) as u8;
        let b4 = ((b >> 24) & 0xff) as u8;
        let b5 = ((b >> 16) & 0xff) as u8;
        let b6 = ((b >> 8) & 0xff) as u8;
        let b7 = (b & 0xff) as u8;
        assert(a0 < b0 || (a0 == b0 && (a1 < b1 || (a1 == b1 && (a2 < b2 || (a2 == b2 && (a3 < b3
            || (a3 == b3 && (a4 < b4 || (a4 == b4 && (a5 < b5 || (a5 == b5 && (a6 < b6 || (a6
            == b6 && a7 < b7)))))))))))))) by (bit_vector)
            requires
                a < b,
                a0 == ((a >> 56) & 0xff) as u8,
                a1 == ((a >> 48) & 0xff) as u8,
                a2 == ((a >> 40) & 0xff) as u8,
                a3 == ((a >> 32) & 0xff) as u8,
                a4 == ((a >> 24) & 0xff) as u8,
                a5 == ((a >> 16) & 0xff) as u8,
                a6 == ((a >> 8) & 0xff) as u8,
                a7 == (a & 0xff) as u8,
                b0 == ((b >> 56) & 0xff) as u8,
                b1 == ((b >> 48) & 0xff) as u8,
                b2 == ((b >> 40) & 0xff) as u8,
                b3 == ((b >> 32) & 0xff) as u8,
                b4 == ((b >> 24) & 0xff) as u8,
                b5 == ((b >> 16) & 0xff) as u8,
                b6 == ((b >> 8) & 0xff) as u8,
                b7 == (b & 0xff) as u8,
        ;
        assert(x[0] == a0 && x[1] == a1 && x[2] == a2 && x[3] == a3 && x[4] == a4 && x[5] == a5
            && x[6] == a6 && x[7] == a7);
        assert(y[0] == b0 && y[1] == b1 && y[2] == b2 && y[3] == b3 && y[4] == b4 && y[5] == b5
            && y[6] == b6 && y[7] == b7);
    }
}

/// Keys of number pairs are equal only for equal pairs, and are ordered by the first number, then
/// by the second.
pub proof fn lemma_pair_key_order(a: u64, b: u64, c: u64, d: u64)
    ensures
        pair_key(a, b) == pair_key(c, d) <==> a == c && b == d,
        crate::bytes::bytes_before(pair_key(a, b), pair_key(c, d)) <==> a < c || (a == c && b < d),
{
    lemma_named_key_order(a, u64_key(b), c, u64_key(d));
    lemma_u64_key_injective(b, d);
    lemma_u64_key_order(b, d);
}

/// Keys of number triples are equal only for equal triples, and are ordered by the first number,
/// then by the second, then by the third.
pub proof fn lemma_triple_key_order(a: u64, b: u64, c: u64, d: u64, e: u64, f: u64)
    ensures
        triple_key(a, b, c) == triple_key(d, e, f) <==> a == d && b == e && c == f,
        crate::bytes::bytes_before(triple_key(a, b, c), triple_key(d, e, f)) <==> a < d || (a == d
            && (b < e || (b == e && c < f))),
{
    assert(triple_key(a, b, c) =~= named_key(a, pair_key(b, c)));
    assert(triple_key(d, e, f) =~= named_key(d, pair_key(e, f)));
    lemma_named_key_order(a, pair_key(b, c), d, pair_key(e, f));
    lemma_pair_key_order(b, c, e, f);
}

/// Keys of a number and a name are equal only for equal numbers and names, and are ordered by the
/// number, then by the name.
pub proof fn lemma_named_key_order(a: u64, name: Seq<u8>, b: u64, other: Seq<u8>)
    ensures
        named_key(a, name) == named_key(b, other) <==> a == b && name == other,
        crate::bytes::bytes_before(named_key(a, name), named_key(b, other)) <==> a < b || (a == b
            && crate::bytes::bytes_before(name, other)),
{
    let x = u64_key(a) + name;
    let y = u64_key(b) + other;
    if a == b {
        crate::bytes::lemma_bytes_before_prefix(u64_key(a), name, other);
        if x == y {
            assert(name =~= x.skip(8));
            assert(other =~= y.skip(8));
        }
    } else {
        if x == y {
            assert(u64_key(a) =~= x.take(8));
            assert(u64_key(b) =~= y.take(8));
            lemma_u64_key_injective(a, b);
        }
        if a < b {
            lemma_u64_key_order(a, b);
            lemma_longer_before(u64_key(a), name, u64_key(b), other);
        } else {
            lemma_u64_key_order(b, a);
            lemma_longer_before(u64_key(b), other, u64_key(a), name);
            crate::bytes::lemma_bytes_before_asymmetric(y, x);
        }
    }
}

proof fn lemma_longer_before(a: Seq<u8>, a_rest: Seq<u8>, b: Seq<u8>, b_rest: Seq<u8>)
    requires
        a.len() == b.len(),
        crate::bytes::bytes_before(a, b),
    ensures
        crate::bytes::bytes_before(a + a_rest, b + b_rest),
{
    let i = choose|i: int| crate::bytes::before_at(a, b, i);
    assert((a + a_rest).take(i) =~= a.take(i));
    assert((b + b_rest).take(i) =~= b.take(i));
    assert(crate::bytes::before_at(a + a_rest, b + b_rest, i));
}

/// A key that starts with the key of a number is the key of that number and some name.
pub proof fn lemma_named_key_prefix(number: u64, key: Seq<u8>)
    requires
        crate::bytes::has_prefix(key, u64_key(number)),
    ensures
        key == named_key(number, key.skip(8)),
        decoded_u64(key.take(8)) == Ok::<u64, FilesystemError>(number),
{
    assert(key =~= key.take(8) + key.skip(8));
    lemma_u64_round_trip(number);
}

/// Encodes a number as eight big-endian bytes.
pub fn encode_u64(value: u64) -> (key: Vec<u8>)
    ensures
        key@ == u64_key(value),
{
    let mut key: Vec<u8> = Vec::with_capacity(8);
    key.push(((value >> 56) & 0xff) as u8);
    key.push(((value >> 48) & 0xff) as u8);
    key.push(((value >> 40) & 0xff) as u8);
    key.push(((value >> 32) & 0xff) as u8);
    key.push(((value >> 24) & 0xff) as u8);
    key.push(((value >> 16) & 0xff) as u8);
    key.push(((value >> 8) & 0xff) as u8);
    key.push((value & 0xff) as u8);
    proof {
        assert(key@ =~= u64_key(value));
    }
    key
}

/// Decodes eight big-endian bytes; any other length is an integrity error.
pub fn decode_u64(value: &[u8]) -> (number: Result<u64, FilesystemError>)
    ensures
        number == decoded_u64(value@),
{
    if value.len() != 8 {
        return Err(FilesystemError::Integrity);
    }
    Ok(
        ((value[0] as u64) << 56) | ((value[1] as u64) << 48) | ((value[2] as u64) << 40) | ((
        value[3] as u64) << 32) | ((value[4] as u64) << 24) | ((value[5] as u64) << 16) | ((
        value[6] as u64) << 8) | (value[7] as u64),
    )
}

fn encode_pair(first: u64, second: u64) -> (key: Vec<u8>)
    ensures
        key@ == pair_key(first, second),
{
    let mut key = encode_u64(first);
    append_bytes(&mut key, encode_u64(second).as_slice());
    key
}

fn encode_triple(first: u64, second: u64, third: u64) -> (key: Vec<u8>)
    ensures
        key@ == triple_key(first, second, third),
{
    let mut key = encode_pair(first, second);
    append_bytes(&mut key, encode_u64(third).as_slice());
    key
}

/// Encodes the key of an event in the index of one file's events.
pub fn encode_file_sequence_key(file_identifier: u64, event_sequence: u64) -> (key: Vec<u8>)
    ensures
        key@ == pair_key(file_identifier, event_sequence),
{
    encode_pair(file_identifier, event_sequence)
}

/// Encodes the key of an ordinal on a branch.
pub fn encode_branch_position_key(branch_identifier: u64, ordinal: u64) -> (key: Vec<u8>)
    ensures
        key@ == pair_key(branch_identifier, ordinal),
{
    encode_pair(branch_identifier, ordinal)
}

/// Encodes the common start of the keys of one file on one branch.
pub fn encode_branch_file_prefix(branch_identifier: u64, file_identifier: u64) -> (key: Vec<u8>)
    ensures
        key@ == pair_key(branch_identifier, file_identifier),
{
    encode_pair(branch_identifier, file_identifier)
}

/// Encodes the key of an ordinal of one file on one branch.
pub fn encode_branch_file_position_key(
    branch_identifier: u64,
    file_identifier: u64,
    ordinal: u64,
) -> (key: Vec<u8>)
    ensures
        key@ == triple_key(branch_identifier, file_identifier, ordinal),
{
    encode_triple(branch_identifier, file_identifier, ordinal)
}

/// Encodes the common start of the snapshot keys of one file on one branch.
pub fn encode_snapshot_file_prefix(branch_identifier: u64, file_identifier: u64) -> (key: Vec<u8>)
    ensures
        key@ == pair_key(branch_identifier, file_identifier),
{
    encode_branch_file_prefix(branch_identifier, file_identifier)
}

/// Encodes the key of a file snapshot.
pub fn encode_file_snapshot_manifest_key(
    branch_identifier: u64,
    file_identifier: u64,
    ordinal: u64,
) -> (key: Vec<u8>)
    ensures
        key@ == triple_key(branch_identifier, file_identifier, ordinal),
{
    encode_branch_file_position_key(branch_identifier, file_identifier, ordinal)
}

/// Encodes the key of one payload part of an event.
pub fn encode_event_payload_manifest_key(event_sequence: u64, part: u8) -> (key: Vec<u8>)
    ensures
        key@ == part_key(event_sequence, part),
{
    let mut key = encode_u64(event_sequence);
    key.push(part);
    key
}

/// Encodes the key of a name below an inode.
pub fn encode_namespace_pair_key(inode_number: u64, name: &[u8]) -> (key: Vec<u8>)
    ensures
        key@ == named_key(inode_number, name@),
{
    let mut key = encode_u64(inode_number);
    append_bytes(&mut key, name);
    key
}

/// Encodes the key of an inode.
pub fn encode_namespace_inode_key(inode_number: u64) -> (key: Vec<u8>)
    ensures
        key@ == u64_key(inode_number),
{
    encode_u64(inode_number)
}

/// Decodes the key of an inode.
pub fn decode_namespace_inode_key(key: &[u8]) -> (inode_number: Result<u64, FilesystemError>)
    ensures
        inode_number == decoded_u64(key@),
{
    decode_u64(key)
}

/// What decoding the key of a name below an inode gives.
pub open spec fn decoded_named_key(key: Seq<u8>) -> Result<(u64, Seq<u8>), FilesystemError> {
    if key.len() < 8 {
        Err(FilesystemError::Integrity)
    } else {
        Ok((u64_of(key.take(8)), key.skip(8)))
    }
}

/// Decodes the key of a name below an inode.
pub fn decode_namespace_pair_key(key: &[u8]) -> (decoded: Result<(u64, Vec<u8>), FilesystemError>)
    ensures
        match decoded {
            Ok(pair) => decoded_named_key(key@) == Ok::<(u64, Seq<u8>), FilesystemError>(
                (pair.0, pair.1@),
            ),
            Err(error) => decoded_named_key(key@) == Err::<(u64, Seq<u8>), FilesystemError>(error),
        },
{
    if key.len() < 8 {
        return Err(FilesystemError::Integrity);
    }
    let head = vstd::slice::slice_subrange(key, 0, 8);
    let tail = vstd::slice::slice_subrange(key, 8, key.len());
    proof {
        assert(key@.subrange(0, 8) =~= key@.take(8));
        assert(key@.subrange(8, key@.len() as int) =~= key@.skip(8));
    }
    match decode_u64(head) {
        Ok(number) => Ok((number, copy_bytes(tail))),
        Err(error) => Err(error),
    }
}

/// What decoding the ordinal of a branch position key gives.
pub open spec fn decoded_ordinal(key: Seq<u8>) -> Result<u64, FilesystemError> {
    if key.len() != 16 {
        Err(FilesystemError::Integrity)
    } else {
        Ok(u64_of(key.skip(8)))
    }
}

/// Decodes the ordinal of a branch position key.
pub fn decode_branch_position_ordinal(key: &[u8]) -> (ordinal: Result<u64, FilesystemError>)
    ensures
        ordinal == decoded_ordinal(key@),
{
    if key.len() != 16 {
        return Err(FilesystemError::Integrity);
    }
    let tail = vstd::slice::slice_subrange(key, 8, 16);
    proof {
        assert(key@.subrange(8, 16) =~= key@.skip(8));
    }
    decode_u64(tail)
}

/// What decoding the key of an ordinal of one file on one branch gives.
pub open spec fn decoded_triple(key: Seq<u8>) -> Result<(u64, u64, u64), FilesystemError> {
    if key.len() != 24 {
        Err(FilesystemError::Integrity)
    } else {
        Ok((u64_of(key.take(8)), u64_of(key.subrange(8, 16)), u64_of(key.skip(16))))
    }
}

/// Decodes the branch, file and ordinal of a key.
pub fn decode_branch_file_position_key(key: &[u8]) -> (decoded: Result<
    (u64, u64, u64),
    FilesystemError,
>)
    ensures
        decoded == decoded_triple(key@),
{
    if key.len() != 24 {
        return Err(FilesystemError::Integrity);
    }
    let first = vstd::slice::slice_subrange(key, 0, 8);
    let second = vstd::slice::slice_subrange(key, 8, 16);
    let third = vstd::slice::slice_subrange(key, 16, 24);
    proof {
        assert(key@.subrange(0, 8) =~= key@.take(8));
        assert(key@.subrange(16, 24) =~= key@.skip(16));
    }
    match (decode_u64(first), decode_u64(second), decode_u64(third)) {
        (Ok(a), Ok(b), Ok(c)) => Ok((a, b, c)),
        _ => Err(FilesystemError::Integrity),
    }
}

/// Decodes the branch, file and ordinal of a snapshot key.
pub fn decode_file_snapshot_manifest_key(key: &[u8]) -> (decoded: Result<
    (u64, u64, u64),
    FilesystemError,
>)
    ensures
        decoded == decoded_triple(key@),
{
    decode_branch_file_position_key(key)
}

/// Decoding a branch position key gives back its ordinal.
pub proof fn lemma_ordinal_round_trip(branch: u64, ordinal: u64)
    ensures
        decoded_ordinal(pair_key(branch, ordinal)) == Ok::<u64, FilesystemError>(ordinal),
{
    assert(pair_key(branch, ordinal).skip(8) =~= u64_key(ordinal));
    lemma_u64_round_trip(ordinal);
}

/// Decoding the key of an ordinal of one file on one branch gives back all three numbers.
pub proof fn lemma_triple_round_trip(a: u64, b: u64, c: u64)
    ensures
        decoded_triple(triple_key(a, b, c)) == Ok::<(u64, u64, u64), FilesystemError>((a, b, c)),
{
    let key = triple_key(a, b, c);
    assert(key.take(8) =~= u64_key(a));
    assert(key.subrange(8, 16) =~= u64_key(b));
    assert(key.skip(16) =~= u64_key(c));
    lemma_u64_round_trip(a);
    lemma_u64_round_trip(b);
    lemma_u64_round_trip(c);
}

/// Decoding the key of a name below an inode gives back the inode number and the name.
pub proof fn lemma_named_key_round_trip(number: u64, name: Seq<u8>)
    ensures
        decoded_named_key(named_key(number, name)) == Ok::<(u64, Seq<u8>), FilesystemError>(
            (number, name),
        ),
{
    let key = named_key(number, name);
    assert(key.take(8) =~= u64_key(number));
    assert(key.skip(8) =~= name);
    lemma_u64_round_trip(number);
}

} // verus!
