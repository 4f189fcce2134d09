use std::collections::BTreeMap;

use eventfs::branches::branch_record_from_stored;
use eventfs::bytes::{compare_bytes, ByteOrder};
use eventfs::chunks::{existing_byte_length_for_storage, read_extents};
use eventfs::commit::{EVENT_PAYLOAD_PART_OVERWRITTEN, EVENT_PAYLOAD_PART_WRITTEN};
use eventfs::database::StoredBranch;
use eventfs::error::{FilesystemError, FuseError};
use eventfs::extents::{
    chunk_bytes, slice_extents, stored_extents_from_pending, validate_extent_bounds,
    PendingExtent, StoredExtent, CONTENT_CHUNK_MAX_SIZE, CONTENT_CHUNK_MIN_SIZE,
};
use eventfs::filesystem::{BranchStatus, FileEventPayloadPart, FileIdentifier};
use eventfs::hash::{
    content_manifest_identifier_for_bytes, namespace_identifier_for_bytes,
    prefixed_blake3_identifier, validate_content_manifest, validate_namespace,
    ContentManifestIdentifier, NamespaceIdentifier, CONTENT_CHUNK_HASH_BLAKE3,
    NAMESPACE_HASH_BLAKE3,
};
use eventfs::history::event_payload_part_byte;
use eventfs::inode::{
    file_identifier_for_kind, next_inode_number_after, special_kind_from_mode,
    statistics_from_backing, validate_extended_attribute_name, validate_name,
    BackingFileSystemStatistics, StoredDirectoryEntry, StoredNodeKind, StoredTime,
    FUSE_MAX_NAME_LENGTH, FUSE_STATFS_BLOCK_SIZE, INODE_FIRST_ALLOCATED, INODE_LOGICAL_CAPACITY,
};
use eventfs::keys::{
    decode_branch_file_position_key, decode_branch_position_ordinal, decode_namespace_pair_key,
    decode_u64, encode_branch_file_position_key, encode_branch_position_key,
    encode_namespace_pair_key, encode_u64,
};
use eventfs::manifest::{
    decode_content_manifest_entry, empty_content_manifest_identifier, encode_content_manifest,
    encode_content_manifest_node, DecodedContentManifest, StoredContentManifestChild,
};
use eventfs::persist::{
    decode_namespace_directory_entry_value, encode_namespace_directory_entry_value,
};
use eventfs::table::Table;
use eventfs::trie::{
    decode_namespace_node, encode_namespace_node, namespace_map_entry_path,
    validate_namespace_children, validate_namespace_entries, NamespaceMapKind,
    StoredNamespaceChild, StoredNamespaceEntry, StoredNamespaceNode, StoredNamespaceRoot,
};

fn assert_fuse_errno(error: FuseError, expected: fuser::Errno) {
    match error {
        FuseError::Errno(actual) => assert_eq!(actual.code(), expected.code()),
        FuseError::Database | FuseError::Integrity => {
            panic!("expected errno {}, got {error:?}", expected.code())
        }
    }
}

fn stored_extent_for_test(
    logical_offset: u64,
    length: u64,
    chunk_offset: u64,
    chunk_identifier: &[u8],
) -> StoredExtent {
    StoredExtent {
        logical_offset,
        length,
        chunk_identifier: chunk_identifier.to_vec(),
        chunk_offset,
    }
}

fn patterned_bytes(length: usize, salt: usize) -> Vec<u8> {
    (0..length).map(|index| ((index * 31 + salt) % 251) as u8).collect()
}

/// The extents of a file after a write, kept in one flat list.
fn current_extents_after_write(
    existing: &[StoredExtent],
    old_size: u64,
    offset: u64,
    new_size: u64,
    written_extents: &[StoredExtent],
) -> Result<Vec<StoredExtent>, FuseError> {
    let written_length = written_extents
        .iter()
        .map(|extent| extent.length)
        .try_fold(0_u64, |total, length| total.checked_add(length))
        .ok_or(FuseError::Integrity)?;
    let end = offset
        .checked_add(written_length)
        .ok_or(FuseError::Errno(eventfs::error::Errno::EFBIG))?;
    let mut extents = if offset >= old_size {
        existing.to_vec()
    } else {
        slice_extents(existing, 0, offset.min(old_size), 0).map_err(|_| FuseError::Integrity)?
    };
    extents.extend_from_slice(written_extents);
    if end < old_size && offset < old_size {
        extents.extend(
            slice_extents(existing, end, old_size, end).map_err(|_| FuseError::Integrity)?,
        );
    }
    extents.retain(|extent| extent.logical_offset < new_size && extent.length != 0);
    Ok(extents)
}

enum BoundedFileOperation {
    Write { offset: u64, bytes: Vec<u8> },
    Truncate { size: u64 },
}

#[derive(Default)]
struct BoundedExtentModel {
    extents: Vec<StoredExtent>,
    content_chunks: BTreeMap<Vec<u8>, Vec<u8>>,
    file_size: u64,
}

impl BoundedExtentModel {
    fn apply(&mut self, operation: &BoundedFileOperation) -> Result<(), FuseError> {
        match operation {
            BoundedFileOperation::Write { offset, bytes } => self.apply_write(*offset, bytes),
            BoundedFileOperation::Truncate { size } => self.apply_truncate(*size),
        }
    }

    fn apply_write(&mut self, offset: u64, bytes: &[u8]) -> Result<(), FuseError> {
        let pending = chunk_bytes(bytes);
        let written_extents = stored_extents_from_pending(offset, &pending)?;
        for extent in &pending {
            let (start, end) = extent.byte_range();
            self.content_chunks
                .entry(extent.chunk_identifier.clone())
                .or_insert_with(|| bytes[start..end].to_vec());
        }

        let new_size = offset
            .checked_add(bytes.len() as u64)
            .ok_or(FuseError::Integrity)?
            .max(self.file_size);
        self.extents = current_extents_after_write(
            &self.extents,
            self.file_size,
            offset,
            new_size,
            &written_extents,
        )?;
        self.file_size = new_size;
        Ok(())
    }

    fn apply_truncate(&mut self, size: u64) -> Result<(), FuseError> {
        if size < self.file_size {
            self.extents =
                slice_extents(&self.extents, 0, size, 0).map_err(|_| FuseError::Integrity)?;
        }
        self.file_size = size;
        Ok(())
    }

    fn materialize(&self) -> Result<Vec<u8>, FilesystemError> {
        let mut bytes = vec![0; existing_byte_length_for_storage(self.file_size)?];
        for extent in &self.extents {
            let chunk = self
                .content_chunks
                .get(&extent.chunk_identifier)
                .ok_or(FilesystemError::Integrity)?;
            let destination_start = existing_byte_length_for_storage(extent.logical_offset)?;
            let destination_end =
                destination_start + existing_byte_length_for_storage(extent.length)?;
            let chunk_start = existing_byte_length_for_storage(extent.chunk_offset)?;
            let chunk_end = chunk_start + existing_byte_length_for_storage(extent.length)?;
            if chunk_end > chunk.len() || destination_end > bytes.len() {
                return Err(FilesystemError::Integrity);
            }
            bytes[destination_start..destination_end]
                .copy_from_slice(&chunk[chunk_start..chunk_end]);
        }
        Ok(bytes)
    }
}

fn bounded_extent_model_operations() -> Vec<BoundedFileOperation> {
    vec![
        BoundedFileOperation::Write { offset: 0, bytes: patterned_bytes(48 * 1024, 3) },
        BoundedFileOperation::Write {
            offset: 12 * 1024,
            bytes: patterned_bytes(96 * 1024, 11),
        },
        BoundedFileOperation::Write {
            offset: 170 * 1024,
            bytes: patterned_bytes(20 * 1024, 17),
        },
        BoundedFileOperation::Write {
            offset: 40 * 1024,
            bytes: patterned_bytes(120 * 1024, 29),
        },
        BoundedFileOperation::Write {
            offset: 192 * 1024,
            bytes: patterned_bytes(12 * 1024, 41),
        },
        BoundedFileOperation::Truncate { size: 96 * 1024 },
        BoundedFileOperation::Truncate { size: 180 * 1024 },
    ]
}

fn dense_after(dense: &mut Vec<u8>, operation: &BoundedFileOperation) -> Vec<u8> {
    match operation {
        BoundedFileOperation::Write { offset, bytes } => {
            let offset = usize::try_from(*offset).expect("bounded write offset fits usize");
            if dense.len() < offset + bytes.len() {
                dense.resize(offset + bytes.len(), 0);
            }
            dense[offset..offset + bytes.len()].copy_from_slice(bytes);
        }
        BoundedFileOperation::Truncate { size } => {
            dense.resize(usize::try_from(*size).expect("bounded truncate size fits usize"), 0);
        }
    }
    dense.clone()
}

#[test]
fn bounded_extent_write_model_matches_dense_bytes() {
    let mut dense = Vec::new();
    let mut extent_model = BoundedExtentModel::default();

    for operation in bounded_extent_model_operations() {
        let expected = dense_after(&mut dense, &operation);
        extent_model.apply(&operation).expect("extent model operation succeeds");

        assert_eq!(
            extent_model.materialize().expect("extent model materializes to dense bytes"),
            expected
        );
        for extent in &extent_model.extents {
            assert!(extent.length > 0);
            assert!(extent.logical_offset + extent.length <= extent_model.file_size);
        }
        for pair in extent_model.extents.windows(2) {
            assert!(pair[0].logical_offset + pair[0].length <= pair[1].logical_offset);
        }
    }
}

#[test]
fn filesystem_statistics_map_backing_blocks_and_logical_inode_capacity() {
    let statistics = statistics_from_backing(
        BackingFileSystemStatistics {
            blocks: 100,
            free_blocks: 40,
            available_blocks: 30,
            fragment_size: 8192,
        },
        INODE_FIRST_ALLOCATED,
    )
    .expect("statistics are mapped");

    assert_eq!(statistics.blocks, 100);
    assert_eq!(statistics.free_blocks, 40);
    assert_eq!(statistics.available_blocks, 30);
    assert_eq!(statistics.files, INODE_LOGICAL_CAPACITY);
    assert_eq!(statistics.free_files, u64::MAX - INODE_FIRST_ALLOCATED);
    assert_eq!(statistics.block_size, FUSE_STATFS_BLOCK_SIZE);
    assert_eq!(statistics.maximum_name_length, FUSE_MAX_NAME_LENGTH as u32);
    assert_eq!(statistics.fragment_size, 8192);
}

#[test]
fn key_metadata_and_identifier_decoders_fail_closed_on_corruption() {
    assert_eq!(decode_u64(&[1, 2, 3]), Err(FilesystemError::Integrity));
    assert_eq!(decode_branch_position_ordinal(&[0; 15]), Err(FilesystemError::Integrity));
    assert_eq!(decode_branch_file_position_key(&[0; 23]), Err(FilesystemError::Integrity));
    assert!(matches!(
        decode_content_manifest_entry(&[0xff; 8]),
        Err(FilesystemError::Integrity)
    ));
    assert!(matches!(decode_namespace_node(&[0xff; 8]), Err(FilesystemError::Integrity)));

    let empty_manifest = encode_content_manifest(&[]);
    let content_identifier = content_manifest_identifier_for_bytes(&empty_manifest);
    assert_eq!(
        ContentManifestIdentifier::from_bytes(&content_identifier)
            .expect("content manifest identifier is valid")
            .as_bytes(),
        content_identifier.as_slice()
    );
    assert!(matches!(
        ContentManifestIdentifier::from_bytes(&content_identifier[1..]),
        Err(FilesystemError::Integrity)
    ));
    let mut wrong_content_prefix = content_identifier.clone();
    wrong_content_prefix[0] = NAMESPACE_HASH_BLAKE3;
    assert_eq!(
        validate_content_manifest(&wrong_content_prefix, &empty_manifest),
        Err(FilesystemError::Integrity)
    );
    assert_eq!(
        validate_content_manifest(&content_identifier, b"changed"),
        Err(FilesystemError::Integrity)
    );
    assert_eq!(validate_content_manifest(&content_identifier, &empty_manifest), Ok(()));

    let namespace_bytes = encode_namespace_node(&StoredNamespaceNode::Leaf(Vec::new()));
    let namespace_identifier = namespace_identifier_for_bytes(&namespace_bytes);
    assert_eq!(
        NamespaceIdentifier::from_bytes(&namespace_identifier)
            .expect("namespace identifier is valid")
            .as_bytes(),
        namespace_identifier.as_slice()
    );
    assert!(matches!(
        NamespaceIdentifier::from_bytes(&namespace_identifier[1..]),
        Err(FilesystemError::Integrity)
    ));
    assert_eq!(
        validate_namespace(&namespace_identifier, b"changed"),
        Err(FilesystemError::Integrity)
    );

    let invalid_branch = StoredBranch {
        identifier: 1,
        name: String::new(),
        status: BranchStatus::Open,
        head_sequence: 0,
        head_ordinal: 0,
        namespace_identifier,
        fork_branch_identifier: None,
        fork_ordinal: None,
    };
    assert!(matches!(
        branch_record_from_stored(&invalid_branch),
        Err(FilesystemError::Integrity)
    ));

    assert_eq!(
        event_payload_part_byte(FileEventPayloadPart::Overwritten),
        EVENT_PAYLOAD_PART_OVERWRITTEN
    );
    assert_eq!(
        event_payload_part_byte(FileEventPayloadPart::Written),
        EVENT_PAYLOAD_PART_WRITTEN
    );
}

#[test]
fn namespace_trie_rejects_unsorted_entries_and_children() {
    let empty_leaf_bytes = encode_namespace_node(&StoredNamespaceNode::Leaf(Vec::new()));
    let empty_leaf_identifier = namespace_identifier_for_bytes(&empty_leaf_bytes);

    assert_eq!(
        validate_namespace_entries(&[
            StoredNamespaceEntry { key: b"b".to_vec(), value: Vec::new() },
            StoredNamespaceEntry { key: b"a".to_vec(), value: Vec::new() },
        ]),
        Err(FilesystemError::Integrity)
    );
    assert_eq!(
        validate_namespace_children(&[
            StoredNamespaceChild { nibble: 2, identifier: empty_leaf_identifier.clone() },
            StoredNamespaceChild { nibble: 2, identifier: empty_leaf_identifier },
        ]),
        Err(FilesystemError::Integrity)
    );
}

#[test]
fn name_xattr_statfs_and_file_type_mode_helpers_cover_edges() {
    assert_eq!(validate_name(b"child").expect("name is valid"), b"child");
    assert_fuse_errno(
        validate_name(b"").expect_err("empty names are rejected"),
        fuser::Errno::ENOENT,
    );
    assert_fuse_errno(
        validate_name(b".").expect_err("dot names are rejected"),
        fuser::Errno::EINVAL,
    );
    assert_fuse_errno(
        validate_name(b"..").expect_err("dot-dot names are rejected"),
        fuser::Errno::EINVAL,
    );
    assert_fuse_errno(
        validate_name(b"bad/name").expect_err("slash names are rejected"),
        fuser::Errno::EINVAL,
    );
    assert_fuse_errno(
        validate_name(&[0xff]).expect_err("non-utf8 names are rejected"),
        fuser::Errno::EINVAL,
    );
    assert_fuse_errno(
        validate_name(&[b'a'; FUSE_MAX_NAME_LENGTH + 1]).expect_err("overlong names are rejected"),
        fuser::Errno::ENAMETOOLONG,
    );

    assert_eq!(
        validate_extended_attribute_name(b"user.key").expect("xattr name is valid"),
        b"user.key"
    );
    assert_fuse_errno(
        validate_extended_attribute_name(b"").expect_err("empty xattr names are rejected"),
        fuser::Errno::EINVAL,
    );
    assert_fuse_errno(
        validate_extended_attribute_name(b"user\0key")
            .expect_err("nul-containing xattr names are rejected"),
        fuser::Errno::EINVAL,
    );
    assert_fuse_errno(
        validate_extended_attribute_name(&[b'a'; FUSE_MAX_NAME_LENGTH + 1])
            .expect_err("overlong xattr names are rejected"),
        fuser::Errno::ERANGE,
    );

    assert_eq!(
        special_kind_from_mode(libc::S_IFREG).expect("regular mode maps"),
        StoredNodeKind::RegularFile
    );
    assert_eq!(
        special_kind_from_mode(libc::S_IFIFO).expect("fifo mode maps"),
        StoredNodeKind::NamedPipe
    );
    assert_eq!(
        special_kind_from_mode(libc::S_IFCHR).expect("char mode maps"),
        StoredNodeKind::CharacterDevice
    );
    assert_eq!(
        special_kind_from_mode(libc::S_IFBLK).expect("block mode maps"),
        StoredNodeKind::BlockDevice
    );
    assert_eq!(
        special_kind_from_mode(libc::S_IFSOCK).expect("socket mode maps"),
        StoredNodeKind::Socket
    );
    assert_fuse_errno(
        special_kind_from_mode(libc::S_IFDIR).expect_err("directory special mode is rejected"),
        fuser::Errno::EINVAL,
    );
    assert_eq!(
        file_identifier_for_kind(12, StoredNodeKind::RegularFile),
        Some(FileIdentifier::new(12))
    );
    assert_eq!(file_identifier_for_kind(12, StoredNodeKind::Directory), None);

    assert!(matches!(
        statistics_from_backing(
            BackingFileSystemStatistics {
                blocks: 1,
                free_blocks: 1,
                available_blocks: 1,
                fragment_size: 4096,
            },
            INODE_FIRST_ALLOCATED - 1,
        ),
        Err(FuseError::Integrity)
    ));
    assert_fuse_errno(
        next_inode_number_after(u64::MAX).expect_err("inode number overflow is rejected"),
        fuser::Errno::ENOSPC,
    );
}

#[test]
fn extent_write_and_bounds_helpers_cover_edge_errors() {
    let first = stored_extent_for_test(0, 4, 0, b"first");
    assert_eq!(
        slice_extents(std::slice::from_ref(&first), 1, 3, 100).expect("extent slice succeeds"),
        vec![StoredExtent {
            logical_offset: 100,
            length: 2,
            chunk_identifier: b"first".to_vec(),
            chunk_offset: 1,
        }]
    );
    assert!(slice_extents(std::slice::from_ref(&first), 2, 2, 0)
        .expect("empty slice succeeds")
        .is_empty());

    assert!(matches!(
        validate_extent_bounds(&[stored_extent_for_test(10, 3, 0, b"bounds")], 12),
        Err(FuseError::Integrity)
    ));
    let overflowing = StoredExtent {
        logical_offset: u64::MAX,
        length: 1,
        chunk_identifier: b"overflow".to_vec(),
        chunk_offset: 0,
    };
    assert!(matches!(
        validate_extent_bounds(std::slice::from_ref(&overflowing), u64::MAX),
        Err(FuseError::Integrity)
    ));
    assert_fuse_errno(
        current_extents_after_write(
            &[],
            0,
            u64::MAX,
            u64::MAX,
            &[stored_extent_for_test(0, 1, 0, b"write")],
        )
        .expect_err("overflowing write range is rejected"),
        fuser::Errno::EFBIG,
    );
    assert!(matches!(
        stored_extents_from_pending(
            u64::MAX,
            &[PendingExtent {
                logical_offset: 1,
                length: 1,
                byte_start: 0,
                byte_end: 1,
                chunk_identifier: b"pending".to_vec(),
            }],
        ),
        Err(FuseError::Integrity)
    ));
}

#[test]
fn identifiers_are_a_prefix_and_the_digest() {
    let identifier = prefixed_blake3_identifier(CONTENT_CHUNK_HASH_BLAKE3, b"chunk");
    assert_eq!(identifier[0], CONTENT_CHUNK_HASH_BLAKE3);
    assert_eq!(&identifier[1..], blake3::hash(b"chunk").as_bytes());
    assert_ne!(&identifier[1..], b"chunk");
}

#[test]
fn chunks_cover_their_bytes_in_order() {
    let bytes = patterned_bytes(300 * 1024, 5);
    let pending = chunk_bytes(&bytes);
    assert!(pending.len() > 1);
    let mut position = 0;
    for extent in &pending {
        let (start, end) = extent.byte_range();
        assert_eq!(start, position);
        assert_eq!(extent.logical_offset, start as u64);
        assert_eq!(extent.length, (end - start) as u64);
        assert_eq!(
            extent.chunk_identifier,
            prefixed_blake3_identifier(CONTENT_CHUNK_HASH_BLAKE3, &bytes[start..end])
        );
        position = end;
    }
    assert_eq!(position, bytes.len());
    assert!(chunk_bytes(&[]).is_empty());
}

#[test]
fn chunks_are_cut_by_content_within_their_sizes() {
    let bytes = patterned_bytes(900 * 1024, 9);
    let pending = chunk_bytes(&bytes);
    let ranges: Vec<(usize, usize)> = pending.iter().map(|extent| extent.byte_range()).collect();
    let cuts: Vec<(usize, usize)> = fastcdc::v2020::FastCDC::with_level_and_seed(
        &bytes,
        16 * 1024,
        64 * 1024,
        256 * 1024,
        fastcdc::v2020::Normalization::Level1,
        0,
    )
    .map(|chunk| (chunk.offset, chunk.offset + chunk.length))
    .collect();
    assert_eq!(ranges, cuts);
    for (position, (start, end)) in ranges.iter().enumerate() {
        assert!(end - start <= CONTENT_CHUNK_MAX_SIZE);
        assert!(position + 1 == ranges.len() || end - start >= CONTENT_CHUNK_MIN_SIZE);
    }
    assert_eq!(chunk_bytes(&bytes[..CONTENT_CHUNK_MIN_SIZE]).len(), 1);
}

#[test]
fn extents_are_read_with_zeros_between_them() {
    let mut chunks: Table<Vec<u8>> = Table::new();
    let identifier = prefixed_blake3_identifier(CONTENT_CHUNK_HASH_BLAKE3, b"abcdef");
    chunks.insert(identifier.clone(), b"abcdef".to_vec());
    let extents = [
        stored_extent_for_test(1, 2, 0, &identifier),
        stored_extent_for_test(5, 3, 3, &identifier),
    ];
    assert_eq!(read_extents(&chunks, &extents, 0, 9), Ok(b"\0ab\0\0def\0".to_vec()));
    assert_eq!(
        read_extents(&chunks, &[stored_extent_for_test(0, 7, 0, &identifier)], 0, 7),
        Err(FilesystemError::Integrity)
    );
}

#[test]
fn manifests_decode_to_what_was_encoded() {
    let extents = vec![
        stored_extent_for_test(0, 300, 7, &[1; 33]),
        stored_extent_for_test(300, 20, 0, &[2; 33]),
    ];
    assert_eq!(
        decode_content_manifest_entry(&encode_content_manifest(&extents)),
        Ok(DecodedContentManifest::Extents(extents))
    );

    let child = |logical_offset: u64, length: u64| StoredContentManifestChild {
        logical_offset,
        length,
        identifier: empty_content_manifest_identifier(),
    };
    let children = vec![child(0, 10), child(10, 5)];
    let encoded = encode_content_manifest_node(&children).expect("children are in order");
    assert_eq!(
        decode_content_manifest_entry(&encoded),
        Ok(DecodedContentManifest::Concat(children))
    );
    assert_eq!(
        encode_content_manifest_node(&[child(10, 5), child(0, 10)]),
        Err(FilesystemError::Integrity)
    );
}

#[test]
fn namespace_nodes_decode_to_what_was_encoded() {
    let leaf_identifier = namespace_identifier_for_bytes(b"leaf");
    let nodes = [
        StoredNamespaceNode::Root(StoredNamespaceRoot {
            inodes: leaf_identifier.clone(),
            directory_entries: leaf_identifier.clone(),
            extended_attributes: leaf_identifier.clone(),
        }),
        StoredNamespaceNode::Branch(vec![StoredNamespaceChild {
            nibble: 9,
            identifier: leaf_identifier,
        }]),
        StoredNamespaceNode::Leaf(vec![StoredNamespaceEntry {
            key: b"key".to_vec(),
            value: b"value".to_vec(),
        }]),
    ];
    for node in nodes {
        let encoded = encode_namespace_node(&node);
        assert_eq!(decode_namespace_node(&encoded), Ok(node));
    }

    assert_eq!(
        encode_namespace_directory_entry_value(&StoredDirectoryEntry {
            inode: 300,
            kind: StoredNodeKind::RegularFile,
        }),
        [0xac, 0x02, 0x04]
    );
    let entry = StoredDirectoryEntry { inode: 77, kind: StoredNodeKind::Socket };
    assert_eq!(
        decode_namespace_directory_entry_value(&encode_namespace_directory_entry_value(&entry)),
        Ok(entry)
    );
    assert_eq!(
        decode_namespace_directory_entry_value(&[0xff; 3]),
        Err(FilesystemError::Integrity)
    );
}

#[test]
fn map_paths_are_digests_of_the_kind_and_the_key() {
    let mut hasher = blake3::Hasher::new();
    hasher.update(&[NamespaceMapKind::Inodes.tag()]);
    hasher.update(b"key");
    assert_eq!(
        namespace_map_entry_path(NamespaceMapKind::Inodes, b"key"),
        hasher.finalize().as_bytes().to_vec()
    );
    assert_ne!(
        namespace_map_entry_path(NamespaceMapKind::Inodes, b"key"),
        namespace_map_entry_path(NamespaceMapKind::ExtendedAttributes, b"key")
    );
}

#[test]
fn keys_order_as_their_numbers_do() {
    assert_eq!(encode_u64(258), vec![0, 0, 0, 0, 0, 0, 1, 2]);
    assert_eq!(decode_u64(&encode_u64(u64::MAX - 1)), Ok(u64::MAX - 1));
    assert_eq!(
        compare_bytes(&encode_branch_position_key(1, 300), &encode_branch_position_key(2, 0)),
        ByteOrder::Before
    );
    assert_eq!(
        decode_branch_file_position_key(&encode_branch_file_position_key(3, 4, 5)),
        Ok((3, 4, 5))
    );
    assert_eq!(
        decode_namespace_pair_key(&encode_namespace_pair_key(6, b"name")),
        Ok((6, b"name".to_vec()))
    );
}

#[test]
fn times_keep_seconds_and_fractions() {
    let later = StoredTime::from_epoch_distance(false, 12, 34);
    assert_eq!(later, StoredTime { seconds: 12, nanoseconds: 34 });
    assert_eq!(later.epoch_distance(), (false, 12, 34));
    let earlier = StoredTime::from_epoch_distance(true, 12, 34);
    assert_eq!(earlier, StoredTime { seconds: -12, nanoseconds: 34 });
    assert_eq!(earlier.epoch_distance(), (true, 12, 34));
}

#[test]
fn tables_keep_their_rows_in_key_order() {
    let mut table: Table<u32> = Table::new();
    table.insert(b"b".to_vec(), 2);
    table.insert(b"a".to_vec(), 1);
    table.insert(b"ab".to_vec(), 3);
    table.insert(b"b".to_vec(), 4);
    let keys: Vec<&[u8]> = (0..table.len()).map(|index| table.key_at(index)).collect();
    assert_eq!(keys, vec![b"a".as_slice(), b"ab".as_slice(), b"b".as_slice()]);
    assert_eq!(table.get(b"b"), Some(&4));
    table.remove_prefix(b"a");
    assert_eq!(table.len(), 1);
    table.remove(b"b");
    assert!(table.get(b"b").is_none());
}
