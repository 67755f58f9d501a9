//! Nodes: sizes, splits, and applying actions.

use std::collections::BTreeMap;

use fragment_tree::action;
use fragment_tree::error::Error;
use fragment_tree::node::{
    action_key, buffer_pressured, internal_logical_bytes, internal_overflows, is_underflow,
    FragmentMetadataTreeConfig,
};
use fragment_tree::pb;
use fragment_tree::pb::{Action, FragmentAction, FragmentMetadataChild, FragmentMetadataMutation};
use fragment_tree::record::{DataFile, DeletionFile, DeletionFileType, Fragment};
use fragment_tree::replay::apply_actions;
use fragment_tree::split::split_internal;

/// A data file path derived from an id and a salt.
fn data_file_path(id: u64, salt: u64) -> String {
    let mut bytes = [0u8; 16];
    let mut state = id
        .wrapping_mul(0x9E37_79B9_7F4A_7C15)
        .wrapping_add(salt.wrapping_mul(0xD1B5_4A32_D192_ED03));
    for chunk in bytes.chunks_mut(8) {
        state = state.wrapping_add(0x9E37_79B9_7F4A_7C15);
        let mut z = state;
        z = (z ^ (z >> 30)).wrapping_mul(0xBF58_476D_1CE4_E5B9);
        z = (z ^ (z >> 27)).wrapping_mul(0x94D0_49BB_1331_11EB);
        z ^= z >> 31;
        let n = chunk.len();
        chunk.copy_from_slice(&z.to_le_bytes()[..n]);
    }
    let mut stem = String::with_capacity(50);
    for &b in &bytes[..3] {
        for i in (0..8).rev() {
            stem.push(if (b >> i) & 1 == 1 { '1' } else { '0' });
        }
    }
    const HEX: &[u8; 16] = b"0123456789abcdef";
    for &b in &bytes[3..] {
        stem.push(HEX[(b >> 4) as usize] as char);
        stem.push(HEX[(b & 0xf) as usize] as char);
    }
    format!("data/{stem}.lance")
}

fn data_file(path: String, fields: Vec<i32>, column_indices: Vec<i32>, bytes: u64) -> DataFile {
    DataFile {
        path,
        fields,
        column_indices,
        file_major_version: 2,
        file_minor_version: 0,
        file_size_bytes: bytes,
        base_id: None,
    }
}

/// A fragment of one row with one data file of two columns.
fn make_fragment(id: u64) -> Fragment {
    let mut fragment = Fragment::new(id);
    fragment
        .files
        .push(data_file(data_file_path(id, 0), vec![0, 1], vec![0, 1], 1024));
    fragment.physical_rows = Some(1);
    fragment
}

/// The data file that adding a column attaches to a fragment.
fn make_backfill_data_file(frag_id: u64, col: u32) -> DataFile {
    data_file(
        data_file_path(frag_id, col as u64 + 1),
        vec![2 + col as i32],
        vec![0],
        4096,
    )
}

/// The data file that replacing a fragment's data writes.
fn make_replacement_data_file(frag_id: u64, round: u32) -> DataFile {
    const REPLACEMENT_SALT_BASE: u64 = 1 << 32;
    data_file(
        data_file_path(frag_id, REPLACEMENT_SALT_BASE + round as u64),
        vec![0, 1],
        vec![0, 1],
        1024,
    )
}

fn tagged(action: FragmentAction) -> FragmentMetadataMutation {
    FragmentMetadataMutation {
        action_sequence: 1,
        action: Some(action),
        fragment_count_delta: 0,
        total_rows_delta: 0,
        visible_rows_delta: 0,
    }
}

fn child_ref(index: u64, object_size: u64, height: u32) -> FragmentMetadataChild {
    FragmentMetadataChild {
        path: format!("_bt/node/{index}.node"),
        base_id: None,
        min_key: index * 10,
        num_keys: 10,
        height,
        num_children: u32::from(height > 0),
        total_rows: 10,
        object_size,
        materialized_through_action_sequence: 0,
        visible_rows: 10,
    }
}

fn put_message(tag: u32, body: &[u8], out: &mut Vec<u8>) {
    prost::encoding::encode_key(tag, prost::encoding::WireType::LengthDelimited, out);
    prost::encoding::encode_varint(body.len() as u64, out);
    out.extend_from_slice(body);
}

fn put_uint(tag: u32, value: u64, out: &mut Vec<u8>) {
    if value != 0 {
        prost::encoding::uint64::encode(tag, &value, out);
    }
}

fn encoded_child(child: &FragmentMetadataChild) -> Vec<u8> {
    let mut out = Vec::new();
    prost::encoding::string::encode(1, &child.path, &mut out);
    put_uint(2, child.min_key, &mut out);
    put_uint(3, child.num_keys, &mut out);
    put_uint(4, child.height as u64, &mut out);
    put_uint(5, child.num_children as u64, &mut out);
    put_uint(6, child.total_rows, &mut out);
    put_uint(7, child.object_size, &mut out);
    put_uint(8, child.materialized_through_action_sequence, &mut out);
    put_uint(9, child.visible_rows, &mut out);
    if let Some(base_id) = child.base_id {
        prost::encoding::uint32::encode(10, &base_id, &mut out);
    }
    out
}

fn encoded_file(file: &DataFile) -> Vec<u8> {
    let mut out = Vec::new();
    prost::encoding::string::encode(1, &file.path, &mut out);
    prost::encoding::int32::encode_packed(2, &file.fields, &mut out);
    prost::encoding::int32::encode_packed(3, &file.column_indices, &mut out);
    put_uint(4, file.file_major_version as u64, &mut out);
    put_uint(5, file.file_minor_version as u64, &mut out);
    put_uint(6, file.file_size_bytes, &mut out);
    if let Some(base_id) = file.base_id {
        prost::encoding::uint32::encode(7, &base_id, &mut out);
    }
    out
}

fn encoded_mutation(mutation: &FragmentMetadataMutation) -> Vec<u8> {
    let mut action = Vec::new();
    match mutation.action.as_ref().unwrap().action.as_ref().unwrap() {
        Action::RemoveFragment(id) => prost::encoding::uint64::encode(2, id, &mut action),
        Action::AddDataFile(add) => {
            let mut body = Vec::new();
            put_uint(1, add.frag_id, &mut body);
            put_message(2, &encoded_file(add.file.as_ref().unwrap()), &mut body);
            put_message(3, &body, &mut action);
        }
        other => panic!("unexpected action {other:?}"),
    }
    let mut out = Vec::new();
    put_uint(1, mutation.action_sequence, &mut out);
    put_message(2, &action, &mut out);
    out
}

#[test]
fn internal_logical_bytes_matches_protobuf_encoding() {
    let children = vec![child_ref(0, 1_000, 0), child_ref(1, 2_000, 0)];
    let buffer = vec![
        tagged(action::remove_fragment(3)),
        tagged(action::add_data_file(7, &make_backfill_data_file(7, 0))),
    ];
    let mut encoded = Vec::new();
    for child in &children {
        put_message(1, &encoded_child(child), &mut encoded);
    }
    for mutation in &buffer {
        put_message(2, &encoded_mutation(mutation), &mut encoded);
    }

    assert_eq!(internal_logical_bytes(&children, &buffer), encoded.len() as u64);
}

#[test]
fn split_internal_uses_parent_encoding_not_child_payload_sizes() {
    let children = (0..8)
        .map(|index| child_ref(index, 1024 * 1024, 0))
        .collect();
    let pieces = split_internal(children, Vec::new(), 1024, 4);

    assert_eq!(pieces.len(), 2);
    assert!(pieces.iter().all(|(children, _)| children.len() == 4));
    assert!(pieces
        .iter()
        .all(|(children, buffer)| internal_logical_bytes(children, buffer) <= 1024));
}

#[test]
fn split_internal_repairs_singleton_tail_with_its_gap_messages() {
    let children = (0..7).map(|index| child_ref(index, 1, 0)).collect();
    let buffer = vec![tagged(action::remove_fragment(55))];
    let pieces = split_internal(children, buffer, 1024, 3);
    assert_eq!(
        pieces
            .iter()
            .map(|(children, _)| children.len())
            .collect::<Vec<_>>(),
        vec![3, 2, 2]
    );
    assert!(pieces[1].1.is_empty());
    assert_eq!(action_key(&pieces[2].1[0]), 55);
    assert_eq!(pieces[2].0[0].min_key, 50);
    assert!(pieces
        .iter()
        .all(|(children, buffer)| internal_logical_bytes(children, buffer) <= 1024));
}

#[test]
fn hot_internal_node_is_not_an_underflow_merge_candidate() {
    let config = FragmentMetadataTreeConfig::new(1024, 16);
    let mut child = child_ref(0, 512, 1);
    child.num_children = 1;
    assert!(!is_underflow(&child, &config));

    child.object_size = 128;
    assert!(is_underflow(&child, &config));
}

#[test]
fn internal_overflow_checks_encoded_bytes_and_fanout() {
    let config = FragmentMetadataTreeConfig::new(256, 4);
    let four_children: Vec<_> = (0..4).map(|index| child_ref(index, 1_000_000, 0)).collect();
    assert!(!internal_overflows(&four_children, &vec![], &config));

    let five_children: Vec<_> = (0..5).map(|index| child_ref(index, 1, 0)).collect();
    assert!(internal_overflows(&five_children, &vec![], &config));

    let hot_buffer: Vec<_> = (0..20)
        .map(|fragment_id| tagged(action::remove_fragment(fragment_id)))
        .collect();
    assert!(internal_overflows(&four_children, &hot_buffer, &config));
}

#[test]
fn semantic_pressure_is_not_structural_overflow() {
    let config = FragmentMetadataTreeConfig::new(4096, 4).with_semantic_buffer_bytes(64);
    let children: Vec<_> = (0..4).map(|index| child_ref(index, 1024, 0)).collect();
    let pending: Vec<_> = (0..20)
        .map(|fragment_id| tagged(action::remove_fragment(fragment_id)))
        .collect();
    assert!(buffer_pressured(&pending, &config));
    assert!(!internal_overflows(&children, &pending, &config));
}

#[test]
fn clear_deletion_file_action() {
    let mut fragment = make_fragment(7);
    fragment.deletion_file = Some(DeletionFile {
        read_version: 3,
        id: 11,
        file_type: DeletionFileType::Bitmap,
        num_deleted_rows: Some(1),
        base_id: None,
    });
    let mut fragments = BTreeMap::from([(fragment.id, fragment)]);

    apply_actions(&mut fragments, vec![tagged(action::clear_deletion_file(7))]).unwrap();

    assert_eq!(fragments[&7].deletion_file, None);
}

#[test]
fn replace_data_file_swaps_the_named_file_only() {
    let fragment = make_fragment(7);
    let expected_path = fragment.files[0].path.clone();
    let mut fragments = BTreeMap::from([(fragment.id, fragment)]);
    let replacement = make_replacement_data_file(7, 0);
    apply_actions(
        &mut fragments,
        vec![tagged(action::replace_data_file(
            7,
            &expected_path,
            &replacement,
        ))],
    )
    .unwrap();
    assert_eq!(fragments[&7].files.len(), 1);
    assert_eq!(fragments[&7].files[0].path, replacement.path);

    // The named file is gone: a storage invariant violation, not a user error.
    let error = apply_actions(
        &mut fragments,
        vec![tagged(action::replace_data_file(
            7,
            &expected_path,
            &replacement,
        ))],
    )
    .unwrap_err();
    assert!(matches!(error, Error::Internal { .. }), "{}", error.message());
}

#[test]
fn mutation_actions_reject_missing_fragment() {
    let deletion_file = pb::DeletionFile {
        read_version: 3,
        id: 11,
        file_type: pb::DELETION_FILE_BITMAP,
        num_deleted_rows: 1,
        base_id: None,
    };
    let cases = [
        (
            "AddDataFile",
            action::add_data_file(7, &make_backfill_data_file(7, 0)),
        ),
        (
            "RemoveDataFile",
            action::remove_data_file(7, "missing.lance"),
        ),
        (
            "AddDeletionFile",
            FragmentAction {
                action: Some(Action::AddDeletionFile(pb::AddDeletionFile {
                    frag_id: 7,
                    deletion_file: Some(deletion_file),
                })),
            },
        ),
    ];

    for (action_name, action) in cases {
        let error = apply_actions(&mut BTreeMap::new(), vec![tagged(action)]).unwrap_err();
        assert!(matches!(error, Error::InvalidInput { .. }));
        let message = error.message();
        assert!(message.contains(action_name), "{message}");
        assert!(message.contains("frag_id=7"), "{message}");
    }
}
