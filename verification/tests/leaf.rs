//! Leaves as columns.

use fragment_tree::error::{Error, LeafField, Reason};
use fragment_tree::leaf::{decode, encode, HeaderCell, LeafColumns, LeafHeaders, OverlayCell};
use fragment_tree::leaf_reads::{
    checked_row, child_dataset, headers_of, resolve_child, row_of, Dataset, ForeignBase,
    HeaderBatch,
};
use fragment_tree::node::leaf_ref;
use fragment_tree::record::{
    DataFile, DataOverlayFile, DeletionFile, DeletionFileType, Fragment, LineageMeta,
};

/// A data file path derived from an id and a salt.
fn data_file_path(id: u64, salt: u64) -> String {
    let mut bytes = [0u8; 16];
    let mut state = id
        .wrapping_mul(0x9E37_79B9_7F4A_7C15)
        .wrapping_add(salt.wrapping_mul(0xD1B5_4A32_D192_ED03));
    for chunk in bytes.chunks_mut(8) {
        state = state.wrapping_add(0x9E37_79B9_7F4A_7C15);
        let mut z = state;
        z = (z ^ (z >> 30)).wrapping_mul(0xBF58_476D_1CE4_E5B9);
        z = (z ^ (z >> 27)).wrapping_mul(0x94D0_49BB_1331_11EB);
        z ^= z >> 31;
        let n = chunk.len();
        chunk.copy_from_slice(&z.to_le_bytes()[..n]);
    }
    let mut stem = String::with_capacity(50);
    for &b in &bytes[..3] {
        for i in (0..8).rev() {
            stem.push(if (b >> i) & 1 == 1 { '1' } else { '0' });
        }
    }
    const HEX: &[u8; 16] = b"0123456789abcdef";
    for &b in &bytes[3..] {
        stem.push(HEX[(b >> 4) as usize] as char);
        stem.push(HEX[(b & 0xf) as usize] as char);
    }
    format!("data/{stem}.lance")
}

fn data_file(path: String, fields: Vec<i32>, column_indices: Vec<i32>, bytes: u64) -> DataFile {
    DataFile {
        path,
        fields,
        column_indices,
        file_major_version: 2,
        file_minor_version: 0,
        file_size_bytes: bytes,
        base_id: None,
    }
}

/// A fragment of one row with one data file of two columns.
fn make_fragment(id: u64) -> Fragment {
    let mut fragment = Fragment::new(id);
    fragment
        .files
        .push(data_file(data_file_path(id, 0), vec![0, 1], vec![0, 1], 1024));
    fragment.physical_rows = Some(1);
    fragment
}

fn leaf_of(fragments: Vec<Fragment>) -> LeafColumns {
    encode(&fragments).unwrap()
}

fn reason_of(leaf: &LeafColumns) -> Reason {
    match decode(leaf).unwrap_err() {
        Error::CorruptFile { reason } => reason,
        other => panic!("unexpected {other:?}"),
    }
}

#[test]
fn nested_leaf_preserves_file_order_overlays_and_mappings() {
    let mut original = make_fragment(7);
    original.files[0].fields = vec![-1, 2];
    original.files[0].column_indices = vec![-1, 0];
    original.files[0].base_id = Some(0);
    original.files.push(original.files[0].clone());
    original.overlays.push(DataOverlayFile {
        data_file: original.files[0].clone(),
        overlay_meta: vec![24, 3],
    });
    let mut earlier = original.overlays[0].clone();
    earlier.overlay_meta = vec![24, 1];
    earlier.data_file.path = "earlier.lance".into();
    original.overlays.push(earlier);
    assert_eq!(original.overlays[0].overlay_meta, vec![24, 3]);
    assert_eq!(original.overlays[1].overlay_meta, vec![24, 1]);
    let leaf = leaf_of(vec![original.clone()]);
    assert_eq!(leaf.ids.len(), 1);
    assert_eq!(decode(&leaf).unwrap(), vec![original]);
}

#[test]
fn rejects_duplicated_header_fields() {
    for populated in ["id", "files", "overlays"] {
        let mut leaf = leaf_of(vec![make_fragment(7)]);
        if let Some(HeaderCell::Record(header)) = &mut leaf.headers[0] {
            let file = make_fragment(7).files.remove(0);
            match populated {
                "id" => header.id = 7,
                "files" => header.files.push(file),
                _ => header.overlays.push(DataOverlayFile {
                    data_file: file,
                    overlay_meta: vec![],
                }),
            }
        }
        assert_eq!(reason_of(&leaf), Reason::FragmentMetaFilled);
    }
}

#[test]
fn mapping_values_have_exact_i32_width() {
    let mut leaf = leaf_of(vec![make_fragment(7)]);
    leaf.files.field_ids.values[0] = Some(vec![1, 2, 3]);
    assert_eq!(reason_of(&leaf), Reason::LeafMappingWidth { bytes: 3 });
    leaf.files.field_ids.values[0] = Some(vec![]);
    assert!(decode(&leaf).unwrap()[0].files[0].fields.is_empty());
}

#[test]
fn rejects_null_dictionary_entries() {
    let mut leaf = leaf_of(vec![make_fragment(7)]);
    leaf.files.field_ids.keys[0] = None;
    assert_eq!(
        reason_of(&leaf),
        Reason::LeafNulls {
            field: LeafField::FieldIds
        }
    );
    let mut leaf = leaf_of(vec![make_fragment(7)]);
    leaf.files.field_ids.values[0] = None;
    let reason = reason_of(&leaf);
    assert_eq!(
        reason,
        Reason::LeafDictionaryNulls {
            field: LeafField::FieldIds
        }
    );
    assert!(reason.message().contains("null"));
}

#[test]
fn rejects_incomplete_file_mapping() {
    let mut original = make_fragment(0);
    original.files[0].fields = vec![0, 1];
    original.files[0].column_indices = vec![0];
    let error = decode(&encode(&vec![original]).unwrap()).unwrap_err();
    assert!(matches!(error, Error::CorruptFile { .. }));
    assert!(error.message().contains("fewer column_indices"));
}

#[test]
fn rejects_invalid_ids() {
    for ids in [vec![7, 7], vec![7, 6], vec![u32::MAX as u64 + 1]] {
        let fragments = ids
            .iter()
            .map(|id| {
                let mut f = make_fragment(0);
                f.id = *id;
                f
            })
            .collect::<Vec<_>>();
        assert!(matches!(
            decode(&encode(&fragments).unwrap()),
            Err(Error::CorruptFile { .. })
        ));
    }
}

#[test]
fn leaves_of_all_shapes_read_back() {
    let mut fragments = Vec::new();
    for id in 0..12u64 {
        let mut fragment = make_fragment(id).with_physical_rows(id as usize);
        for extra in 0..id % 4 {
            let mut file = fragment.files[0].clone();
            file.path = format!("extra-{extra}");
            file.fields = (0..extra as i32).collect();
            file.column_indices = vec![i32::MIN, i32::MAX, -1, 0, 1, 256, 65536, 1 << 24];
            file.base_id = if extra == 1 { Some(9) } else { None };
            fragment.files.push(file);
        }
        if id % 3 == 0 {
            fragment.files.clear();
        }
        if id % 5 == 1 {
            fragment.deletion_file = Some(DeletionFile {
                read_version: id,
                id,
                file_type: DeletionFileType::Array,
                num_deleted_rows: Some(0),
                base_id: Some(1),
            });
            fragment.row_id_meta = Some(LineageMeta::Inline(vec![1, 2, 3]));
            fragment.created_at_version_meta = Some(LineageMeta::External {
                path: "rows".to_string(),
                offset: 5,
                size: 6,
            });
            fragment.last_updated_at_version_meta = Some(LineageMeta::Column);
        }
        fragments.push(fragment);
    }
    let leaf = leaf_of(fragments.clone());
    assert_eq!(decode(&leaf).unwrap(), fragments);
}

#[test]
fn equal_mappings_are_stored_once_in_order_of_appearance() {
    let mut fragment = make_fragment(3);
    let mut other = fragment.files[0].clone();
    other.fields = vec![5];
    let first = fragment.files[0].clone();
    fragment.files.push(other);
    fragment.files.push(first);
    let leaf = leaf_of(vec![fragment]);
    assert_eq!(leaf.files.field_ids.keys, vec![Some(0), Some(1), Some(0)]);
    assert_eq!(
        leaf.files.field_ids.values,
        vec![Some(vec![0, 0, 0, 0, 1, 0, 0, 0]), Some(vec![5, 0, 0, 0])]
    );
    assert_eq!(leaf.files.column_indices.keys, vec![Some(0); 3]);
}

#[test]
fn every_gap_in_a_leaf_is_refused() {
    let mut original = make_fragment(1);
    original.overlays.push(DataOverlayFile {
        data_file: original.files[0].clone(),
        overlay_meta: vec![1],
    });
    let nulls = |field| Reason::LeafNulls { field };
    let whole = || leaf_of(vec![original.clone()]);
    let mut leaf = whole();
    leaf.ids[0] = None;
    assert_eq!(reason_of(&leaf), nulls(LeafField::Id));
    let mut leaf = whole();
    leaf.headers[0] = None;
    assert_eq!(reason_of(&leaf), nulls(LeafField::FragmentMeta));
    let mut leaf = whole();
    leaf.file_lengths[0] = None;
    assert_eq!(reason_of(&leaf), nulls(LeafField::Files));
    let mut leaf = whole();
    leaf.files.valid[0] = false;
    assert_eq!(reason_of(&leaf), nulls(LeafField::Item));
    let mut leaf = whole();
    leaf.files.path[0] = None;
    assert_eq!(reason_of(&leaf), nulls(LeafField::Path));
    let mut leaf = whole();
    leaf.files.column_indices.keys[0] = None;
    assert_eq!(reason_of(&leaf), nulls(LeafField::ColumnIndices));
    let mut leaf = whole();
    leaf.files.major_version[0] = None;
    assert_eq!(reason_of(&leaf), nulls(LeafField::MajorVersion));
    let mut leaf = whole();
    leaf.files.minor_version[0] = None;
    assert_eq!(reason_of(&leaf), nulls(LeafField::MinorVersion));
    let mut leaf = whole();
    leaf.files.file_size_bytes[0] = None;
    assert_eq!(reason_of(&leaf), nulls(LeafField::FileSizeBytes));
    let mut leaf = whole();
    leaf.overlay_lengths[0] = None;
    assert_eq!(reason_of(&leaf), nulls(LeafField::Overlays));
    let mut leaf = whole();
    leaf.overlay_valid[0] = false;
    assert_eq!(reason_of(&leaf), nulls(LeafField::Item));
    let mut leaf = whole();
    leaf.overlay_files.valid[0] = false;
    assert_eq!(reason_of(&leaf), nulls(LeafField::DataFile));
    let mut leaf = whole();
    leaf.overlay_meta[0] = None;
    assert_eq!(reason_of(&leaf), nulls(LeafField::OverlayMeta));
    let mut leaf = whole();
    leaf.files.field_ids.keys[0] = Some(1);
    assert_eq!(
        reason_of(&leaf),
        Reason::LeafDictionaryKey {
            field: LeafField::FieldIds,
            code: 1
        }
    );
    let mut leaf = whole();
    leaf.headers[0] = Some(HeaderCell::Invalid);
    assert_eq!(reason_of(&leaf), Reason::FragmentMetaInvalid);
    let mut leaf = whole();
    leaf.overlay_meta[0] = Some(OverlayCell::Invalid);
    assert_eq!(reason_of(&leaf), Reason::OverlayMetaInvalid);
    let mut leaf = whole();
    leaf.overlay_meta[0] = Some(OverlayCell::WithDataFile);
    assert_eq!(reason_of(&leaf), Reason::OverlayMetaFile);
    let mut leaf = whole();
    leaf.files.major_version[0] = Some(0);
    leaf.files.minor_version[0] = Some(2);
    leaf.files.field_ids.values[0] = Some(vec![3, 0, 0, 0, 3, 0, 0, 0]);
    assert_eq!(reason_of(&leaf), Reason::UnsortedFieldIds);
}

fn headers(fragments: &[Fragment]) -> HeaderBatch {
    let leaf = leaf_of(fragments.to_vec());
    HeaderBatch::new(leaf.ids, leaf.headers)
}

#[test]
fn headers_count_rows_across_batches() {
    let fragments: Vec<Fragment> = (3..9u64)
        .map(|id| make_fragment(id).with_physical_rows(id as usize))
        .collect();
    let child = leaf_ref("_bt/leaf/a.lance".to_string(), &fragments, 100, 0).unwrap();
    let batches = vec![headers(&fragments[..2]), headers(&fragments[2..])];
    let kept = headers_of(&child, 6, &batches).unwrap();
    assert_eq!(kept.len(), 6);
    for (header, fragment) in kept.iter().zip(&fragments) {
        assert_eq!(header.id, fragment.id);
        assert_eq!(header.physical_rows, fragment.physical_rows);
        assert!(header.files.is_empty());
    }
    assert_eq!(row_of(&kept, 5), Some(2));
    assert_eq!(row_of(&kept, 2), None);
    assert_eq!(row_of(&kept, 9), None);

    assert_eq!(
        headers_of(&child, 5, &batches).unwrap_err(),
        Error::CorruptFile {
            reason: Reason::LeafRows {
                rows: 5,
                num_keys: 6
            }
        }
    );
    let mut wrong = child.clone();
    wrong.total_rows += 1;
    assert_eq!(
        headers_of(&wrong, 6, &batches).unwrap_err().message(),
        "Leaf contents differ from its parent reference: keys=6, first=Some(3), total_rows=33, \
         visible_rows=33; the parent declares num_keys=6, min_key=3, total_rows=34, \
         visible_rows=33"
    );
    let repeated = vec![headers(&fragments[..2]), headers(&fragments[1..])];
    assert_eq!(
        headers_of(&child, 6, &repeated).unwrap_err(),
        Error::CorruptFile {
            reason: Reason::LeafFragmentId { id: 4 }
        }
    );
}

#[test]
fn headers_refuse_rows_one_by_one() {
    let mut kept = LeafHeaders::new();
    let batch = leaf_of(vec![make_fragment(1), make_fragment(2)]);
    kept.extend(&batch.ids, &batch.headers).unwrap();
    assert_eq!(kept.first_id, Some(1));
    assert_eq!(kept.total_rows, 2);
    assert_eq!(kept.visible_rows, 2);
    let mut batch = leaf_of(vec![make_fragment(3)]);
    batch.headers[0] = Some(HeaderCell::Invalid);
    assert_eq!(
        kept.extend(&batch.ids, &batch.headers).unwrap_err().message(),
        "invalid fragment_meta for fragment 3"
    );
    let mut batch = leaf_of(vec![make_fragment(3)]);
    if let Some(HeaderCell::Record(header)) = &mut batch.headers[0] {
        header.physical_rows = u64::MAX;
    }
    assert_eq!(
        kept.extend(&batch.ids, &batch.headers).unwrap_err().message(),
        "leaf total_rows overflows at fragment 3"
    );
    assert_eq!(kept.kept.len(), 2);
}

#[test]
fn one_row_of_a_leaf_is_the_fragment_asked_for() {
    let fragment = make_fragment(4);
    let stamped = checked_row(&vec![fragment.clone()], 2, 4, Some(6)).unwrap();
    assert_eq!(stamped.files[0].base_id, Some(6));
    assert_eq!(
        checked_row(&vec![fragment.clone()], 2, 4, None).unwrap(),
        fragment
    );
    for decoded in [vec![], vec![make_fragment(5)], vec![fragment.clone(), fragment]] {
        assert_eq!(
            checked_row(&decoded, 2, 4, None).unwrap_err().message(),
            "Leaf row 2 does not decode to fragment 4"
        );
    }
}

#[test]
fn references_resolve_in_the_dataset_they_name() {
    let dataset = |base: &str| Dataset {
        store_prefix: "file".to_string(),
        memory_store: None,
        base: base.to_string(),
    };
    let own = dataset("mine");
    let bases = vec![ForeignBase {
        id: 3,
        dataset: dataset("theirs"),
    }];
    let mut child = leaf_ref("_bt/leaf/a.lance".to_string(), &vec![make_fragment(1)], 9, 0).unwrap();
    assert_eq!(resolve_child(&own, &bases, &child).unwrap(), "mine/_bt/leaf/a.lance");
    child.base_id = Some(3);
    assert_eq!(
        resolve_child(&own, &bases, &child).unwrap(),
        "theirs/_bt/leaf/a.lance"
    );
    assert_eq!(child_dataset(&own, &bases, None).unwrap().base, "mine");
    assert_eq!(
        child_dataset(&own, &bases, Some(3)).unwrap().place(&child.path).path,
        "theirs/_bt/leaf/a.lance"
    );
    assert_eq!(
        child_dataset(&own, &bases, Some(4)).err().unwrap().message(),
        "Tree child names unknown base_id 4"
    );
}

#[test]
fn uneven_columns_are_not_a_leaf() {
    let fragments = vec![make_fragment(1), make_fragment(2)];
    assert!(leaf_of(fragments.clone()).is_shaped());
    let mut leaf = leaf_of(fragments.clone());
    leaf.headers.pop();
    assert!(!leaf.is_shaped());
    let mut leaf = leaf_of(fragments.clone());
    leaf.files.base_id.pop();
    assert!(!leaf.is_shaped());
    let mut leaf = leaf_of(fragments.clone());
    leaf.file_lengths[1] = Some(7);
    assert!(!leaf.is_shaped());
    leaf.file_lengths[1] = Some(usize::MAX);
    assert!(!leaf.is_shaped());
    leaf.file_lengths[1] = None;
    assert!(leaf.is_shaped());
}
