//! Checking what is read from storage.

use fragment_tree::action;
use fragment_tree::error::Error;
use fragment_tree::paths::{resolve_under, root_path};
use fragment_tree::pb::{
    Action, AddDataFile, DataFragment, FragmentAction, FragmentMetadataChild,
    FragmentMetadataMutation, FragmentMetadataRoot,
};
use fragment_tree::validation::{buffer, fragment, root};

#[test]
fn rejects_height_overflow_without_panicking() {
    let tree_root = FragmentMetadataRoot {
        next_action_sequence: 1,
        children: vec![FragmentMetadataChild {
            path: "_bt/node/overflow.node".into(),
            base_id: None,
            min_key: 0,
            num_keys: 0,
            height: u32::MAX,
            num_children: 2,
            total_rows: 0,
            object_size: 1,
            materialized_through_action_sequence: 0,
            visible_rows: 0,
        }],
        buffer: vec![],
    };
    let error = root(&tree_root, 1).unwrap_err();
    assert!(matches!(error, Error::CorruptFile { .. }), "{}", error.message());
    assert!(error.message().contains("height"), "{}", error.message());
}

#[test]
fn rejects_incomplete_actions() {
    let cases = [
        None,
        Some(FragmentAction { action: None }),
        Some(FragmentAction {
            action: Some(Action::AddDataFile(AddDataFile {
                frag_id: 1,
                file: None,
            })),
        }),
    ];
    for action in cases {
        let error = buffer(
            &vec![FragmentMetadataMutation {
                action_sequence: 1,
                action,
                fragment_count_delta: 0,
                total_rows_delta: 0,
                visible_rows_delta: 0,
            }],
            1,
            2,
        )
        .unwrap_err();
        assert!(matches!(error, Error::CorruptFile { .. }), "{}", error.message());
    }
}

#[test]
fn sequence_numbers_may_have_gaps_but_must_be_unique() {
    let make = |action_sequence| FragmentMetadataMutation {
        action_sequence,
        action: Some(action::remove_fragment(1)),
        fragment_count_delta: 0,
        total_rows_delta: 0,
        visible_rows_delta: 0,
    };
    buffer(&vec![make(5), make(2)], 1, 6).unwrap();
    for actions in [vec![make(2), make(2)], vec![make(0)], vec![make(6)]] {
        let error = buffer(&actions, 1, 6).unwrap_err();
        assert!(matches!(error, Error::CorruptFile { .. }), "{}", error.message());
        assert!(error.message().contains("action sequence number"));
    }
}

#[test]
fn zero_is_a_known_row_count() {
    let fragment = fragment(DataFragment {
        id: 1,
        files: vec![],
        overlays: vec![],
        deletion_file: None,
        row_id_sequence: None,
        physical_rows: 0,
        last_updated_at_version_sequence: None,
        created_at_version_sequence: None,
    })
    .unwrap();
    assert_eq!(fragment.physical_rows, Some(0));
    assert_eq!(fragment.num_rows(), Some(0));
}

#[test]
fn root_uuid_uses_display_order() {
    let uuid = uuid::Uuid::parse_str("00112233-4455-6677-8899-aabbccddeeff").unwrap();
    assert_eq!(
        root_path(&uuid.as_bytes().to_vec()).unwrap(),
        "_bt/root/00112233-4455-6677-8899-aabbccddeeff.root"
    );
}

#[test]
fn rejects_invalid_root_uuid_length() {
    for length in [0, 15, 17] {
        let result = root_path(&vec![0; length]);
        assert!(matches!(result, Err(Error::CorruptFile { .. })));
    }
    assert_eq!(
        root_path(&vec![0; 15]).unwrap_err().message(),
        "root_uuid has 15 bytes; expected 16"
    );
}

#[test]
fn metadata_paths_stay_inside_their_directory() {
    let base = "warehouse/table".to_string();
    assert_eq!(
        resolve_under(&base, &"_bt/leaf/a.lance".to_string()).unwrap(),
        "warehouse/table/_bt/leaf/a.lance"
    );
    assert_eq!(
        resolve_under(&String::new(), &"_bt/leaf/a.lance".to_string()).unwrap(),
        "_bt/leaf/a.lance"
    );
    for path in ["data/a.lance", "/_bt/leaf/a.lance", "_bt/leaf/a.lance/"] {
        assert_eq!(
            resolve_under(&base, &path.to_string()).unwrap_err().message(),
            "Metadata path must be relative to _bt/"
        );
    }
    for path in [
        "_bt//a.lance",
        "_bt/../a.lance",
        "_bt/./a.lance",
        "_bt/leaf/..",
        "_bt/leaf/a\n.lance",
        "_bt/leaf/a\u{7f}.lance",
        "_bt/leaf/a.lance//",
    ] {
        assert_eq!(
            resolve_under(&base, &path.to_string()).unwrap_err().message(),
            "Invalid metadata path"
        );
    }
}
