//! Lowering commits to actions and counting what they change.

use std::collections::BTreeMap;

use fragment_tree::action;
use fragment_tree::commit::{
    aggregate_deltas, data_replacement, require_known_counts, TouchedFragments,
};
use fragment_tree::pb::{Action, FragmentAction, FragmentMetadataMutation};
use fragment_tree::record::{DataFile, DeletionFile, DeletionFileType, Fragment};
use fragment_tree::replay::apply_actions;

/// A data file path derived from an id and a salt.
fn data_file_path(id: u64, salt: u64) -> String {
    let mut bytes = [0u8; 16];
    let mut state = id
        .wrapping_mul(0x9E37_79B9_7F4A_7C15)
        .wrapping_add(salt.wrapping_mul(0xD1B5_4A32_D192_ED03));
    for chunk in bytes.chunks_mut(8) {
        state = state.wrapping_add(0x9E37_79B9_7F4A_7C15);
        let mut z = state;
        z = (z ^ (z >> 30)).wrapping_mul(0xBF58_476D_1CE4_E5B9);
        z = (z ^ (z >> 27)).wrapping_mul(0x94D0_49BB_1331_11EB);
        z ^= z >> 31;
        let n = chunk.len();
        chunk.copy_from_slice(&z.to_le_bytes()[..n]);
    }
    let mut stem = String::with_capacity(50);
    for &b in &bytes[..3] {
        for i in (0..8).rev() {
            stem.push(if (b >> i) & 1 == 1 { '1' } else { '0' });
        }
    }
    const HEX: &[u8; 16] = b"0123456789abcdef";
    for &b in &bytes[3..] {
        stem.push(HEX[(b >> 4) as usize] as char);
        stem.push(HEX[(b & 0xf) as usize] as char);
    }
    format!("data/{stem}.lance")
}

fn data_file(path: String, fields: Vec<i32>, column_indices: Vec<i32>, bytes: u64) -> DataFile {
    DataFile {
        path,
        fields,
        column_indices,
        file_major_version: 2,
        file_minor_version: 0,
        file_size_bytes: bytes,
        base_id: None,
    }
}

/// A fragment of one row with one data file of two columns.
fn make_fragment(id: u64) -> Fragment {
    let mut fragment = Fragment::new(id);
    fragment
        .files
        .push(data_file(data_file_path(id, 0), vec![0, 1], vec![0, 1], 1024));
    fragment.physical_rows = Some(1);
    fragment
}

/// The data file that adding a column attaches to a fragment.
fn make_backfill_data_file(frag_id: u64, col: u32) -> DataFile {
    data_file(
        data_file_path(frag_id, col as u64 + 1),
        vec![2 + col as i32],
        vec![0],
        4096,
    )
}

/// The data file that replacing a fragment's data writes.
fn make_replacement_data_file(frag_id: u64, round: u32) -> DataFile {
    const REPLACEMENT_SALT_BASE: u64 = 1 << 32;
    data_file(
        data_file_path(frag_id, REPLACEMENT_SALT_BASE + round as u64),
        vec![0, 1],
        vec![0, 1],
        1024,
    )
}

#[test]
fn data_replacement_swaps_appends_or_rejects_like_production() {
    let fragment = make_fragment(7);

    // Exact fields and file version: swap the named file in place.
    let matching = make_replacement_data_file(7, 0);
    let actions = data_replacement(Some(&fragment), 7, &matching, vec![]).unwrap();
    assert_eq!(actions.len(), 1);
    match actions[0].action.as_ref().unwrap() {
        Action::ReplaceDataFile(replace) => {
            assert_eq!(replace.expected_path, fragment.files[0].path);
            assert_eq!(replace.path, matching.path);
        }
        other => panic!("expected ReplaceDataFile, got {other:?}"),
    }

    // Disjoint fields: the all-NULL add-column case appends verbatim.
    let disjoint = make_backfill_data_file(7, 0);
    let actions = data_replacement(Some(&fragment), 7, &disjoint, vec![]).unwrap();
    assert!(matches!(
        actions[0].action.as_ref().unwrap(),
        Action::AddDataFile(add) if add.frag_id == 7
    ));

    // Identical file: rejected as a no-op.
    let error = data_replacement(Some(&fragment), 7, &fragment.files[0], vec![]).unwrap_err();
    assert!(error.message().contains("no changes"), "{}", error.message());

    // Partial field overlap: rejected.
    let mut overlapping = make_replacement_data_file(7, 1);
    overlapping.fields = vec![1, 99];
    let error = data_replacement(Some(&fragment), 7, &overlapping, vec![]).unwrap_err();
    assert!(
        error.message().contains("partially overlaps"),
        "{}",
        error.message()
    );

    // Missing fragment: rejected.
    let error = data_replacement(None, 99, &matching, vec![]).unwrap_err();
    assert!(error.message().contains("fragment 99"), "{}", error.message());
}

#[test]
fn aggregate_deltas_reject_unresolved_mutations_and_stale_appends() {
    let touched = TouchedFragments::default();
    let error = aggregate_deltas(&vec![action::remove_fragment(3)], &touched, 10).unwrap_err();
    assert!(
        error.message().contains("without resolving"),
        "{}",
        error.message()
    );

    let error = aggregate_deltas(&vec![action::add_fragment(&make_fragment(3))], &touched, 10)
        .unwrap_err();
    assert!(
        error.message().contains("without resolving"),
        "{}",
        error.message()
    );

    let deltas = aggregate_deltas(&vec![action::add_fragment(&make_fragment(10))], &touched, 10)
        .unwrap();
    assert_eq!(deltas.len(), 1);
    assert_eq!(deltas[0].fragment_count, 1);
    assert_eq!(deltas[0].physical_rows, 1);
    assert_eq!(deltas[0].visible_rows, 1);

    // The writer invariant: unknown counts are rejected at the door.
    let mut unknown_physical = make_fragment(10);
    unknown_physical.physical_rows = None;
    let error = require_known_counts(&unknown_physical).unwrap_err();
    assert!(
        error.message().contains("physical row count"),
        "{}",
        error.message()
    );
    let empty = make_fragment(10).with_physical_rows(0);
    let deltas = aggregate_deltas(&vec![action::add_fragment(&empty)], &touched, 10).unwrap();
    assert_eq!(deltas[0].physical_rows, 0);
}

#[test]
fn counts_that_do_not_add_up_are_refused() {
    let mut fragment = make_fragment(3).with_physical_rows(4);
    fragment.deletion_file = Some(DeletionFile {
        read_version: 1,
        id: 1,
        file_type: DeletionFileType::Array,
        num_deleted_rows: Some(5),
        base_id: None,
    });
    assert_eq!(
        require_known_counts(&fragment).unwrap_err().message(),
        "fragment 3 has 5 deleted rows but only 4 physical rows"
    );
    fragment.deletion_file.as_mut().unwrap().num_deleted_rows = None;
    assert_eq!(
        require_known_counts(&fragment).unwrap_err().message(),
        "fragment 3 has a deletion file without a deleted-row count; the fragment metadata tree \
         requires known counts"
    );
    fragment.deletion_file.as_mut().unwrap().num_deleted_rows = Some(1);
    require_known_counts(&fragment).unwrap();
    assert_eq!(
        require_known_counts(&make_fragment(u32::MAX as u64 + 1))
            .unwrap_err()
            .message(),
        "Fragment ID 4294967296 exceeds u32"
    );
}

/// What actions make of a fragment.
fn applied(fragment: &Fragment, actions: Vec<FragmentAction>) -> Fragment {
    let mut fragments = BTreeMap::from([(fragment.id, fragment.clone())]);
    let mutations = actions
        .into_iter()
        .enumerate()
        .map(|(place, action)| FragmentMetadataMutation {
            action_sequence: place as u64 + 1,
            action: Some(action),
            fragment_count_delta: 0,
            total_rows_delta: 0,
            visible_rows_delta: 0,
        })
        .collect();
    apply_actions(&mut fragments, mutations).unwrap();
    fragments.remove(&fragment.id).unwrap()
}

#[test]
fn replacements_take_effect_when_their_actions_are_applied() {
    let replacement = data_file("new".to_string(), vec![1, 2], vec![0, 1], 77);
    let file = |path: &str| data_file(path.to_string(), vec![1, 2], vec![0, 1], 5);
    let other = data_file("other".to_string(), vec![9], vec![0], 6);
    let fragment = |files: Vec<DataFile>| {
        let mut fragment = Fragment::new(7).with_physical_rows(10);
        fragment.files = files;
        fragment
    };

    // Two files are swapped one by one.
    let current = fragment(vec![file("a"), other.clone(), file("b")]);
    let actions = data_replacement(Some(&current), 7, &replacement, vec![]).unwrap();
    assert_eq!(actions.len(), 2);
    assert_eq!(
        applied(&current, actions),
        fragment(vec![replacement.clone(), other.clone(), replacement.clone()])
    );

    // Two files at one path cannot be told apart by it.
    let current = fragment(vec![file("a"), file("a")]);
    let actions = data_replacement(Some(&current), 7, &replacement, vec![]).unwrap();
    assert!(matches!(actions[0].action, Some(Action::AddFragment(_))));
    assert_eq!(
        applied(&current, actions),
        fragment(vec![replacement.clone(), replacement.clone()])
    );

    // Neither can a file that is already at the new path.
    let current = fragment(vec![file("a"), file("new")]);
    let actions = data_replacement(Some(&current), 7, &replacement, vec![]).unwrap();
    assert!(matches!(actions[0].action, Some(Action::AddFragment(_))));
    assert_eq!(
        applied(&current, actions),
        fragment(vec![replacement.clone(), replacement.clone()])
    );

    // New columns are appended.
    let current = fragment(vec![other.clone()]);
    let actions = data_replacement(Some(&current), 7, &replacement, vec![]).unwrap();
    assert_eq!(
        applied(&current, actions),
        fragment(vec![other, replacement])
    );
}

#[test]
fn deltas_sum_to_what_the_actions_change() {
    let touched = TouchedFragments::default();
    let mut grown = make_fragment(10);
    grown.physical_rows = Some(5);
    let deltas = aggregate_deltas(
        &vec![
            action::add_fragment(&make_fragment(10)),
            action::add_fragment(&grown),
            action::add_fragment(&make_fragment(11)),
            action::remove_fragment(11),
        ],
        &touched,
        10,
    )
    .unwrap();
    assert_eq!(deltas.len(), 4);
    assert_eq!(deltas.iter().map(|delta| delta.fragment_count).sum::<i64>(), 1);
    assert_eq!(deltas.iter().map(|delta| delta.physical_rows).sum::<i64>(), 5);
    assert_eq!(deltas.iter().map(|delta| delta.visible_rows).sum::<i64>(), 5);
}
