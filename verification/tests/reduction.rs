//! Reducing buffered actions without changing what they do.

use std::collections::BTreeMap;

use fragment_tree::action;
use fragment_tree::pb::{Action, FragmentAction, FragmentMetadataMutation};
use fragment_tree::record::{DataFile, DeletionFile, DeletionFileType, Fragment};
use fragment_tree::replay::apply_actions;
use fragment_tree::squash::squash_buffer;
use fragment_tree::validation;

/// A data file path derived from an id and a salt.
fn data_file_path(id: u64, salt: u64) -> String {
    let mut bytes = [0u8; 16];
    let mut state = id
        .wrapping_mul(0x9E37_79B9_7F4A_7C15)
        .wrapping_add(salt.wrapping_mul(0xD1B5_4A32_D192_ED03));
    for chunk in bytes.chunks_mut(8) {
        state = state.wrapping_add(0x9E37_79B9_7F4A_7C15);
        let mut z = state;
        z = (z ^ (z >> 30)).wrapping_mul(0xBF58_476D_1CE4_E5B9);
        z = (z ^ (z >> 27)).wrapping_mul(0x94D0_49BB_1331_11EB);
        z ^= z >> 31;
        let n = chunk.len();
        chunk.copy_from_slice(&z.to_le_bytes()[..n]);
    }
    let mut stem = String::with_capacity(50);
    for &b in &bytes[..3] {
        for i in (0..8).rev() {
            stem.push(if (b >> i) & 1 == 1 { '1' } else { '0' });
        }
    }
    const HEX: &[u8; 16] = b"0123456789abcdef";
    for &b in &bytes[3..] {
        stem.push(HEX[(b >> 4) as usize] as char);
        stem.push(HEX[(b & 0xf) as usize] as char);
    }
    format!("data/{stem}.lance")
}

fn data_file(path: String, fields: Vec<i32>, column_indices: Vec<i32>, bytes: u64) -> DataFile {
    DataFile {
        path,
        fields,
        column_indices,
        file_major_version: 2,
        file_minor_version: 0,
        file_size_bytes: bytes,
        base_id: None,
    }
}

/// A fragment of one row with one data file of two columns.
fn make_fragment(id: u64) -> Fragment {
    let mut fragment = Fragment::new(id);
    fragment
        .files
        .push(data_file(data_file_path(id, 0), vec![0, 1], vec![0, 1], 1024));
    fragment.physical_rows = Some(1);
    fragment
}

/// The data file that adding a column attaches to a fragment.
fn make_backfill_data_file(frag_id: u64, col: u32) -> DataFile {
    data_file(
        data_file_path(frag_id, col as u64 + 1),
        vec![2 + col as i32],
        vec![0],
        4096,
    )
}

fn tagged(actions: Vec<FragmentAction>) -> Vec<FragmentMetadataMutation> {
    actions
        .into_iter()
        .enumerate()
        .map(|(i, action)| FragmentMetadataMutation {
            action_sequence: i as u64 + 1,
            action: Some(action),
            fragment_count_delta: 0,
            total_rows_delta: 0,
            visible_rows_delta: 0,
        })
        .collect()
}

fn equivalent(base: Fragment, actions: Vec<FragmentAction>) {
    let actions = tagged(actions);
    let mut expected = BTreeMap::from([(base.id, base.clone())]);
    apply_actions(&mut expected, actions.clone()).unwrap();
    let normalized = squash_buffer(actions);
    let mut actual = BTreeMap::from([(base.id, base)]);
    apply_actions(&mut actual, normalized).unwrap();
    assert_eq!(actual, expected);
}

fn check_first_match(collision: bool) {
    let mut base = make_fragment(7);
    let mut added = make_backfill_data_file(7, 0);
    if collision {
        added.path = base.files[0].path.clone();
    }
    // Replacement must retain field/column mappings from the matched file,
    // even when the replacement descriptor supplies different mappings.
    base.physical_rows = Some(100);
    let mut replacement = make_backfill_data_file(7, 9);
    replacement.fields = added.fields.clone();
    replacement.column_indices = vec![9];
    equivalent(
        base,
        vec![
            action::add_data_file(7, &added),
            action::replace_data_file(7, &added.path, &replacement),
        ],
    );
}

#[test]
fn add_replace_preserves_first_match_and_descriptor() {
    check_first_match(false);
    check_first_match(true);
}

#[test]
fn replacement_chain_can_change_which_slot_matches() {
    let mut base = make_fragment(7);
    let second = make_backfill_data_file(7, 0);
    let first_path = base.files[0].path.clone();
    base.files.push(second.clone());
    let final_file = make_backfill_data_file(7, 9);
    equivalent(
        base,
        vec![
            action::replace_data_file(7, &second.path, &make_fragment(7).files[0]),
            action::replace_data_file(7, &first_path, &final_file),
        ],
    );
}

// Deliberately calls neither the library's replay nor any reduction.
fn reference_apply(state: &mut BTreeMap<u64, Fragment>, action: &FragmentAction) {
    match action.action.clone().unwrap() {
        Action::AddFragment(f) => {
            state.insert(f.id, validation::fragment(f).unwrap());
        }
        Action::RemoveFragment(id) => {
            state.remove(&id);
        }
        Action::AddDataFile(a) => state
            .get_mut(&a.frag_id)
            .unwrap()
            .files
            .push(a.file.unwrap()),
        Action::RemoveDataFile(a) => state
            .get_mut(&a.frag_id)
            .unwrap()
            .files
            .retain(|f| f.path != a.path),
        Action::ReplaceDataFile(a) => {
            let file = state
                .get_mut(&a.frag_id)
                .unwrap()
                .files
                .iter_mut()
                .find(|f| f.path == a.expected_path)
                .unwrap();
            file.path = a.path.clone();
            file.file_size_bytes = a.file_size_bytes;
            file.base_id = a.base_id;
        }
        Action::AddDeletionFile(a) => {
            let file = a.deletion_file.unwrap().decode().unwrap();
            state.get_mut(&a.frag_id).unwrap().deletion_file = Some(file)
        }
        Action::ClearDeletionFile(a) => state.get_mut(&a.frag_id).unwrap().deletion_file = None,
    }
}

/// Deterministic splitmix64.
struct Rng(u64);

impl Rng {
    fn next(&mut self) -> u64 {
        self.0 = self.0.wrapping_add(0x9E37_79B9_7F4A_7C15);
        let mut z = self.0;
        z = (z ^ (z >> 30)).wrapping_mul(0xBF58_476D_1CE4_E5B9);
        z = (z ^ (z >> 27)).wrapping_mul(0x94D0_49BB_1331_11EB);
        z ^ (z >> 31)
    }

    fn range(&mut self, n: u64) -> u64 {
        self.next() % n
    }
}

fn random_action(state: &BTreeMap<u64, Fragment>, rng: &mut Rng, step: u32) -> FragmentAction {
    let id = [0, 7, 123_456_789, u32::MAX as u64][rng.range(4) as usize];
    let mut new_fragment = make_fragment(id);
    new_fragment.physical_rows = Some(100);
    if !state.contains_key(&id) {
        return action::add_fragment(&new_fragment);
    }
    let fragment = &state[&id];
    match rng.range(10) {
        0 => action::add_fragment(&new_fragment),
        1 => action::remove_fragment(id),
        2 | 3 => {
            let mut file = make_backfill_data_file(id, step);
            // Aliases and non-default descriptor fields are intentional.
            file.path = format!("alias-{}.lance", rng.range(4));
            file.column_indices = vec![rng.range(16) as i32];
            action::add_data_file(id, &file)
        }
        4 | 5 if !fragment.files.is_empty() => {
            let path = fragment.files[rng.range(fragment.files.len() as u64) as usize]
                .path
                .clone();
            let mut file = make_backfill_data_file(id, step);
            file.path = format!("alias-{}.lance", rng.range(4));
            file.file_size_bytes = 1 + rng.range(4999);
            file.base_id = Some(1 + rng.range(7) as u32);
            action::replace_data_file(id, &path, &file)
        }
        6 => action::remove_data_file(id, &format!("alias-{}.lance", rng.range(4))),
        7 | 8 => action::add_deletion_file(
            id,
            &DeletionFile {
                read_version: step as u64 + 1,
                id: step as u64,
                file_type: DeletionFileType::Bitmap,
                num_deleted_rows: Some(rng.range(100) as usize),
                base_id: None,
            },
        ),
        _ => action::clear_deletion_file(id),
    }
}

fn check_random_sequence(seed: u64, steps: usize) {
    let mut rng = Rng(seed);
    let base = BTreeMap::from([(7, make_fragment(7).with_physical_rows(100))]);
    let mut expected = base.clone();
    let mut pending = Vec::new();
    let mut originals = Vec::new();
    for step in 0..steps {
        let action = random_action(&expected, &mut rng, step as u32);
        reference_apply(&mut expected, &action);
        let mut next = tagged(vec![action]).remove(0);
        next.action_sequence = step as u64 + 1;
        originals.push(next.clone());
        pending.push(next);
        // Each eight-action batch models one validated commit. Compare every
        // snapshot, including the prefix after incremental normalization.
        if step % 8 == 7 || step + 1 == steps {
            pending = squash_buffer(pending);
            let mut actual = base.clone();
            apply_actions(&mut actual, pending.clone()).unwrap();
            assert_eq!(actual, expected, "seed={seed}, step={step}");
            let mut one_shot = base.clone();
            apply_actions(&mut one_shot, squash_buffer(originals.clone())).unwrap();
            assert_eq!(one_shot, expected, "one-shot seed={seed}, step={step}");
            assert_eq!(
                squash_buffer(pending.clone()),
                pending,
                "normal form idempotence"
            );
        }
    }
}

#[test]
fn random_normalization() {
    for seed in 0..64 {
        check_random_sequence(seed * 7919 + 1, 1 + (seed as usize * 37) % 200);
    }
}

fn check_reduction(case: u8) {
    let base = make_fragment(7);
    let file = make_backfill_data_file(7, 0);
    let deletion = DeletionFile {
        read_version: 1,
        id: 2,
        file_type: DeletionFileType::Bitmap,
        num_deleted_rows: Some(0),
        base_id: None,
    };
    let actions = match case {
        0 => vec![
            action::add_deletion_file(7, &deletion),
            action::add_data_file(7, &file),
            action::clear_deletion_file(7),
        ],
        1 => vec![
            action::add_data_file(7, &file),
            action::add_fragment(&base),
            action::add_data_file(7, &file),
        ],
        2 => vec![
            action::add_data_file(7, &file),
            action::remove_data_file(7, &file.path),
        ],
        3 => vec![
            action::remove_data_file(7, &file.path),
            action::remove_data_file(7, &file.path),
        ],
        _ => vec![
            action::replace_data_file(7, &base.files[0].path, &base.files[0]),
            action::replace_data_file(7, &base.files[0].path, &file),
        ],
    };
    equivalent(base, actions.clone());
    let mut input = tagged(actions);
    for (i, action) in input.iter_mut().enumerate() {
        action.fragment_count_delta = i as i64 - 1;
        action.total_rows_delta = i as i64 * 10 - 5;
        action.visible_rows_delta = i as i64 * 5 - 3;
    }
    let output = squash_buffer(input.clone());
    assert!(output.len() < input.len());
    assert_eq!(
        input.iter().map(|t| t.fragment_count_delta).sum::<i64>(),
        output.iter().map(|t| t.fragment_count_delta).sum::<i64>()
    );
    assert_eq!(
        input.iter().map(|t| t.total_rows_delta).sum::<i64>(),
        output.iter().map(|t| t.total_rows_delta).sum::<i64>()
    );
    assert_eq!(
        input.iter().map(|t| t.visible_rows_delta).sum::<i64>(),
        output.iter().map(|t| t.visible_rows_delta).sum::<i64>()
    );
    assert_eq!(
        input.last().unwrap().action_sequence,
        output.last().unwrap().action_sequence
    );
}

#[test]
fn legal_reductions_preserve_aggregates() {
    for case in 0..5 {
        check_reduction(case);
    }
}

#[test]
fn unrepresentable_aggregate_keeps_original_run() {
    let mut input = tagged(vec![
        action::clear_deletion_file(7),
        action::clear_deletion_file(7),
    ]);
    input[0].visible_rows_delta = i64::MAX;
    input[1].visible_rows_delta = 1;
    assert_eq!(squash_buffer(input.clone()), input);
}

#[test]
fn shared_places_are_in_the_order_of_their_fragments() {
    let mut actions = tagged(vec![
        action::remove_fragment(9),
        action::remove_fragment(4),
        action::remove_fragment(7),
    ]);
    for mutation in &mut actions {
        mutation.action_sequence = 5;
    }
    let normalized = squash_buffer(actions);
    let targets: Vec<u64> = normalized
        .iter()
        .map(|mutation| action::target_frag_id(mutation.action.as_ref().unwrap()).unwrap())
        .collect();
    assert_eq!(targets, vec![4, 7, 9]);
    assert_eq!(squash_buffer(normalized.clone()), normalized);
}
