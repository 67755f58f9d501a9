//! Tiered layouts.

use fragment_tree::fragment_catalog::{
    child_path, fragment_at_local_row, locate_row, seal_run, spilled_rows, RowLocation,
};
use fragment_tree::manifest::materialize_child_manifests;
use fragment_tree::record::Fragment;
use fragment_tree::tiered::TieredLayout;

/// Deterministic splitmix64.
struct Rng(u64);

impl Rng {
    fn next(&mut self) -> u64 {
        self.0 = self.0.wrapping_add(0x9E37_79B9_7F4A_7C15);
        let mut z = self.0;
        z = (z ^ (z >> 30)).wrapping_mul(0xBF58_476D_1CE4_E5B9);
        z = (z ^ (z >> 27)).wrapping_mul(0x94D0_49BB_1331_11EB);
        z ^ (z >> 31)
    }

    fn range(&mut self, n: u64) -> u64 {
        self.next() % n
    }
}

fn fragment(id: u64, num_rows: usize) -> Fragment {
    Fragment::new(id).with_physical_rows(num_rows)
}

fn flat_resolve(fragments: &[Fragment], row: u64) -> u64 {
    let mut offset = 0u64;
    for f in fragments {
        let rows = f.num_rows().unwrap_or_default() as u64;
        if row < offset + rows {
            return f.id;
        }
        offset += rows;
    }
    panic!("row {row} out of range");
}

#[test]
fn tiered_matches_flat_oracle() {
    const SEEDS: u64 = 40;
    for seed in 0..SEEDS {
        let mut rng = Rng(0xBE_5947 ^ seed);
        let buffer_cap = (1 + rng.range(20)) as usize;
        let appends = 50 + rng.range(450);

        let mut flat = Vec::new();
        let mut tiered = TieredLayout::new(buffer_cap, 1);

        for frag_id in 0..appends {
            let num_rows = (1 + rng.range(1000)) as usize;
            let f = fragment(frag_id, num_rows);
            flat.push(f.clone());
            tiered.push(f);

            assert_eq!(
                tiered.enumerate(),
                flat,
                "enumerate mismatch (seed {seed}, cap {buffer_cap}, after frag {frag_id})"
            );
        }

        for child in tiered.children() {
            assert_eq!(child.fragments.len(), buffer_cap);
            assert_eq!(child.reference.fragment_count as usize, buffer_cap);
        }
        assert_eq!(
            tiered.children().len() * buffer_cap + tiered.buffer().len(),
            flat.len()
        );

        let mut expected_offset = 0u64;
        for child in tiered.children() {
            assert_eq!(child.reference.row_offset_start, expected_offset);
            expected_offset += child.reference.total_rows;
        }
        assert_eq!(tiered.spilled_rows(), expected_offset);

        let total_rows: u64 = flat.iter().map(|f| f.num_rows().unwrap() as u64).sum();
        for _ in 0..2_000 {
            let row = rng.range(total_rows);
            assert_eq!(
                tiered.resolve_fragment(row),
                Some(flat_resolve(&flat, row)),
                "row route mismatch (seed {seed}, cap {buffer_cap}, row {row})"
            );
        }
    }
}

#[test]
fn seal_is_equivalent_to_incremental_push() {
    let fragments: Vec<Fragment> = (0..250).map(|id| fragment(id, 7)).collect();
    let sealed = TieredLayout::seal(fragments.clone(), 100, 3);

    let mut pushed = TieredLayout::new(100, 3);
    for f in &fragments {
        pushed.push(f.clone());
    }

    assert_eq!(sealed.enumerate(), pushed.enumerate());
    for (a, b) in sealed.child_refs().iter().zip(pushed.child_refs().iter()) {
        assert_eq!(a.min_fragment_id, b.min_fragment_id);
        assert_eq!(a.max_fragment_id, b.max_fragment_id);
        assert_eq!(a.row_offset_start, b.row_offset_start);
        assert_eq!(a.total_rows, b.total_rows);
        assert_eq!(a.fragment_count, b.fragment_count);
    }
    assert_eq!(sealed.children().len(), 2);
    assert_eq!(sealed.buffer().len(), 50);
}

#[test]
fn locate_row_reports_out_of_range() {
    let mut layout = TieredLayout::new(2, 1);
    for id in 0..5 {
        layout.push(fragment(id, 10));
    }
    assert!(layout.resolve_fragment(49).is_some());
    assert_eq!(layout.resolve_fragment(50), None);
    assert_eq!(locate_row(&layout.child_refs(), 10, 1_000), None);
}

#[test]
fn child_paths_are_readable_and_collision_proof() {
    let first = child_path(7, 100, 199);
    assert!(first.starts_with("_manifest_children/v7-100-199-"));
    assert!(first.ends_with(".manifest"));
    assert_ne!(first, child_path(7, 100, 199));
}

#[test]
fn child_paths_carry_an_identifier_without_hyphens() {
    let path = child_path(0, 0, u64::MAX);
    let unique = path
        .strip_prefix("_manifest_children/v0-0-18446744073709551615-")
        .unwrap()
        .strip_suffix(".manifest")
        .unwrap();
    assert_eq!(unique.len(), 32);
    assert!(unique
        .chars()
        .all(|c| c.is_ascii_digit() || ('a'..='f').contains(&c)));
}

#[test]
fn references_describe_their_runs() {
    let run = vec![fragment(4, 3), fragment(9, 5)];
    let reference = seal_run(&run, "child".to_string(), 11);
    assert_eq!(reference.min_fragment_id, 4);
    assert_eq!(reference.max_fragment_id, 9);
    assert_eq!(reference.row_offset_start, 11);
    assert_eq!(reference.total_rows, 8);
    assert_eq!(reference.fragment_count, 2);
    assert_eq!(reference.size_hint(), None);
    let mut stored = reference.clone();
    stored.byte_size = 77;
    assert_eq!(stored.size_hint(), Some(77));
    assert_eq!(spilled_rows(&vec![]), 0);
    assert_eq!(spilled_rows(&vec![reference]), 19);
}

#[test]
fn rows_are_located_in_runs_and_in_the_buffer() {
    let mut layout = TieredLayout::new(2, 1);
    for id in 0..5 {
        layout.push(fragment(id, 10));
    }
    let refs = layout.child_refs();
    assert_eq!(
        locate_row(&refs, 10, 0),
        Some(RowLocation::Child {
            index: 0,
            local_row: 0
        })
    );
    assert_eq!(
        locate_row(&refs, 10, 25),
        Some(RowLocation::Child {
            index: 1,
            local_row: 5
        })
    );
    assert_eq!(
        locate_row(&refs, 10, 43),
        Some(RowLocation::Buffer { local_row: 3 })
    );
    assert_eq!(fragment_at_local_row(&vec![fragment(3, 0), fragment(4, 2)], 1), Some(4));
    assert_eq!(fragment_at_local_row(&vec![fragment(3, 1)], 1), None);
}

#[test]
fn layouts_agree_whatever_they_were_built_by() {
    for cap in 1..7 {
        for count in 0..20 {
            let fragments: Vec<Fragment> = (0..count).map(|id| fragment(id, 3)).collect();
            let sealed = TieredLayout::seal(fragments.clone(), cap, 1);
            let mut pushed = TieredLayout::new(cap, 1);
            for f in fragments {
                pushed.push(f);
            }
            assert_eq!(sealed.children().len(), pushed.children().len());
            assert_eq!(sealed.buffer(), pushed.buffer());
            for (a, b) in sealed.children().iter().zip(pushed.children().iter()) {
                assert_eq!(a.fragments, b.fragments);
            }
        }
    }
}

#[test]
fn sealed_runs_and_buffer_make_the_whole_list_again() {
    let fragments: Vec<Fragment> = (0..23).map(|id| fragment(id, 2)).collect();
    let layout = TieredLayout::seal(fragments.clone(), 5, 1);
    let runs: Vec<Vec<Fragment>> = layout
        .children()
        .iter()
        .map(|child| child.fragments.clone())
        .collect();
    assert_eq!(runs.len(), 4);
    let all = materialize_child_manifests(&layout.child_refs(), runs.clone(), layout.buffer())
        .unwrap();
    assert_eq!(all, fragments);

    let mut short = runs;
    short[2].pop();
    let error =
        materialize_child_manifests(&layout.child_refs(), short, layout.buffer()).unwrap_err();
    assert_eq!(
        error.message(),
        "child manifest fragment count mismatch: ref says 5, file has 4"
    );
}
