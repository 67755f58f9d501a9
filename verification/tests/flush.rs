//! Choosing which children to drain.

use fragment_tree::action;
use fragment_tree::flush::{
    amortization_gate, fair_share, select_children, Buckets, Pressure, MAX_BATCH_OBJECT_BYTES,
    REWRITE_AMORTIZATION_DIVISOR,
};
use fragment_tree::node;
use fragment_tree::node::FragmentMetadataTreeConfig;
use fragment_tree::pb::{FragmentMetadataChild, FragmentMetadataMutation};
use fragment_tree::record::Fragment;

fn children(count: usize, height: u32, object_size: u64) -> Vec<FragmentMetadataChild> {
    vec![
        FragmentMetadataChild {
            path: String::new(),
            base_id: None,
            min_key: 0,
            num_keys: 0,
            height,
            num_children: 0,
            total_rows: 0,
            object_size,
            materialized_through_action_sequence: 0,
            visible_rows: 0,
        };
        count
    ]
}

fn bucket(id: u64, actions: usize) -> Vec<FragmentMetadataMutation> {
    vec![
        FragmentMetadataMutation {
            action_sequence: 0,
            action: Some(action::remove_fragment(id)),
            fragment_count_delta: -1,
            total_rows_delta: 0,
            visible_rows_delta: 0,
        };
        actions
    ]
}

#[test]
fn selection_respects_the_gate_and_concurrency() {
    let cases: [(usize, Vec<usize>); 2] =
        [(1, vec![]), (64, vec![9, 8, 7, 6, 5, 4, 3, 2])];
    for (actions_per_child, expected) in cases {
        let children = children(10, 0, 1024 * 1024);
        let config = FragmentMetadataTreeConfig::default();
        let buckets: Vec<_> = (0..10)
            .map(|id| bucket(id, actions_per_child * (id as usize + 1) * 200))
            .collect();
        assert_eq!(
            select_children(
                &children,
                &Buckets::new(buckets),
                &config,
                8,
                Pressure::Pressured
            ),
            expected
        );
    }
}

#[test]
fn fair_share_binds_a_wide_directory() {
    let children = children(256, 0, 1024 * 1024);
    let config = FragmentMetadataTreeConfig::default();
    let share = fair_share(&children, &config);
    assert!(share < 1024 * 1024 / REWRITE_AMORTIZATION_DIVISOR);
    assert_eq!(amortization_gate(share, &children[0]), share);
    let narrow = children[..2].to_vec();
    let share = fair_share(&narrow, &config);
    assert_eq!(
        amortization_gate(share, &narrow[0]),
        1024 * 1024 / REWRITE_AMORTIZATION_DIVISOR
    );
}

#[test]
fn interior_children_drain_alone_and_leaves_respect_the_store_limit() {
    let config = FragmentMetadataTreeConfig::default();
    let mut mixed = children(4, 0, 4096);
    mixed[3].height = 1;
    let buckets = Buckets::new((0..4).map(|id| bucket(id, 4000)).collect::<Vec<_>>());
    assert_eq!(
        select_children(&mixed, &buckets, &config, 8, Pressure::Pressured),
        vec![3]
    );
    let leaves = children(4, 0, 4096);
    assert_eq!(
        select_children(&leaves, &buckets, &config, 2, Pressure::Pressured),
        vec![3, 2]
    );
    assert!(select_children(
        &leaves,
        &Buckets::new(vec![vec![], vec![], vec![], vec![]]),
        &config,
        8,
        Pressure::Pressured
    )
    .is_empty());
}

fn leaves_with_keys(count: usize, num_keys: u64) -> Vec<FragmentMetadataChild> {
    let mut leaves = children(count, 0, 1024 * 1024);
    for leaf in &mut leaves {
        leaf.num_keys = num_keys;
    }
    leaves
}

#[test]
fn relaxed_selection_drains_removals_that_shrink_a_leaf() {
    let cases: [(usize, Vec<usize>); 3] = [(2048, vec![0]), (128, vec![0]), (127, vec![])];
    for (removed, expected) in cases {
        let leaves = leaves_with_keys(2, 2048);
        let buckets = vec![bucket(0, removed), vec![]];
        let config = FragmentMetadataTreeConfig::default();
        assert_eq!(
            select_children(&leaves, &Buckets::new(buckets), &config, 8, Pressure::Relaxed),
            expected
        );
    }
}

#[test]
fn relaxed_selection_ignores_removals_squashed_with_their_append() {
    let leaves = leaves_with_keys(1, 2048);
    let mut squashed = bucket(0, 2048);
    for removal in &mut squashed {
        removal.fragment_count_delta = 0;
    }
    let config = FragmentMetadataTreeConfig::default();
    assert!(select_children(
        &leaves,
        &Buckets::new(vec![squashed]),
        &config,
        8,
        Pressure::Relaxed
    )
    .is_empty());
}

#[test]
fn relaxed_selection_ignores_edits_that_remove_nothing() {
    let leaves = leaves_with_keys(1, 2048);
    let upserts = vec![
        FragmentMetadataMutation {
            action_sequence: 0,
            action: Some(action::add_fragment(&Fragment::new(7))),
            fragment_count_delta: 0,
            total_rows_delta: 0,
            visible_rows_delta: 0,
        };
        4096
    ];
    let config = FragmentMetadataTreeConfig::default();
    assert!(select_children(
        &leaves,
        &Buckets::new(vec![upserts]),
        &config,
        8,
        Pressure::Relaxed
    )
    .is_empty());
}

#[test]
fn reclaimed_bytes_lift_removals_over_the_pressured_gate() {
    // Removing every key of a leaf buffers far fewer bytes than the
    // leaf's amortization share, so only the reclaim credit drains it.
    let leaves = leaves_with_keys(1, 2048);
    let emptied = vec![bucket(0, 2048)];
    let config = FragmentMetadataTreeConfig::default();
    assert!(
        node::internal_logical_bytes(&vec![], &emptied[0])
            < amortization_gate(fair_share(&leaves, &config), &leaves[0])
    );
    assert_eq!(
        select_children(&leaves, &Buckets::new(emptied), &config, 8, Pressure::Pressured),
        vec![0]
    );
}

#[test]
fn selection_bounds_encoded_bytes_in_flight() {
    let oversized = children(3, 0, MAX_BATCH_OBJECT_BYTES / 2 + 1);
    let config = FragmentMetadataTreeConfig::default().with_hard_capacity_bytes(u64::MAX / 4);
    let buckets: Vec<_> = (0..3).map(|id| bucket(id, 200_000)).collect();
    assert_eq!(
        select_children(&oversized, &Buckets::new(buckets), &config, 8, Pressure::Pressured),
        vec![2]
    );
}
