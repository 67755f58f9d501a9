//! What a session that is opened or founded counts, and what it takes to open
//! or found one.

use vstd::prelude::*;

use crate::delta_laws;
use crate::error::{Aggregate, Error, Reason};
use crate::leaves;
use crate::node::FragmentMetadataTreeConfig;
use crate::pb::{RootBase, RootView, TreeDescriptor};
use crate::reading_laws;
use crate::record::FragmentView;
use crate::squash;
use crate::store;
use crate::store::StoreView;
use crate::tree::publication;
use crate::tree::publication::SnapshotPolicy;
use crate::tree::{BootstrapStats, TreeView};
use crate::wire;

verus! {

/// Whether limits can be worked with: all are set, none is above the limit of
/// an object, the targets leave room to be tripled, and a node may have two
/// children.
pub open spec fn usable(config: FragmentMetadataTreeConfig) -> bool {
    &&& config.max_node_bytes > 0
    &&& config.max_leaf_bytes > 0
    &&& config.semantic_buffer_bytes > 0
    &&& config.max_node_bytes <= config.hard_capacity_bytes
    &&& config.max_leaf_bytes <= config.hard_capacity_bytes
    &&& config.semantic_buffer_bytes <= config.hard_capacity_bytes
    &&& 3 * config.max_node_bytes <= u64::MAX
    &&& 3 * config.max_leaf_bytes <= u64::MAX
    &&& config.max_children_per_node >= 2
}

/// Limits are valid exactly where they can be worked with.
pub proof fn law_limits_are_valid_where_usable(config: FragmentMetadataTreeConfig)
    ensures
        config.valid() == usable(config),
{
}

proof fn lemma_carried(base: u64, deltas: Seq<i64>, ints: Seq<int>, name: Aggregate)
    requires
        ints.len() == deltas.len(),
        forall|i: int| 0 <= i < deltas.len() ==> #[trigger] ints[i] == deltas[i],
    ensures
        publication::carried(base, deltas, name) matches Ok(sum) ==> sum == base
            + reading_laws::total(ints),
    decreases deltas.len(),
{
    if deltas.len() > 0 {
        let n = deltas.len() - 1;
        assert(ints[n] == deltas[n]);
        assert forall|i: int| 0 <= i < n implies #[trigger] ints.drop_last()[i]
            == deltas.drop_last()[i] by {
            assert(ints[i] == deltas[i]);
        }
        lemma_carried(base, deltas.drop_last(), ints.drop_last(), name);
    }
}

/// A session that is opened stands on a sound root and a sound suffix behind
/// it, and counts what the root's children, its buffer and the suffix come to.
/// No mutation names a fragment at or beyond the frontier, which is an id at
/// most one past the last, and the limits are valid.
pub proof fn law_opened_session_counts_its_root_and_suffix(
    root: RootView,
    snapshot: TreeDescriptor,
    version: u64,
    config: FragmentMetadataTreeConfig,
    next_fragment_id: u64,
    io_parallelism: usize,
    after: TreeView,
)
    requires
        publication::opened(
            root,
            snapshot,
            version,
            config,
            next_fragment_id,
            io_parallelism,
            after,
        ),
    ensures
        ({
            let suffix = snapshot.mutations_since_root;
            let base = reading_laws::node_amounts(root.children, root.buffer);
            &&& after.total_fragments == base.0 + reading_laws::total(
                Seq::new(suffix.len(), |i: int| suffix[i].fragment_count_delta as int),
            )
            &&& after.total_rows == base.1 + reading_laws::total(
                Seq::new(suffix.len(), |i: int| suffix[i].total_rows_delta as int),
            )
            &&& after.visible_rows == base.2 + reading_laws::total(
                Seq::new(suffix.len(), |i: int| suffix[i].visible_rows_delta as int),
            )
            &&& reading_laws::sound_buffer(
                suffix,
                root.next_action_sequence,
                snapshot.next_action_sequence,
            )
            &&& forall|i: int|
                0 <= i < suffix.len() ==> (#[trigger] suffix[i]).key() < next_fragment_id
        }),
        after.visible_rows <= after.total_rows,
        reading_laws::sound_children(root.children, root.next_action_sequence, 0),
        reading_laws::sound_buffer(root.buffer, 1, root.next_action_sequence),
        root.next_action_sequence <= snapshot.next_action_sequence,
        next_fragment_id <= 0x1_0000_0000,
        usable(config),
        after.version == version,
        after.config == config,
        after.next_fragment_id == next_fragment_id,
        after.next_action_sequence == snapshot.next_action_sequence,
        after.children == root.children,
        after.store.nodes.len() == 0,
        after.store.leaves.len() == 0,
{
    let suffix = snapshot.mutations_since_root;
    reading_laws::law_root_totals_count_its_children(
        root.children,
        root.buffer,
        root.next_action_sequence,
        next_fragment_id,
    );
    reading_laws::law_buffer_is_accepted_where_sound(
        suffix,
        root.next_action_sequence,
        snapshot.next_action_sequence,
    );
    let base = crate::validation::root_totals(
        root.children,
        root.buffer,
        root.next_action_sequence,
        next_fragment_id,
    )->Ok_0;
    lemma_carried(
        base.0,
        squash::fragment_deltas(suffix),
        Seq::new(suffix.len(), |i: int| suffix[i].fragment_count_delta as int),
        Aggregate::Fragments,
    );
    lemma_carried(
        base.1,
        squash::row_deltas(suffix),
        Seq::new(suffix.len(), |i: int| suffix[i].total_rows_delta as int),
        Aggregate::PhysicalRows,
    );
    lemma_carried(
        base.2,
        squash::visible_deltas(suffix),
        Seq::new(suffix.len(), |i: int| suffix[i].visible_rows_delta as int),
        Aggregate::DerivedVisibleRows,
    );
}

/// A descriptor is opened over the root it carries, or over the one that is
/// stored under its identifier of sixteen bytes. One that carries its root has
/// no suffix, and one without a root is refused.
pub proof fn law_descriptor_names_its_root(
    snapshot: TreeDescriptor,
    stored: Option<RootView>,
    version: u64,
    root: RootView,
)
    ensures
        publication::base_root(snapshot, stored, version) == Ok::<RootView, Error>(root) <==> {
            ||| snapshot.root == Some(RootBase::InlineRoot(root))
                && snapshot.mutations_since_root.len() == 0
            ||| (snapshot.root matches Some(RootBase::RootUuid(id)) && id.len() == 16) && stored
                == Some(root)
        },
        publication::base_root(snapshot, stored, version) matches Err(error) ==> match error {
            Error::InvalidInput { reason: Reason::RootMissing { version: v } } => v == version
                && snapshot.root is None,
            Error::InvalidInput { reason: Reason::SuffixAfterInlineRoot { version: v } } => v
                == version && snapshot.mutations_since_root.len() > 0,
            Error::CorruptFile { reason: Reason::RootUuidLength { .. } } => {
                snapshot.root matches Some(RootBase::RootUuid(id)) && id.len() != 16
            },
            Error::Internal { reason: Reason::RootNotLoaded { version: v } } => v == version
                && stored is None,
            _ => false,
        },
{
}

/// Whether a number is one past the largest id of some records, and zero where
/// there is none.
pub open spec fn past_the_largest(records: Seq<FragmentView>, next: u64) -> bool {
    &&& records.len() == 0 ==> next == 0
    &&& forall|i: int| 0 <= i < records.len() ==> (#[trigger] records[i]).id < next
    &&& records.len() > 0 ==> exists|i: int|
        0 <= i < records.len() && (#[trigger] records[i]).id + 1 == next
}

/// The records of a new tree are counted exactly where each has known counts
/// and the rows can be summed: the rows, the rows not deleted, and the first id
/// past the largest.
pub proof fn law_new_tree_counts_its_records(records: Seq<FragmentView>)
    ensures
        publication::initial_totals(records) is Ok == {
            &&& forall|i: int|
                0 <= i < records.len() ==> delta_laws::counts_known(#[trigger] records[i])
            &&& reading_laws::rows_of(records) <= u64::MAX
        },
        publication::initial_totals(records) matches Ok((rows, visible, next)) ==> {
            &&& rows == reading_laws::rows_of(records)
            &&& visible == reading_laws::rows_left_of(records)
            &&& past_the_largest(records, next)
        },
    decreases records.len(),
{
    let a = Seq::new(records.len(), |i: int| reading_laws::rows_in(records[i]));
    let b = Seq::new(records.len(), |i: int| reading_laws::rows_left(records[i]));
    if records.len() > 0 {
        let rest = records.drop_last();
        let n = rest.len() as int;
        law_new_tree_counts_its_records(rest);
        assert(a.drop_last() =~= Seq::new(rest.len(), |i: int| reading_laws::rows_in(rest[i])));
        assert(b.drop_last() =~= Seq::new(rest.len(), |i: int| reading_laws::rows_left(rest[i])));
        assert(records[n] == records.last());
        reading_laws::lemma_rows_left(rest);
        let known = forall|i: int|
            0 <= i < records.len() ==> delta_laws::counts_known(#[trigger] records[i]);
        let rest_known = forall|i: int|
            0 <= i < rest.len() ==> delta_laws::counts_known(#[trigger] rest[i]);
        if known {
            assert forall|i: int| 0 <= i < rest.len() implies delta_laws::counts_known(
                #[trigger] rest[i],
            ) by {
                assert(rest[i] == records[i]);
            }
        }
        if rest_known && delta_laws::counts_known(records.last()) {
            assert forall|i: int| 0 <= i < records.len() implies delta_laws::counts_known(
                #[trigger] records[i],
            ) by {
                if i < n {
                    assert(rest[i] == records[i]);
                }
            }
        }
        if let Ok((rows, visible, next)) = publication::initial_totals(records) {
            let before = publication::initial_totals(rest)->Ok_0.2;
            assert forall|i: int| 0 <= i < records.len() implies (#[trigger] records[i]).id
                < next by {
                if i < n {
                    assert(rest[i] == records[i]);
                }
            }
            if next == records.last().id + 1 {
                assert(records[n].id + 1 == next);
            } else {
                assert(next == before);
                assert(rest.len() > 0);
                let i = choose|i: int|
                    0 <= i < rest.len() && (#[trigger] rest[i]).id + 1 == before;
                assert(records[i].id + 1 == next);
            }
        }
    }
}

/// A tree is founded only over fragments with ids of their own and known
/// counts, under valid limits. It starts at the first place of the commit
/// order, with nothing buffered, and counts exactly its fragments.
pub proof fn law_founded_tree_counts_its_fragments(
    before: StoreView,
    config: FragmentMetadataTreeConfig,
    fragments: Seq<FragmentView>,
    version: u64,
    policy: SnapshotPolicy,
    after: TreeView,
    snapshot: TreeDescriptor,
    stats: BootstrapStats,
    root: Option<RootView>,
)
    requires
        publication::bootstrap_fault(config, fragments) is None,
        publication::bootstrapped(
            before,
            config,
            fragments,
            version,
            policy,
            after,
            snapshot,
            stats,
            root,
        ),
    ensures
        usable(config),
        forall|i: int, j: int|
            0 <= i < j < fragments.len() ==> (#[trigger] fragments[i]).id != (
            #[trigger] fragments[j]).id,
        ({
            let records = leaves::by_id(fragments);
            &&& records.to_multiset() == fragments.to_multiset()
            &&& after.total_rows == reading_laws::rows_of(records)
            &&& after.visible_rows == reading_laws::rows_left_of(records)
            &&& past_the_largest(records, after.next_fragment_id)
            &&& forall|i: int, j: int|
                0 <= i < j < records.len() ==> (#[trigger] records[i]).id < (
                #[trigger] records[j]).id
            &&& forall|i: int|
                0 <= i < records.len() ==> delta_laws::counts_known(#[trigger] records[i])
        }),
        after.total_fragments == fragments.len(),
        after.version == version,
        after.next_action_sequence == 1,
        after.buffer.len() == 0,
        snapshot.next_action_sequence == 1,
        snapshot.mutations_since_root.len() == 0,
{
    let records = leaves::by_id(fragments);
    leaves::lemma_by_id(fragments);
    leaves::lemma_by_id_from(fragments, 0);
    publication::lemma_ordered(records);
    law_new_tree_counts_its_records(records);
    lemma_by_id_multiset(fragments);
    assert forall|i: int, j: int| 0 <= i < j < fragments.len() implies (
    #[trigger] fragments[i]).id != (#[trigger] fragments[j]).id by {
        if fragments[i].id == fragments[j].id {
            assert(leaves::repeated(fragments));
        }
    }
    assert(store::ascending(records)) by {
        if leaves::repeated(records) {
            assert(leaves::repeated(fragments));
        }
    }
}

proof fn lemma_by_id_multiset(fragments: Seq<FragmentView>)
    ensures
        leaves::by_id(fragments).to_multiset() == fragments.to_multiset(),
    decreases fragments.len(),
{
    broadcast use vstd::seq_lib::group_to_multiset_ensures;

    if fragments.len() > 0 {
        let rest = fragments.drop_last();
        lemma_by_id_multiset(rest);
        leaves::lemma_by_id(rest);
        let sorted = leaves::by_id(rest);
        let x = fragments.last();
        let at = leaves::lemma_placed(sorted, x);
        assert(fragments =~= rest.push(x));
        assert(sorted.insert(at, x).to_multiset() =~= sorted.to_multiset().insert(x)) by {
            vstd::seq_lib::to_multiset_insert(sorted, at, x);
        }
    }
}

/// A root takes what its children, its buffer and its counter take.
pub proof fn law_root_length_is_that_of_its_fields(root: RootView)
    ensures
        root.encoded_len() == crate::node::children_len(root.children) + crate::node::buffer_len(
            root.buffer,
        ) + wire::adds(root.next_action_sequence as nat),
{
    wire::law_varint_len_is_the_length(root.next_action_sequence as nat);
}

/// A descriptor takes what its root takes, as a message or by its identifier,
/// and what its suffix and its counter take.
pub proof fn law_descriptor_length_is_that_of_its_fields(tree: TreeDescriptor)
    ensures
        (TreeDescriptor { mutations_since_root: Seq::empty(), ..tree }).encoded_len()
            + crate::node::buffer_len(tree.mutations_since_root) == tree.encoded_len(),
        (TreeDescriptor { next_action_sequence: 0, ..tree }).encoded_len() + wire::adds(
            tree.next_action_sequence as nat,
        ) == tree.encoded_len(),
        ({
            let rootless = (TreeDescriptor { root: None, ..tree }).encoded_len();
            match tree.root {
                None => tree.encoded_len() == rootless,
                Some(RootBase::InlineRoot(root)) => tree.encoded_len() == rootless + wire::wrapped(
                    root.encoded_len(),
                ),
                Some(RootBase::RootUuid(bytes)) => tree.encoded_len() == rootless + wire::wrapped(
                    bytes.len(),
                ),
            }
        }),
        tree.root is None && tree.mutations_since_root.len() == 0 && tree.next_action_sequence == 0
            ==> tree.encoded_len() == 0,
{
    wire::law_varint_len_is_the_length(tree.next_action_sequence as nat);
    match tree.root {
        None => {},
        Some(RootBase::InlineRoot(root)) => {
            wire::law_varint_len_is_the_length(root.encoded_len());
        },
        Some(RootBase::RootUuid(bytes)) => {
            wire::law_varint_len_is_the_length(bytes.len());
        },
    }
}

} // verus!
