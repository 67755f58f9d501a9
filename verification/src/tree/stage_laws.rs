//! What a commit makes of a session's counters and what it publishes.

use vstd::prelude::*;

use crate::commit::ActionDeltas;
use crate::error::Aggregate;
use crate::node;
use crate::pb::{ActionView, MutationView, RootBase, TreeDescriptor};
use crate::squash;
use crate::tree::publication;
use crate::tree::publication::{PreparedView, SnapshotPolicy, Staging};
use crate::tree::TreeView;

verus! {

/// Whether a frontier is the larger of an earlier one and one past the largest
/// id that is added.
pub open spec fn frontier_after(
    before: u64,
    actions: Seq<Option<ActionView>>,
    after: int,
) -> bool {
    &&& before <= after
    &&& forall|i: int|
        0 <= i < actions.len() ==> ((#[trigger] actions[i]) matches Some(
            ActionView::AddFragment(f),
        ) ==> f.id < after)
    &&& after == before || exists|i: int|
        0 <= i < actions.len() && ((#[trigger] actions[i]) matches Some(
            ActionView::AddFragment(f),
        ) && f.id + 1 == after)
}

proof fn lemma_allocated_frontier(next: u64, actions: Seq<Option<ActionView>>)
    ensures
        frontier_after(next, actions, publication::allocated(next, actions)),
    decreases actions.len(),
{
    if actions.len() > 0 {
        let rest = actions.drop_last();
        let n = rest.len() as int;
        lemma_allocated_frontier(next, rest);
        let old = publication::allocated(next, rest);
        let now = publication::allocated(next, actions);
        assert forall|i: int| 0 <= i < actions.len() implies ((#[trigger] actions[i]) matches Some(
            ActionView::AddFragment(f),
        ) ==> f.id < now) by {
            if i < n {
                assert(rest[i] == actions[i]);
            }
        }
        if now != next {
            if now == old {
                let i = choose|i: int|
                    0 <= i < rest.len() && ((#[trigger] rest[i]) matches Some(
                        ActionView::AddFragment(f),
                    ) && f.id + 1 == old);
                assert(rest[i] == actions[i]);
            } else {
                assert(actions[n] == actions.last());
            }
        }
    }
}

/// The sum of the deltas of the first actions of a commit: fragments, rows, and
/// rows that are not deleted.
pub open spec fn delta_sum(deltas: Seq<ActionDeltas>, n: int) -> (int, int, int)
    decreases n,
{
    if n <= 0 {
        (0, 0, 0)
    } else {
        let rest = delta_sum(deltas, n - 1);
        let last = deltas[n - 1];
        (
            rest.0 + last.fragment_count,
            rest.1 + last.physical_rows,
            rest.2 + last.visible_rows,
        )
    }
}

proof fn lemma_delta_sum(deltas: Seq<ActionDeltas>, n: int)
    requires
        0 <= n <= deltas.len(),
    ensures
        ({
            let part = deltas.take(n);
            let sum = delta_sum(deltas, n);
            let a = node::summed_deltas(
                publication::fragment_counts(part),
                Aggregate::FragmentCountDelta,
            );
            let b = node::summed_deltas(
                publication::physical_counts(part),
                Aggregate::TotalRowsDelta,
            );
            let c = node::summed_deltas(
                publication::visible_counts(part),
                Aggregate::VisibleRowsDelta,
            );
            &&& a matches Ok(x) ==> x == sum.0
            &&& b matches Ok(x) ==> x == sum.1
            &&& c matches Ok(x) ==> x == sum.2
        }),
    decreases n,
{
    if n > 0 {
        lemma_delta_sum(deltas, n - 1);
        let part = deltas.take(n);
        let less = deltas.take(n - 1);
        assert(publication::fragment_counts(part).drop_last() =~= publication::fragment_counts(
            less,
        ));
        assert(publication::physical_counts(part).drop_last() =~= publication::physical_counts(
            less,
        ));
        assert(publication::visible_counts(part).drop_last() =~= publication::visible_counts(less));
    }
}

/// A commit advances the version by one and the commit order by one place for
/// each action, changes the counts by its deltas, and moves the frontier of
/// fragment ids to the one it reserves, or past the fragments it adds.
pub proof fn law_commit_moves_the_counters(
    before: TreeView,
    actions: Seq<Option<ActionView>>,
    deltas: Seq<ActionDeltas>,
    next: Option<u64>,
    previous: TreeDescriptor,
    policy: SnapshotPolicy,
    bulk: bool,
    pending: Seq<MutationView>,
    suffix: Seq<MutationView>,
    after: TreeView,
    out: PreparedView,
)
    requires
        deltas.len() == actions.len(),
        forall|i: int|
            0 <= i < actions.len() ==> (#[trigger] actions[i]) is Some && actions[i]->0.target()
                <= u32::MAX,
        publication::staging(before, actions, deltas, next) is Ok,
        publication::concluded(
            before,
            publication::staging(before, actions, deltas, next)->Ok_0,
            publication::tagged(actions, deltas, before.next_action_sequence),
            previous,
            policy,
            bulk,
            pending,
            suffix,
            after,
            Ok(out),
        ),
    ensures
        after.version == before.version + 1,
        after.next_action_sequence == before.next_action_sequence + actions.len(),
        ({
            let sum = delta_sum(deltas, deltas.len() as int);
            &&& after.total_fragments == before.total_fragments + sum.0
            &&& after.total_rows == before.total_rows + sum.1
            &&& after.visible_rows == before.visible_rows + sum.2
        }),
        match next {
            Some(n) => after.next_fragment_id == n,
            None => frontier_after(before.next_fragment_id, actions, after.next_fragment_id as int),
        },
        after.next_fragment_id >= before.next_fragment_id,
        forall|i: int|
            0 <= i < actions.len() ==> ((#[trigger] actions[i]) matches Some(
                ActionView::AddFragment(f),
            ) ==> f.id < after.next_fragment_id),
        after.config == before.config,
        after.snapshot == Some(out.snapshot),
        after.store.next_action_sequence == after.next_action_sequence,
{
    let n = deltas.len() as int;
    lemma_delta_sum(deltas, n);
    assert(deltas.take(n) =~= deltas);
    lemma_allocated_frontier(before.next_fragment_id, actions);
    crate::tree::commit_laws::lemma_allocated(before.next_fragment_id, actions);
    let counters = publication::staging(before, actions, deltas, next)->Ok_0;
    let fresh = publication::tagged(actions, deltas, before.next_action_sequence);
    if !publication::stays(
        before.children,
        pending,
        suffix,
        previous,
        before.config,
        policy,
        bulk,
    ) {
        let base = publication::advanced_store(before.store, counters.next_action_sequence);
        assert(after.store.extends(base));
    }
}

/// A reservation is accepted exactly where it is not below what the commit
/// itself needs and not above the end of the ids.
pub proof fn law_reservation_never_lowers_the_frontier(
    before: TreeView,
    actions: Seq<Option<ActionView>>,
    deltas: Seq<ActionDeltas>,
    n: u64,
)
    requires
        forall|i: int|
            0 <= i < actions.len() ==> (#[trigger] actions[i]) is Some && actions[i]->0.target()
                <= u32::MAX,
        publication::staging(before, actions, deltas, None) is Ok,
    ensures
        ({
            let plain = publication::staging(before, actions, deltas, None)->Ok_0;
            let reserved = publication::staging(before, actions, deltas, Some(n));
            &&& reserved is Ok <==> plain.next_fragment_id <= n <= 0x1_0000_0000
            &&& reserved matches Ok(counters) ==> counters == (Staging {
                next_fragment_id: n,
                ..plain
            })
        }),
{
    crate::tree::commit_laws::lemma_allocated(before.next_fragment_id, actions);
    lemma_allocated_frontier(before.next_fragment_id, actions);
}

/// Each action of a commit is buffered as it is, with its own deltas, at the
/// next place in the commit order.
pub proof fn law_actions_are_buffered_in_order(
    actions: Seq<Option<ActionView>>,
    deltas: Seq<ActionDeltas>,
    first: u64,
    i: int,
)
    requires
        0 <= i < actions.len(),
        first + actions.len() <= u64::MAX,
    ensures
        ({
            let fresh = publication::tagged(actions, deltas, first);
            &&& fresh.len() == actions.len()
            &&& fresh[i].action == Some(actions[i])
            &&& fresh[i].action_sequence == first + i
            &&& fresh[i].fragment_count_delta == deltas[i].fragment_count
            &&& fresh[i].total_rows_delta == deltas[i].physical_rows
            &&& fresh[i].visible_rows_delta == deltas[i].visible_rows
        }),
{
}

/// The mutations a descriptor carries never take more encoded bytes than the
/// policy allows, and only follow the root that was there before, outside the
/// manifest. No more can be said where the allowance is all that a number of 64
/// bits can count.
pub proof fn law_suffix_fits_the_policy(
    before: TreeView,
    counters: Staging,
    fresh: Seq<MutationView>,
    previous: TreeDescriptor,
    policy: SnapshotPolicy,
    bulk: bool,
    pending: Seq<MutationView>,
    suffix: Seq<MutationView>,
    after: TreeView,
    out: PreparedView,
)
    requires
        publication::concluded(
            before,
            counters,
            fresh,
            previous,
            policy,
            bulk,
            pending,
            suffix,
            after,
            Ok(out),
        ),
        out.snapshot.mutations_since_root.len() > 0,
    ensures
        node::buffer_len(out.snapshot.mutations_since_root) <= policy.max_suffix_bytes
            || policy.max_suffix_bytes as u64 == u64::MAX,
        out.snapshot.root == previous.root,
        out.snapshot.root matches Some(RootBase::RootUuid(_)),
        !bulk,
        out.stats.checkpoints == 0,
        out.root is None,
{
}

/// A commit that stays a suffix writes nothing: the objects, the routing and
/// the root are those before, the session's buffer and the suffix are the old
/// ones with the commit's mutations behind them, normalized, and the root stays
/// within the limits of a node.
pub proof fn law_suffix_commit_writes_nothing(
    before: TreeView,
    counters: Staging,
    fresh: Seq<MutationView>,
    previous: TreeDescriptor,
    policy: SnapshotPolicy,
    bulk: bool,
    pending: Seq<MutationView>,
    suffix: Seq<MutationView>,
    after: TreeView,
    out: PreparedView,
)
    requires
        publication::concluded(
            before,
            counters,
            fresh,
            previous,
            policy,
            bulk,
            pending,
            suffix,
            after,
            Ok(out),
        ),
        out.stats.checkpoints == 0,
    ensures
        out.stats.tree_write_bytes == 0,
        out.stats.flushes == 0,
        out.stats.splits == 0,
        out.stats.merges == 0,
        out.stats.max_flush_depth == 0,
        out.stats.messages_materialized == 0,
        out.stats.messages_squashed + after.buffer.len() == before.buffer.len() + fresh.len(),
        after.store.nodes == before.store.nodes,
        after.store.leaves == before.store.leaves,
        after.children == before.children,
        squash::normalized(before.buffer + fresh, after.buffer),
        squash::normalized(
            previous.mutations_since_root + fresh,
            out.snapshot.mutations_since_root,
        ),
        out.snapshot.root == previous.root,
        out.snapshot.next_action_sequence == after.next_action_sequence,
        out.root is None,
        node::children_len(after.children) + node::buffer_len(after.buffer)
            < before.config.max_node_bytes,
{
}

/// A commit writes a new root only where it has to: on request, where the
/// previous root is in the manifest, where the suffix would take more bytes
/// than the policy allows, or where the root would reach its limits.
pub proof fn law_checkpoint_is_written_only_where_needed(
    before: TreeView,
    counters: Staging,
    fresh: Seq<MutationView>,
    previous: TreeDescriptor,
    policy: SnapshotPolicy,
    bulk: bool,
    pending: Seq<MutationView>,
    suffix: Seq<MutationView>,
    after: TreeView,
    out: PreparedView,
)
    requires
        publication::concluded(
            before,
            counters,
            fresh,
            previous,
            policy,
            bulk,
            pending,
            suffix,
            after,
            Ok(out),
        ),
        out.stats.checkpoints != 0,
    ensures
        out.stats.checkpoints == 1,
        out.snapshot.mutations_since_root.len() == 0,
        out.snapshot.next_action_sequence == after.next_action_sequence,
        bulk || !(previous.root matches Some(RootBase::RootUuid(_))) || node::buffer_len(suffix)
            > policy.max_suffix_bytes || node::children_len(before.children) + node::buffer_len(
            pending,
        ) >= before.config.max_node_bytes || before.children.len() as u32
            > before.config.max_children_per_node,
        squash::normalized(before.buffer + fresh, pending),
        squash::normalized(previous.mutations_since_root + fresh, suffix),
{
}

/// A new root is the session's routing and buffer. It stands in the manifest
/// exactly where the whole descriptor takes no more bytes than the policy
/// allows; otherwise it is handed back, to be stored under an identifier of
/// sixteen bytes.
pub proof fn law_new_root_is_the_sessions(
    before: TreeView,
    counters: Staging,
    fresh: Seq<MutationView>,
    previous: TreeDescriptor,
    policy: SnapshotPolicy,
    bulk: bool,
    pending: Seq<MutationView>,
    suffix: Seq<MutationView>,
    after: TreeView,
    out: PreparedView,
)
    requires
        publication::concluded(
            before,
            counters,
            fresh,
            previous,
            policy,
            bulk,
            pending,
            suffix,
            after,
            Ok(out),
        ),
        out.stats.checkpoints != 0,
    ensures
        ({
            let root = match out.root {
                Some(root) => Some(root),
                None => match out.snapshot.root {
                    Some(RootBase::InlineRoot(root)) => Some(root),
                    _ => None,
                },
            };
            &&& root matches Some(root) && root.children == after.children && root.buffer
                == after.buffer && root.next_action_sequence == after.next_action_sequence
            &&& out.root is Some ==> (out.snapshot.root matches Some(RootBase::RootUuid(id))
                && id.len() == 16)
            &&& out.root is None ==> out.snapshot.encoded_len() <= policy.inline_root_bytes
                || policy.inline_root_bytes as u64 == u64::MAX
            &&& out.root is Some ==> (TreeDescriptor {
                root: Some(RootBase::InlineRoot(out.root->0)),
                mutations_since_root: Seq::empty(),
                next_action_sequence: after.next_action_sequence,
            }).encoded_len() > policy.inline_root_bytes
            &&& root->0.encoded_len() <= before.config.hard_capacity_bytes
                || before.config.hard_capacity_bytes == u64::MAX
        }),
{
}

} // verus!
