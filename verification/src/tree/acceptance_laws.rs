//! What commits, roots, descriptors and new trees are accepted for, and what
//! they are told where they are not.

use vstd::prelude::*;

use crate::commit;
use crate::commit::{ActionDeltas, TouchedView};
use crate::delta_laws;
use crate::drain;
use crate::edit_laws;
use crate::error::{Aggregate, Error, Reason};
use crate::flush;
use crate::leaves;
use crate::node;
use crate::node::FragmentMetadataTreeConfig;
use crate::pb::{ActionView, ChildView, MutationView, RootView, TreeDescriptor};
use crate::policy_laws;
use crate::reading_laws;
use crate::record::FragmentView;
use crate::replay;
use crate::steps;
use crate::store;
use crate::store::{Names, StoreView};
use crate::tree::opening_laws;
use crate::tree::publication;
use crate::tree::stage_laws;
use crate::tree::TreeView;
use crate::validation;

verus! {

/// Whether the deltas of the first actions of a commit sum to numbers that can
/// be counted with.
pub open spec fn sums_fit(deltas: Seq<ActionDeltas>, n: int) -> bool {
    let sum = stage_laws::delta_sum(deltas, n);
    &&& i64::MIN <= sum.0 <= i64::MAX
    &&& i64::MIN <= sum.1 <= i64::MAX
    &&& i64::MIN <= sum.2 <= i64::MAX
}

proof fn lemma_sums(deltas: Seq<ActionDeltas>, n: int)
    requires
        0 <= n <= deltas.len(),
        forall|k: int| 0 <= k <= n ==> #[trigger] sums_fit(deltas, k),
    ensures
        ({
            let part = deltas.take(n);
            let sum = stage_laws::delta_sum(deltas, n);
            &&& node::summed_deltas(
                publication::fragment_counts(part),
                Aggregate::FragmentCountDelta,
            ) == Ok::<i64, Error>(sum.0 as i64)
            &&& node::summed_deltas(
                publication::physical_counts(part),
                Aggregate::TotalRowsDelta,
            ) == Ok::<i64, Error>(sum.1 as i64)
            &&& node::summed_deltas(
                publication::visible_counts(part),
                Aggregate::VisibleRowsDelta,
            ) == Ok::<i64, Error>(sum.2 as i64)
        }),
    decreases n,
{
    assert(sums_fit(deltas, n));
    if n > 0 {
        lemma_sums(deltas, n - 1);
        assert(sums_fit(deltas, n - 1));
        let part = deltas.take(n);
        let less = deltas.take(n - 1);
        assert(publication::fragment_counts(part).drop_last() =~= publication::fragment_counts(
            less,
        ));
        assert(publication::physical_counts(part).drop_last() =~= publication::physical_counts(
            less,
        ));
        assert(publication::visible_counts(part).drop_last() =~= publication::visible_counts(less));
        assert(part.last() == deltas[n - 1]);
    }
}

/// A commit is staged wherever it fits: its deltas can be summed, the counts
/// stay numbers, there is a version and a place for each action left, and what
/// it reserves is neither less than it adds nor more than there are ids.
pub proof fn law_fitting_commit_is_staged(
    t: TreeView,
    actions: Seq<Option<ActionView>>,
    deltas: Seq<ActionDeltas>,
    next: Option<u64>,
)
    requires
        deltas.len() == actions.len(),
        forall|k: int| 0 <= k <= deltas.len() ==> #[trigger] sums_fit(deltas, k),
        ({
            let sum = stage_laws::delta_sum(deltas, deltas.len() as int);
            &&& 0 <= t.total_fragments + sum.0 <= u64::MAX
            &&& 0 <= t.total_rows + sum.1 <= u64::MAX
            &&& 0 <= t.visible_rows + sum.2 <= u64::MAX
        }),
        t.version < u64::MAX,
        t.next_action_sequence + actions.len() <= u64::MAX,
        next matches Some(n) ==> t.next_fragment_id <= n <= 0x1_0000_0000 && forall|i: int|
            0 <= i < actions.len() ==> ((#[trigger] actions[i]) matches Some(
                ActionView::AddFragment(f),
            ) ==> f.id < n),
    ensures
        publication::staging(t, actions, deltas, next) is Ok,
{
    let n = deltas.len() as int;
    lemma_sums(deltas, n);
    assert(deltas.take(n) =~= deltas);
    assert(sums_fit(deltas, n));
    if let Some(reserved) = next {
        lemma_allocated_at_most(t.next_fragment_id, actions, reserved);
    }
}

proof fn lemma_allocated_at_most(next: u64, actions: Seq<Option<ActionView>>, n: u64)
    requires
        next <= n,
        forall|i: int|
            0 <= i < actions.len() ==> ((#[trigger] actions[i]) matches Some(
                ActionView::AddFragment(f),
            ) ==> f.id < n),
    ensures
        publication::allocated(next, actions) <= n,
    decreases actions.len(),
{
    if actions.len() > 0 {
        let rest = actions.drop_last();
        assert forall|i: int| 0 <= i < rest.len() implies ((#[trigger] rest[i]) matches Some(
            ActionView::AddFragment(f),
        ) ==> f.id < n) by {
            assert(rest[i] == actions[i]);
        }
        lemma_allocated_at_most(next, rest, n);
        assert(actions[actions.len() - 1] == actions.last());
    }
}

/// An action of a commit is taken wherever it applies to what the actions before
/// it made of a fragment that was resolved, and leaves a record with known
/// counts that fit a delta.
pub proof fn law_applicable_action_is_taken(
    actions: Seq<Option<ActionView>>,
    touched: TouchedView,
    next_fragment_id: u64,
    action: ActionView,
)
    requires
        actions.len() > 0,
        actions.last() == Some(action),
        commit::progressed(actions.drop_last(), touched, next_fragment_id) is Ok,
        touched.ids.contains(action.target()),
        ({
            let before = commit::progressed(
                actions.drop_last(),
                touched,
                next_fragment_id,
            )->Ok_0.fragments;
            let (after, error) = replay::replayed(
                before,
                seq![commit::untagged(Some(action), (actions.len() - 1) as u64)],
                false,
            );
            let id = action.target();
            &&& error is None
            &&& before.contains_key(id) ==> delta_laws::counts_known(before[id])
                && before[id].physical_rows->0 <= i64::MAX
            &&& after.contains_key(id) ==> delta_laws::counts_known(after[id])
                && after[id].physical_rows->0 <= i64::MAX
        }),
    ensures
        commit::progressed(actions, touched, next_fragment_id) is Ok,
{
    let before = commit::progressed(actions.drop_last(), touched, next_fragment_id)->Ok_0.fragments;
    let m = commit::untagged(Some(action), (actions.len() - 1) as u64);
    edit_laws::lemma_one(before, m, false);
}

/// A root is refused only for what is wrong with it.
pub proof fn law_refused_root_is_told_why(
    children: Seq<ChildView>,
    buffer: Seq<MutationView>,
    next_action_sequence: u64,
    next_fragment_id: u64,
)
    requires
        validation::root_totals(children, buffer, next_action_sequence, next_fragment_id) is Err,
        next_action_sequence > 0,
        reading_laws::sound_children(children, next_action_sequence, 0),
        reading_laws::sound_buffer(buffer, 1, next_action_sequence),
        node::internal_summary(Seq::empty(), children, buffer, 0) is Ok,
    ensures
        match validation::root_totals(
            children,
            buffer,
            next_action_sequence,
            next_fragment_id,
        )->Err_0 {
            Error::CorruptFile { reason: Reason::RootVisibleExceedsPhysical } => {
                let amounts = reading_laws::node_amounts(children, buffer);
                amounts.2 > amounts.1
            },
            Error::CorruptFile { reason: Reason::FragmentsWithoutFrontier } => next_fragment_id == 0
                && (children.len() > 0 || buffer.len() > 0),
            Error::CorruptFile { reason: Reason::RootBeyondFrontier { next_fragment_id: n } } => {
                &&& n == next_fragment_id
                &&& exists|i: int|
                    0 <= i < buffer.len() && (#[trigger] buffer[i]).key() >= next_fragment_id
            },
            _ => false,
        },
{
    reading_laws::lemma_node_amounts(Seq::empty(), children, buffer, 0);
    reading_laws::law_children_are_accepted_where_sound(children, next_action_sequence, 0);
    reading_laws::law_buffer_is_accepted_where_sound(buffer, 1, next_action_sequence);
}

/// A descriptor over an accepted root and with a sound suffix is refused only
/// for a frontier that a mutation or the ids do not allow, for a place in the
/// commit order before the root's, for counts that do not add up, or for limits
/// that are not valid.
pub proof fn law_refused_descriptor_is_told_why(
    root: RootView,
    snapshot: TreeDescriptor,
    version: u64,
    config: FragmentMetadataTreeConfig,
    next_fragment_id: u64,
)
    requires
        publication::opened_totals(root, snapshot, version, config, next_fragment_id) is Err,
        validation::root_totals(
            root.children,
            root.buffer,
            root.next_action_sequence,
            next_fragment_id,
        ) is Ok,
        reading_laws::sound_buffer(
            snapshot.mutations_since_root,
            root.next_action_sequence,
            snapshot.next_action_sequence,
        ),
    ensures
        match publication::opened_totals(
            root,
            snapshot,
            version,
            config,
            next_fragment_id,
        )->Err_0 {
            Error::CorruptFile { reason: Reason::SnapshotFrontier { version: v } } => {
                let suffix = snapshot.mutations_since_root;
                &&& v == version
                &&& next_fragment_id > 0x1_0000_0000 || exists|i: int|
                    0 <= i < suffix.len() && (#[trigger] suffix[i]).key() >= next_fragment_id
            },
            Error::InvalidInput {
                reason: Reason::SequenceBelowRoot {
                    version: v,
                    next_action_sequence,
                    root_next_action_sequence,
                },
            } => {
                &&& v == version
                &&& next_action_sequence == snapshot.next_action_sequence
                &&& root_next_action_sequence == root.next_action_sequence
                &&& next_action_sequence < root_next_action_sequence
            },
            Error::InvalidInput { reason: Reason::AggregateOverflow { base, delta, .. } } => base
                + delta > u64::MAX,
            Error::InvalidInput { reason: Reason::AggregateUnderflow { base, delta, .. } } => base
                + delta < 0,
            Error::CorruptFile {
                reason: Reason::DerivedVisibleExceedsPhysical { visible_rows, total_rows, version: v },
            } => v == version && visible_rows > total_rows,
            Error::InvalidInput { reason: Reason::Config { .. } } => !opening_laws::usable(config),
            _ => false,
        },
{
    let suffix = snapshot.mutations_since_root;
    reading_laws::law_buffer_is_accepted_where_sound(
        suffix,
        root.next_action_sequence,
        snapshot.next_action_sequence,
    );
    let base = validation::root_totals(
        root.children,
        root.buffer,
        root.next_action_sequence,
        next_fragment_id,
    )->Ok_0;
    lemma_carried_error(base.0, crate::squash::fragment_deltas(suffix), Aggregate::Fragments);
    lemma_carried_error(base.1, crate::squash::row_deltas(suffix), Aggregate::PhysicalRows);
    lemma_carried_error(
        base.2,
        crate::squash::visible_deltas(suffix),
        Aggregate::DerivedVisibleRows,
    );
}

proof fn lemma_carried_error(base: u64, deltas: Seq<i64>, name: Aggregate)
    ensures
        publication::carried(base, deltas, name) matches Err(error) ==> match error {
            Error::InvalidInput { reason: Reason::AggregateOverflow { base, delta, .. } } => base
                + delta > u64::MAX,
            Error::InvalidInput { reason: Reason::AggregateUnderflow { base, delta, .. } } => base
                + delta < 0,
            _ => false,
        },
    decreases deltas.len(),
{
    if deltas.len() > 0 {
        lemma_carried_error(base, deltas.drop_last(), name);
    }
}

/// A root is published exactly where the tree's height can be counted and the
/// root takes no more than an object may.
pub proof fn law_root_is_published_where_it_fits(root: RootView, hard_capacity_bytes: u64)
    requires
        hard_capacity_bytes < u64::MAX,
    ensures
        publication::root_refusal(root, hard_capacity_bytes) is None == {
            &&& root.encoded_len() <= hard_capacity_bytes
            &&& forall|i: int|
                0 <= i < root.children.len() ==> (#[trigger] root.children[i]).height < u32::MAX
        },
        publication::root_refusal(root, hard_capacity_bytes) matches Some(error) ==> match error {
            Error::CorruptFile { reason: Reason::HeightExceedsU32 } => exists|i: int|
                0 <= i < root.children.len() && (#[trigger] root.children[i]).height == u32::MAX,
            Error::InvalidInput {
                reason: Reason::RootTooLarge { bytes, hard_capacity_bytes: limit },
            } => limit == hard_capacity_bytes && bytes > limit,
            _ => false,
        },
{
    reading_laws::lemma_max_height(root.children);
}

/// A tree can be founded exactly over fragments with ids of their own, whose
/// counts are known and whose rows can be summed, under valid limits. A repeated
/// id is named.
pub proof fn law_tree_is_founded_over_known_fragments(
    config: FragmentMetadataTreeConfig,
    fragments: Seq<FragmentView>,
)
    ensures
        publication::bootstrap_fault(config, fragments) is None == {
            let records = leaves::by_id(fragments);
            &&& forall|i: int, j: int|
                0 <= i < j < fragments.len() ==> (#[trigger] fragments[i]).id != (
                #[trigger] fragments[j]).id
            &&& opening_laws::usable(config)
            &&& forall|i: int|
                0 <= i < records.len() ==> delta_laws::counts_known(#[trigger] records[i])
            &&& reading_laws::rows_of(records) <= u64::MAX
        },
        publication::bootstrap_fault(config, fragments) matches Some(
            Error::InvalidInput { reason: Reason::RepeatedFragment { id } },
        ) ==> exists|i: int, j: int|
            0 <= i < j < fragments.len() && (#[trigger] fragments[i]).id == id && (
            #[trigger] fragments[j]).id == id,
{
    let records = leaves::by_id(fragments);
    opening_laws::law_new_tree_counts_its_records(records);
    let n = records.len() as int;
    leaves::lemma_by_id(fragments);
    publication::lemma_ordered(records);
    if leaves::repeated(fragments) {
        let (i, j) = choose|i: int, j: int|
            0 <= i < j < fragments.len() && (#[trigger] fragments[i]).id == (
            #[trigger] fragments[j]).id;
        assert(fragments[i].id == fragments[j].id);
        if store::misordered(records, n) is Some {
            let at = store::misordered(records, n)->0;
            crate::refusal_laws::lemma_misordered(records, n);
            let id = records[at].id;
            assert(records[at - 1].id <= records[at].id);
            assert(records[at - 1].id == id);
            lemma_twice(fragments, id, at);
        }
    } else {
        lemma_initial_error(records);
    }
}

proof fn lemma_twice(fragments: Seq<FragmentView>, id: u64, at: int)
    requires
        0 < at < leaves::by_id(fragments).len(),
        leaves::by_id(fragments)[at].id == id,
        leaves::by_id(fragments)[at - 1].id == id,
    ensures
        exists|i: int, j: int|
            0 <= i < j < fragments.len() && (#[trigger] fragments[i]).id == id && (
            #[trigger] fragments[j]).id == id,
{
    let records = leaves::by_id(fragments);
    crate::order_laws::law_records_are_put_in_order(fragments, id);
    lemma_two_of(records, id, at - 1, at);
    lemma_some_two(fragments, id);
}

proof fn lemma_two_of(records: Seq<FragmentView>, id: u64, i: int, j: int)
    requires
        0 <= i < j < records.len(),
        records[i].id == id,
        records[j].id == id,
    ensures
        crate::order_laws::with_id(records, id).len() >= 2,
    decreases records.len(),
{
    reveal(Seq::filter);
    let rest = records.drop_last();
    if j < rest.len() {
        lemma_two_of(rest, id, i, j);
    } else {
        lemma_one_of(rest, id, i);
    }
}

proof fn lemma_one_of(records: Seq<FragmentView>, id: u64, i: int)
    requires
        0 <= i < records.len(),
        records[i].id == id,
    ensures
        crate::order_laws::with_id(records, id).len() >= 1,
    decreases records.len(),
{
    reveal(Seq::filter);
    if i < records.len() - 1 {
        lemma_one_of(records.drop_last(), id, i);
    }
}

proof fn lemma_some_one(records: Seq<FragmentView>, id: u64) -> (i: int)
    requires
        crate::order_laws::with_id(records, id).len() >= 1,
    ensures
        0 <= i < records.len(),
        records[i].id == id,
    decreases records.len(),
{
    reveal(Seq::filter);
    if records.len() == 0 {
        0
    } else if records.last().id == id {
        records.len() - 1
    } else {
        lemma_some_one(records.drop_last(), id)
    }
}

proof fn lemma_some_two(records: Seq<FragmentView>, id: u64)
    requires
        crate::order_laws::with_id(records, id).len() >= 2,
    ensures
        exists|i: int, j: int|
            0 <= i < j < records.len() && (#[trigger] records[i]).id == id && (
            #[trigger] records[j]).id == id,
    decreases records.len(),
{
    reveal(Seq::filter);
    if records.len() > 0 {
        let rest = records.drop_last();
        let n = rest.len() as int;
        if records.last().id == id {
            let i = lemma_some_one(rest, id);
            assert(records[i].id == id && records[n].id == id);
        } else {
            lemma_some_two(rest, id);
            let (i, j) = choose|i: int, j: int|
                0 <= i < j < rest.len() && (#[trigger] rest[i]).id == id && (
                #[trigger] rest[j]).id == id;
            assert(records[i].id == id && records[j].id == id);
        }
    }
}

proof fn lemma_initial_error(records: Seq<FragmentView>)
    ensures
        publication::initial_totals(records) matches Err(error) ==> !(error matches Error::InvalidInput {
            reason: Reason::RepeatedFragment { .. },
        }),
    decreases records.len(),
{
    if records.len() > 0 {
        lemma_initial_error(records.drop_last());
    }
}

/// Records whose leaf is known to be within a leaf's target and an object's
/// limit, and whose rows can be summed, are written.
pub proof fn law_fitting_records_are_written(
    known: StoreView,
    names: Names,
    fragments: Seq<FragmentView>,
    watermark: u64,
    config: FragmentMetadataTreeConfig,
)
    requires
        0 < fragments.len() <= u64::MAX,
        known.size_of(fragments) matches Some(bytes) && bytes <= config.max_leaf_bytes && bytes
            <= config.hard_capacity_bytes,
        reading_laws::rows_of(fragments) <= u64::MAX,
    ensures
        store::put_leaves(known, names, fragments, watermark, config) matches Ok(out) && out.1.len()
            == 1,
{
    let n = fragments.len() as int;
    assert(fragments.subrange(0, n) =~= fragments);
    reading_laws::law_leaf_reference_counts_its_records(Seq::empty(), fragments, 0, 0);
    let parts = seq![(0int, n)];
    assert(store::sized(known, fragments, 0, n, config) == Ok::<Seq<(int, int)>, Option<Error>>(
        parts,
    ));
    assert(parts.drop_last() =~= Seq::<(int, int)>::empty());
    assert(store::sums_fault(fragments, parts.drop_last()) is None);
}

/// Mutations are refused by a leaf only where replaying them is, where they claim
/// every record and one that none of them puts anew is still there, or where a
/// record at or above the end of the range is left, which is named.
pub proof fn law_refused_rewrite_is_told_why(
    child: ChildView,
    given: Seq<FragmentView>,
    s: Seq<MutationView>,
    end: u64,
)
    requires
        drain::leaf_outcome(child, given, s, end) is Err,
        replay::replayed(steps::indexed(given), s, true).1 is None,
    ensures
        match drain::leaf_outcome(child, given, s, end)->Err_0 {
            Error::CorruptFile { reason: Reason::RecordSurvives { id } } => {
                let state = replay::replayed(steps::indexed(given), s, true).0;
                let gone = s.filter(|m: MutationView| flush::takes_away(m)).len();
                let anew = s.filter(|m: MutationView| policy_laws::overwrites(m)).len();
                &&& gone + anew == child.num_keys
                &&& state.contains_key(id)
                &&& exists|i: int| 0 <= i < given.len() && (#[trigger] given[i]).id == id
                &&& forall|j: int|
                    0 <= j < s.len() ==> !((#[trigger] s[j]).action matches Some(
                        Some(ActionView::AddFragment(f)),
                    ) && f.id == id)
            },
            Error::CorruptFile { reason: Reason::RecordAboveEnd { id, end: e } } => e == end && id
                >= end,
            _ => false,
        },
{
    let (state, error) = replay::replayed(steps::indexed(given), s, true);
    assert((|m: MutationView| m.retires()) =~= (|m: MutationView| flush::takes_away(m)));
    assert((|m: MutationView| m.replaces()) =~= (|m: MutationView| policy_laws::overwrites(m)));
    if drain::leaf_refusal(child, given, s, end) is Some {
        lemma_survivor_is(given, state, s, given.len() as int);
        let id = drain::survivor(given, state, s, given.len() as int)->0;
        assert forall|j: int| 0 <= j < s.len() implies !((#[trigger] s[j]).action matches Some(
            Some(ActionView::AddFragment(f)),
        ) && f.id == id) by {
            if s[j].action matches Some(Some(ActionView::AddFragment(f))) && f.id == id {
                assert(s[j].key() == id);
                assert(drain::puts(s, id));
            }
        }
    }
}

proof fn lemma_survivor_is(
    given: Seq<FragmentView>,
    after: Map<u64, FragmentView>,
    s: Seq<MutationView>,
    n: int,
)
    requires
        0 <= n <= given.len(),
        drain::survivor(given, after, s, n) is Some,
    ensures
        ({
            let id = drain::survivor(given, after, s, n)->0;
            &&& after.contains_key(id)
            &&& !drain::puts(s, id)
            &&& exists|i: int| 0 <= i < given.len() && (#[trigger] given[i]).id == id
        }),
    decreases n,
{
    if drain::survivor(given, after, s, n - 1) is Some {
        lemma_survivor_is(given, after, s, n - 1);
    } else {
        assert(given[n - 1].id == drain::survivor(given, after, s, n)->0);
    }
}

} // verus!
