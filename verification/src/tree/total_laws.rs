//! What a session counts is what its table holds.

use vstd::prelude::*;

use crate::commit;
use crate::commit::{ActionDeltas, TouchedView};
use crate::drain;
use crate::error::{Aggregate, Error};
use crate::leaves;
use crate::node;
use crate::node::FragmentMetadataTreeConfig;
use crate::pb::{ActionView, MutationView, RootView, TreeDescriptor};
use crate::record::FragmentView;
use crate::replay;
use crate::store;
use crate::store::StoreView;
use crate::tree::commit_laws;
use crate::tree::publication;
use crate::tree::publication::{PreparedView, SnapshotPolicy};
use crate::tree::snapshot_laws;
use crate::tree::{BootstrapStats, TreeView};
use crate::world;
use crate::world::World;

verus! {

/// The counts of the records of the fragments whose ids are below a bound:
/// fragments, rows and visible rows.
pub open spec fn tally(record: spec_fn(u64) -> Option<FragmentView>, bound: nat) -> (int, int, int)
    decreases bound,
{
    if bound == 0 {
        (0, 0, 0)
    } else {
        let rest = tally(record, (bound - 1) as nat);
        let last = replay::counts(record((bound - 1) as u64));
        (rest.0 + last.0, rest.1 + last.1, rest.2 + last.2)
    }
}

/// The records a session holds, by fragment id.
pub open spec fn table(w: World, t: TreeView) -> spec_fn(u64) -> Option<FragmentView> {
    |key: u64| commit_laws::held(w, t, key)
}

/// Whether a session's totals are those of the records it holds.
pub open spec fn counts_its_table(w: World, t: TreeView) -> bool {
    tally(table(w, t), t.next_fragment_id as nat) == (
        t.total_fragments as int,
        t.total_rows as int,
        t.visible_rows as int,
    )
}

/// Tables that agree below a bound have the same counts there.
pub(crate) proof fn lemma_tally_same(
    a: spec_fn(u64) -> Option<FragmentView>,
    b: spec_fn(u64) -> Option<FragmentView>,
    bound: nat,
)
    requires
        bound <= u64::MAX + 1,
        forall|key: u64| key < bound ==> #[trigger] a(key) == b(key),
    ensures
        tally(a, bound) == tally(b, bound),
    decreases bound,
{
    if bound > 0 {
        lemma_tally_same(a, b, (bound - 1) as nat);
        let key = (bound - 1) as u64;
        assert(a(key) == b(key));
    }
}

/// A table that changes at one fragment changes its counts by what that
/// fragment's record changes them.
pub(crate) proof fn lemma_tally_change(
    a: spec_fn(u64) -> Option<FragmentView>,
    b: spec_fn(u64) -> Option<FragmentView>,
    id: u64,
    bound: nat,
)
    requires
        bound <= u64::MAX + 1,
        id < bound,
        forall|key: u64| key != id ==> #[trigger] a(key) == b(key),
    ensures
        tally(b, bound).0 - tally(a, bound).0 == replay::counts(b(id)).0 - replay::counts(a(id)).0,
        tally(b, bound).1 - tally(a, bound).1 == replay::counts(b(id)).1 - replay::counts(a(id)).1,
        tally(b, bound).2 - tally(a, bound).2 == replay::counts(b(id)).2 - replay::counts(a(id)).2,
    decreases bound,
{
    let key = (bound - 1) as u64;
    if key == id {
        lemma_tally_same(a, b, (bound - 1) as nat);
    } else {
        lemma_tally_change(a, b, id, (bound - 1) as nat);
        assert(a(key) == b(key));
    }
}

/// Ids that no record has count nothing.
proof fn lemma_tally_beyond(record: spec_fn(u64) -> Option<FragmentView>, from: nat, bound: nat)
    requires
        from <= bound <= u64::MAX + 1,
        forall|key: u64| from <= key < bound ==> #[trigger] record(key) is None,
    ensures
        tally(record, bound) == tally(record, from),
    decreases bound,
{
    if from < bound {
        lemma_tally_beyond(record, from, (bound - 1) as nat);
        let key = (bound - 1) as u64;
        assert(record(key) is None);
    }
}

/// The sum of what each action contributes.
pub open spec fn contributed(deltas: Seq<(int, int, int)>) -> (int, int, int)
    decreases deltas.len(),
{
    if deltas.len() == 0 {
        (0, 0, 0)
    } else {
        let rest = contributed(deltas.drop_last());
        let last = deltas.last();
        (rest.0 + last.0, rest.1 + last.1, rest.2 + last.2)
    }
}

/// The records of a commit in progress, by fragment id.
pub open spec fn table_now(
    w: World,
    t: TreeView,
    touched: TouchedView,
    progress: commit::Progress,
) -> spec_fn(u64) -> Option<FragmentView> {
    |key: u64| commit_laws::now(w, t, touched, progress, key)
}

proof fn lemma_contribution(before: Option<FragmentView>, after: Option<FragmentView>)
    requires
        commit::contribution(before, after) is Ok,
    ensures
        commit::contribution(before, after)->Ok_0 == (
            replay::counts(after).0 - replay::counts(before).0,
            replay::counts(after).1 - replay::counts(before).1,
            replay::counts(after).2 - replay::counts(before).2,
        ),
{
}

/// The actions of a commit change the counts of a table by what they
/// contribute.
proof fn lemma_tally_progress(
    w: World,
    t: TreeView,
    actions: Seq<Option<ActionView>>,
    deltas: Seq<ActionDeltas>,
    touched: TouchedView,
    bound: nat,
)
    requires
        commit_laws::current(w, t),
        commit_laws::resolved_from(w, t, touched),
        commit::progressed(actions, touched, t.next_fragment_id) is Ok,
        deltas.len() == actions.len(),
        publication::allocated(t.next_fragment_id, actions) <= bound <= u64::MAX + 1,
    ensures
        ({
            let progress = commit::progressed(actions, touched, t.next_fragment_id)->Ok_0;
            let before = tally(table(w, t), bound);
            let sum = contributed(progress.deltas);
            tally(table_now(w, t, touched, progress), bound) == (
                before.0 + sum.0,
                before.1 + sum.1,
                before.2 + sum.2,
            )
        }),
    decreases actions.len(),
{
    let progress = commit::progressed(actions, touched, t.next_fragment_id)->Ok_0;
    let new = table_now(w, t, touched, progress);
    if actions.len() == 0 {
        let old = table(w, t);
        assert forall|key: u64| key < bound implies #[trigger] old(key) == new(key) by {
            if touched.ids.contains(key) {
                assert(replay::lookup(touched.fragments, key) == commit_laws::held(w, t, key));
            }
        }
        lemma_tally_same(old, new, bound);
    } else {
        let earlier = actions.drop_last();
        let given = deltas.drop_last();
        let last = commit::progressed(earlier, touched, t.next_fragment_id)->Ok_0;
        let old = table_now(w, t, touched, last);
        lemma_tally_progress(w, t, earlier, given, touched, bound);
        let id = actions.last()->0.target();
        let before = replay::lookup(last.fragments, id);
        let after = replay::lookup(progress.fragments, id);
        commit_laws::lemma_progress(w, t, earlier, given, touched, id);
        commit_laws::lemma_progress(w, t, actions, deltas, touched, id);
        assert(old(id) == before) by {
            if !touched.ids.contains(id) && !last.created.contains(id) {
                assert(world::cell(w, t.children, t.buffer, id) == Ok::<
                    Option<FragmentView>,
                    Error,
                >(None));
            }
        }
        assert(new(id) == after);
        assert forall|key: u64| key != id implies #[trigger] old(key) == new(key) by {}
        lemma_contribution(before, after);
        assert(progress.deltas.drop_last() =~= last.deltas);
        if id < bound {
            lemma_tally_change(old, new, id, bound);
        } else {
            assert forall|key: u64| key < bound implies #[trigger] old(key) == new(key) by {}
            lemma_tally_same(old, new, bound);
        }
    }
}

/// The actions of a commit as mutations, in the order they are given.
pub open spec fn in_order(actions: Seq<Option<ActionView>>) -> Seq<MutationView> {
    Seq::new(actions.len(), |i: int| commit::untagged(actions[i], i as u64))
}

/// The records of a map, by fragment id.
pub open spec fn records_in(state: Map<u64, FragmentView>) -> spec_fn(u64) -> Option<
    FragmentView,
> {
    |key: u64| replay::lookup(state, key)
}

/// Whether one of some actions appended a fragment.
pub open spec fn appended(
    actions: Seq<Option<ActionView>>,
    n: int,
    id: u64,
    next_fragment_id: u64,
) -> bool {
    exists|j: int|
        0 <= j < n && ((#[trigger] actions[j]) matches Some(b) && commit::appends(
            b,
            next_fragment_id,
        ) && b.target() == id)
}

/// Whether an action may be committed: it names a fragment that was resolved,
/// appends one, or names one that an action before it appended.
pub open spec fn answered(
    actions: Seq<Option<ActionView>>,
    i: int,
    ids: Set<u64>,
    next_fragment_id: u64,
) -> bool {
    actions[i] matches Some(a) && (ids.contains(a.target()) || commit::appends(a, next_fragment_id)
        || appended(actions, i, a.target(), next_fragment_id))
}

/// A commit has one delta for each action. They sum to what applying the
/// actions in order changes the counts of the records, and every action names
/// a fragment that was resolved or that the commit appends.
pub proof fn law_deltas_sum_to_the_change(
    actions: Seq<Option<ActionView>>,
    touched: TouchedView,
    next_fragment_id: u64,
)
    requires
        commit::progressed(actions, touched, next_fragment_id) is Ok,
    ensures
        ({
            let progress = commit::progressed(actions, touched, next_fragment_id)->Ok_0;
            let bound = (u64::MAX + 1) as nat;
            let before = tally(records_in(touched.fragments), bound);
            let sum = contributed(progress.deltas);
            &&& progress.deltas.len() == actions.len()
            &&& tally(records_in(progress.fragments), bound) == (
                before.0 + sum.0,
                before.1 + sum.1,
                before.2 + sum.2,
            )
            &&& replay::folded(touched.fragments, in_order(actions), false) == (
                progress.fragments,
                None::<Error>,
            )
            &&& forall|i: int|
                0 <= i < actions.len() ==> #[trigger] answered(
                    actions,
                    i,
                    touched.ids,
                    next_fragment_id,
                )
            &&& forall|id: u64| #[trigger]
                progress.created.contains(id) ==> appended(
                    actions,
                    actions.len() as int,
                    id,
                    next_fragment_id,
                )
        }),
    decreases actions.len(),
{
    let progress = commit::progressed(actions, touched, next_fragment_id)->Ok_0;
    let bound = (u64::MAX + 1) as nat;
    if actions.len() > 0 {
        let earlier = actions.drop_last();
        let n = actions.len() - 1;
        let last = commit::progressed(earlier, touched, next_fragment_id)->Ok_0;
        law_deltas_sum_to_the_change(earlier, touched, next_fragment_id);
        let a = actions.last()->0;
        let id = a.target();
        let before = replay::lookup(last.fragments, id);
        let after = replay::lookup(progress.fragments, id);
        let old = records_in(last.fragments);
        let new = records_in(progress.fragments);
        lemma_contribution(before, after);
        assert(progress.deltas.drop_last() =~= last.deltas);
        assert forall|key: u64| key != id implies #[trigger] old(key) == new(key) by {}
        lemma_tally_change(old, new, id, bound);
        assert(in_order(actions).drop_last() =~= in_order(earlier));
        assert(in_order(actions).last() == commit::untagged(actions.last(), n as u64));
        assert forall|i: int| 0 <= i < actions.len() implies #[trigger] answered(
            actions,
            i,
            touched.ids,
            next_fragment_id,
        ) by {
            if i < n {
                assert(answered(earlier, i, touched.ids, next_fragment_id));
                assert(earlier[i] == actions[i]);
                let target = actions[i]->0.target();
                if appended(earlier, i, target, next_fragment_id) {
                    lemma_appended(earlier, actions, i, i, target, next_fragment_id);
                }
            } else if last.created.contains(id) {
                lemma_appended(earlier, actions, n as int, n as int, id, next_fragment_id);
            }
        }
        assert forall|key: u64| #[trigger] progress.created.contains(key) implies appended(
            actions,
            actions.len() as int,
            key,
            next_fragment_id,
        ) by {
            if last.created.contains(key) {
                lemma_appended(
                    earlier,
                    actions,
                    n as int,
                    actions.len() as int,
                    key,
                    next_fragment_id,
                );
            } else {
                assert(actions[n as int] == Some(a));
            }
        }
    } else {
        assert(in_order(actions) =~= Seq::<MutationView>::empty());
    }
}

proof fn lemma_appended(
    earlier: Seq<Option<ActionView>>,
    actions: Seq<Option<ActionView>>,
    n: int,
    m: int,
    id: u64,
    next_fragment_id: u64,
)
    requires
        appended(earlier, n, id, next_fragment_id),
        n <= m,
        n <= earlier.len() <= actions.len(),
        forall|i: int| 0 <= i < earlier.len() ==> #[trigger] earlier[i] == actions[i],
    ensures
        appended(actions, m, id, next_fragment_id),
{
    let j = choose|j: int|
        0 <= j < n && ((#[trigger] earlier[j]) matches Some(b) && commit::appends(
            b,
            next_fragment_id,
        ) && b.target() == id);
    assert(actions[j] == earlier[j]);
}

/// Deltas that can be summed sum to what they contribute.
proof fn lemma_summed(
    deltas: Seq<ActionDeltas>,
    a: Aggregate,
    b: Aggregate,
    c: Aggregate,
)
    ensures
        ({
            let sum = contributed(commit::deltas_of(deltas));
            &&& node::summed_deltas(publication::fragment_counts(deltas), a) matches Ok(n)
                ==> n == sum.0
            &&& node::summed_deltas(publication::physical_counts(deltas), b) matches Ok(n)
                ==> n == sum.1
            &&& node::summed_deltas(publication::visible_counts(deltas), c) matches Ok(n)
                ==> n == sum.2
        }),
    decreases deltas.len(),
{
    if deltas.len() > 0 {
        let rest = deltas.drop_last();
        lemma_summed(rest, a, b, c);
        assert(commit::deltas_of(deltas).drop_last() =~= commit::deltas_of(rest));
        assert(publication::fragment_counts(deltas).drop_last() =~= publication::fragment_counts(
            rest,
        ));
        assert(publication::physical_counts(deltas).drop_last() =~= publication::physical_counts(
            rest,
        ));
        assert(publication::visible_counts(deltas).drop_last() =~= publication::visible_counts(
            rest,
        ));
    }
}

/// A prepared commit keeps the counts exact: where a session's totals are
/// those of the records it holds, they still are after the commit.
pub proof fn law_commit_keeps_the_counts(
    w: World,
    before: TreeView,
    actions: Seq<Option<ActionView>>,
    deltas: Seq<ActionDeltas>,
    touched: TouchedView,
    next: Option<u64>,
    previous: TreeDescriptor,
    policy: SnapshotPolicy,
    bulk: bool,
    pending: Seq<MutationView>,
    suffix: Seq<MutationView>,
    after: TreeView,
    out: PreparedView,
)
    requires
        commit_laws::current(w, before),
        counts_its_table(w, before),
        commit_laws::resolved_from(w, before, touched),
        world::agrees(w, after.store),
        after.wf(),
        commit::progressed(actions, touched, before.next_fragment_id) is Ok,
        commit::deltas_of(deltas) == commit::progressed(
            actions,
            touched,
            before.next_fragment_id,
        )->Ok_0.deltas,
        publication::staging(before, actions, deltas, next) is Ok,
        publication::concluded(
            before,
            publication::staging(before, actions, deltas, next)->Ok_0,
            publication::tagged(actions, deltas, before.next_action_sequence),
            previous,
            policy,
            bulk,
            pending,
            suffix,
            after,
            Ok(out),
        ),
    ensures
        counts_its_table(w, after),
{
    let progress = commit::progressed(actions, touched, before.next_fragment_id)->Ok_0;
    let bound = after.next_fragment_id as nat;
    commit_laws::law_commit_applies_its_actions(
        w,
        before,
        actions,
        deltas,
        touched,
        next,
        previous,
        policy,
        bulk,
        pending,
        suffix,
        after,
        out,
    );
    commit::lemma_progressed_targets(actions, touched, before.next_fragment_id);
    assert(deltas.len() == commit::deltas_of(deltas).len());
    commit_laws::lemma_progress(w, before, actions, deltas, touched, 0);
    commit_laws::lemma_allocated(before.next_fragment_id, actions);
    lemma_tally_progress(w, before, actions, deltas, touched, bound);
    let now = table_now(w, before, touched, progress);
    let held = table(w, after);
    assert forall|key: u64| key < bound implies #[trigger] held(key) == now(key) by {
        assert(commit_laws::held(w, after, key) == commit_laws::now(
            w,
            before,
            touched,
            progress,
            key,
        ));
    }
    lemma_tally_same(held, now, bound);
    let old = table(w, before);
    assert forall|key: u64| before.next_fragment_id <= key < bound implies #[trigger] old(
        key,
    ) is None by {
        assert(world::cell(w, before.children, before.buffer, key) == Ok::<
            Option<FragmentView>,
            Error,
        >(None));
    }
    lemma_tally_beyond(old, before.next_fragment_id as nat, bound);
    lemma_summed(
        deltas,
        Aggregate::FragmentCountDelta,
        Aggregate::TotalRowsDelta,
        Aggregate::VisibleRowsDelta,
    );
}

/// The records among some, by fragment id.
pub open spec fn table_of(records: Seq<FragmentView>) -> spec_fn(u64) -> Option<FragmentView> {
    |key: u64| world::found(records, key)
}

/// The counts of some records: fragments, rows and visible rows.
pub open spec fn amounts(records: Seq<FragmentView>) -> (int, int, int)
    decreases records.len(),
{
    if records.len() == 0 {
        (0, 0, 0)
    } else {
        let rest = amounts(records.drop_last());
        let last = replay::counts(Some(records.last()));
        (rest.0 + last.0, rest.1 + last.1, rest.2 + last.2)
    }
}

/// A table counts the records it was made of.
pub(crate) proof fn lemma_tally_records(records: Seq<FragmentView>, bound: nat)
    requires
        store::ascending(records),
        forall|i: int| 0 <= i < records.len() ==> (#[trigger] records[i]).id < bound,
        bound <= u64::MAX + 1,
    ensures
        tally(table_of(records), bound) == amounts(records),
    decreases records.len(),
{
    let new = table_of(records);
    if records.len() == 0 {
        assert forall|key: u64| 0 <= key < bound implies #[trigger] new(key) is None by {}
        lemma_tally_beyond(new, 0, bound);
    } else {
        let rest = records.drop_last();
        let x = records.last();
        let old = table_of(rest);
        assert(records =~= rest.push(x));
        assert(records[records.len() - 1].id < bound);
        assert(store::ascending(rest)) by {
            assert forall|i: int, j: int| 0 <= i < j < rest.len() implies (#[trigger] rest[i]).id
                < (#[trigger] rest[j]).id by {
                assert(rest[i] == records[i] && rest[j] == records[j]);
            }
        }
        assert forall|i: int| 0 <= i < rest.len() implies (#[trigger] rest[i]).id < bound by {
            assert(rest[i] == records[i]);
        }
        lemma_tally_records(rest, bound);
        assert forall|key: u64| key != x.id implies #[trigger] old(key) == new(key) by {
            drain::lemma_found_push(rest, x, key);
        }
        drain::lemma_found_push(rest, x, x.id);
        assert(new(x.id) == Some(x));
        assert(old(x.id) is None) by {
            if old(x.id) is Some {
                let k = leaves::lemma_found_some(rest, x.id);
                assert(records[k].id < records[records.len() - 1].id);
            }
        }
        lemma_tally_change(old, new, x.id, bound);
    }
}

proof fn lemma_initial_amounts(records: Seq<FragmentView>)
    requires
        publication::initial_totals(records) is Ok,
    ensures
        amounts(records) == (
            records.len() as int,
            publication::initial_totals(records)->Ok_0.0 as int,
            publication::initial_totals(records)->Ok_0.1 as int,
        ),
    decreases records.len(),
{
    if records.len() > 0 {
        lemma_initial_amounts(records.drop_last());
    }
}

/// A new tree counts the fragments it was built over.
pub proof fn law_new_tree_counts_its_fragments(
    w: World,
    store: StoreView,
    config: FragmentMetadataTreeConfig,
    fragments: Seq<FragmentView>,
    version: u64,
    policy: SnapshotPolicy,
    t: TreeView,
    snapshot: TreeDescriptor,
    stats: BootstrapStats,
    root: Option<RootView>,
)
    requires
        commit_laws::coherent(w),
        world::agrees(w, t.store),
        world::all_sound(w, store),
        t.wf(),
        publication::bootstrap_fault(config, fragments) is None,
        publication::bootstrapped(
            store,
            config,
            fragments,
            version,
            policy,
            t,
            snapshot,
            stats,
            root,
        ),
    ensures
        counts_its_table(w, t),
{
    let records = leaves::by_id(fragments);
    let bound = t.next_fragment_id as nat;
    snapshot_laws::law_new_tree_holds_its_fragments(
        w,
        store,
        config,
        fragments,
        version,
        policy,
        t,
        snapshot,
        stats,
        root,
    );
    leaves::lemma_by_id(fragments);
    publication::lemma_ordered(records);
    publication::lemma_initial(records);
    lemma_initial_amounts(records);
    lemma_tally_records(records, bound);
    let held = table(w, t);
    let found = table_of(records);
    assert forall|key: u64| key < bound implies #[trigger] held(key) == found(key) by {
        assert(commit_laws::held(w, t, key) == world::found(records, key));
    }
    lemma_tally_same(held, found, bound);
}

} // verus!
