//! What a commit does to a tree: exactly what its actions say.

use vstd::prelude::*;

use crate::commit;
use crate::commit::{ActionDeltas, Progress, TouchedView};
use crate::drain;
use crate::error::Error;
use crate::node;
use crate::order;
use crate::partial;
use crate::pb;
use crate::pb::{ActionView, ChildView, MutationView, TreeDescriptor};
use crate::record::FragmentView;
use crate::replay;
use crate::replay_laws;
use crate::steps;
use crate::store;
use crate::store::StoreView;
use crate::tree;
use crate::tree::publication;
use crate::tree::publication::{PreparedView, SnapshotPolicy, Staging};
use crate::tree::TreeView;
use crate::world;
use crate::world::World;

verus! {

/// Whether no leaf below an object is ahead of the largest watermark below it.
pub open spec fn coherent(w: World) -> bool {
    forall|loc: store::Loc, key: u64| #[trigger] (w.mark)(loc, key) <= (w.peak)(loc)
}

/// Whether a session stands for a tree in a world: the world agrees with the
/// objects it knows, everything is sound, nothing in the tree has a place in
/// the commit order that is not assigned yet, and no fragment beyond the
/// allocator exists.
pub open spec fn current(w: World, t: TreeView) -> bool {
    &&& t.wf()
    &&& coherent(w)
    &&& world::agrees(w, t.store)
    &&& world::all_sound(w, t.store)
    &&& world::sound(w, t.children, t.buffer)
    &&& t.next_action_sequence >= 1
    &&& forall|key: u64| #[trigger]
        world::frontier(w, t.children, t.buffer, key) <= t.next_action_sequence
    &&& world::capped(w, t.children, (t.next_action_sequence - 1) as nat)
    &&& forall|key: u64|
        key >= t.next_fragment_id ==> #[trigger] world::cell(w, t.children, t.buffer, key)
            == Ok::<Option<FragmentView>, Error>(None)
}

/// The record a session holds for a fragment.
pub open spec fn held(w: World, t: TreeView, key: u64) -> Option<FragmentView> {
    world::cell(w, t.children, t.buffer, key)->Ok_0
}

/// Whether resolved fragments are what a session holds for them.
pub open spec fn resolved_from(w: World, t: TreeView, touched: TouchedView) -> bool {
    &&& forall|key: u64| #[trigger]
        touched.ids.contains(key) ==> replay::lookup(touched.fragments, key) == held(w, t, key)
    &&& forall|key: u64| #[trigger]
        touched.fragments.contains_key(key) ==> touched.ids.contains(key)
}

/// The records after some actions of a commit.
pub open spec fn now(
    w: World,
    t: TreeView,
    touched: TouchedView,
    progress: Progress,
    key: u64,
) -> Option<FragmentView> {
    if touched.ids.contains(key) || progress.created.contains(key) {
        replay::lookup(progress.fragments, key)
    } else {
        held(w, t, key)
    }
}

/// A mutation's effect without its deltas depends on its action alone.
proof fn lemma_step_untagged(record: Option<FragmentView>, a: MutationView, b: MutationView)
    requires
        a.action == b.action,
        a.action is Some,
    ensures
        replay::step(record, a, false) == replay::step(record, b, false),
        a.key() == b.key(),
{
}

/// What an action that applies leaves of the fragment it targets.
proof fn lemma_step_target(record: Option<FragmentView>, m: MutationView)
    requires
        replay::step(record, m, false) is Ok,
        record matches Some(f) ==> f.id == m.key(),
    ensures
        replay::step(record, m, false)->Ok_0 matches Some(f) ==> f.id == m.key(),
        record is None && !(m.known() matches Some(ActionView::AddFragment(_)))
            ==> replay::step(record, m, false)->Ok_0 is None,
{
    if let Some(ActionView::AddFragment(f)) = m.known() {
        pb::law_read_record_is_storable(f);
    }
}

/// Where a commit stands after its actions.
pub open spec fn accounted(
    w: World,
    t: TreeView,
    touched: TouchedView,
    progress: Progress,
    fresh: Seq<MutationView>,
    allocated: int,
    key: u64,
) -> bool {
    &&& replay::outcome(held(w, t, key), order::of_key(fresh, key), false) == Ok::<
        Option<FragmentView>,
        Error,
    >(now(w, t, touched, progress, key))
    &&& !touched.ids.contains(key) && !progress.created.contains(key) ==> order::of_key(fresh, key)
        == Seq::<MutationView>::empty() && replay::lookup(progress.fragments, key) is None
    &&& world::proper(now(w, t, touched, progress, key), key)
    &&& key >= allocated ==> now(w, t, touched, progress, key) is None
    &&& progress.created.contains(key) ==> key >= t.next_fragment_id
}

pub(crate) proof fn lemma_progress(
    w: World,
    t: TreeView,
    actions: Seq<Option<ActionView>>,
    deltas: Seq<ActionDeltas>,
    touched: TouchedView,
    key: u64,
)
    requires
        current(w, t),
        resolved_from(w, t, touched),
        commit::progressed(actions, touched, t.next_fragment_id) is Ok,
        deltas.len() == actions.len(),
    ensures
        accounted(
            w,
            t,
            touched,
            commit::progressed(actions, touched, t.next_fragment_id)->Ok_0,
            publication::tagged(actions, deltas, t.next_action_sequence),
            publication::allocated(t.next_fragment_id, actions),
            key,
        ),
        publication::allocated(t.next_fragment_id, actions) >= t.next_fragment_id,
    decreases actions.len(),
{
    let next = t.next_fragment_id;
    let first = t.next_action_sequence;
    let fresh = publication::tagged(actions, deltas, first);
    let progress = commit::progressed(actions, touched, next)->Ok_0;
    assert(world::good(world::cell(w, t.children, t.buffer, key), key));
    if actions.len() == 0 {
        assert(fresh =~= Seq::<MutationView>::empty());
        assert(order::of_key(fresh, key) =~= Seq::<MutationView>::empty());
        if touched.fragments.contains_key(key) {
            assert(touched.ids.contains(key));
        }
        if key >= next {
            assert(world::cell(w, t.children, t.buffer, key) == Ok::<Option<FragmentView>, Error>(
                None,
            ));
        }
    } else {
        let rest = actions.drop_last();
        let action = actions.last();
        let at = (actions.len() - 1) as u64;
        let early = publication::tagged(rest, deltas.drop_last(), first);
        let m = fresh.last();
        let before = commit::progressed(rest, touched, next)->Ok_0;
        lemma_progress(w, t, rest, deltas.drop_last(), touched, key);
        assert(fresh.drop_last() =~= early);
        assert(fresh =~= early.push(m));
        let a = action->0;
        let id = a.target();
        let pred = |m: MutationView| m.key() == key;
        early.lemma_filter_push(m, pred);
        assert(m.action == Some(action));
        assert(m.key() == id);
        if id == key {
            lemma_progress(w, t, rest, deltas.drop_last(), touched, id);
            let was = now(w, t, touched, before, key);
            assert(replay::lookup(before.fragments, id) == was) by {
                if !touched.ids.contains(id) && !before.created.contains(id) {
                    assert(commit::appends(a, next));
                    assert(world::cell(w, t.children, t.buffer, id) == Ok::<
                        Option<FragmentView>,
                        Error,
                    >(None));
                }
            }
            lemma_step_untagged(was, m, commit::untagged(action, at));
            let run = order::of_key(fresh, key);
            assert(run.drop_last() =~= order::of_key(early, key));
            assert(run.last() == m);
            lemma_step_target(was, m);
            let after = replay::step(was, m, false)->Ok_0;
            assert(replay::outcome(held(w, t, key), run, false) == Ok::<
                Option<FragmentView>,
                Error,
            >(after));
            assert(replay::lookup(progress.fragments, key) == after);
            assert(commit::refused(after) is None);
        } else {
            assert(replay::lookup(progress.fragments, key) == replay::lookup(
                before.fragments,
                key,
            ));
            assert(progress.created.contains(key) == before.created.contains(key));
        }
    }
}

/// The actions of a commit, as buffered, are newer than everything in the
/// tree.
proof fn lemma_extended(
    w: World,
    t: TreeView,
    actions: Seq<Option<ActionView>>,
    deltas: Seq<ActionDeltas>,
    touched: TouchedView,
)
    requires
        current(w, t),
        resolved_from(w, t, touched),
        commit::progressed(actions, touched, t.next_fragment_id) is Ok,
        deltas.len() == actions.len(),
        t.next_action_sequence + actions.len() <= u64::MAX,
    ensures
        ({
            let progress = commit::progressed(actions, touched, t.next_fragment_id)->Ok_0;
            let fresh = publication::tagged(actions, deltas, t.next_action_sequence);
            let joined = t.buffer + fresh;
            &&& world::sound(w, t.children, joined)
            &&& forall|key: u64| #[trigger]
                world::cell(w, t.children, joined, key) == Ok::<Option<FragmentView>, Error>(
                    now(w, t, touched, progress, key),
                )
            &&& forall|key: u64| #[trigger]
                world::frontier(w, t.children, joined, key) <= t.next_action_sequence
                    + actions.len()
        }),
{
    let progress = commit::progressed(actions, touched, t.next_fragment_id)->Ok_0;
    let first = t.next_action_sequence;
    let fresh = publication::tagged(actions, deltas, first);
    let joined = t.buffer + fresh;
    let allocated = publication::allocated(t.next_fragment_id, actions);
    assert forall|key: u64|
        order::distinct(#[trigger] order::of_key(joined, key)) && world::cell(
            w,
            t.children,
            joined,
            key,
        ) == Ok::<Option<FragmentView>, Error>(now(w, t, touched, progress, key)) && world::proper(
            now(w, t, touched, progress, key),
            key,
        ) && world::frontier(w, t.children, joined, key) <= first + actions.len() by {
        lemma_progress(w, t, actions, deltas, touched, key);
        let own = order::of_key(fresh, key);
        lemma_tagged_run(actions, deltas, first, key);
        assert(world::frontier(w, t.children, t.buffer, key) <= first);
        assert(order::distinct(order::of_key(t.buffer, key)));
        assert forall|i: int| 0 <= i < fresh.len() && (#[trigger] fresh[i]).key() == key implies
            world::latest(t.buffer, key) <= fresh[i].action_sequence by {}
        world::lemma_run_join(t.buffer, fresh, joined, key);
        replay_laws::law_replay_joins(
            world::base_at(w, t.children, key),
            order::run(t.buffer, key),
            order::run(fresh, key),
            false,
        );
        assert(world::good(world::cell(w, t.children, t.buffer, key), key));
        world::lemma_latest(fresh, key);
    }
    assert(world::apart(joined)) by {
        assert forall|key: u64| order::distinct(#[trigger] order::of_key(joined, key)) by {}
    }
    assert(world::fresh(w, t.children, joined)) by {
        assert forall|i: int| 0 <= i < joined.len() implies world::newest_at(
            w,
            t.children,
            (#[trigger] joined[i]).key(),
        ) <= joined[i].action_sequence && world::mark_at(w, t.children, joined[i].key())
            < joined[i].action_sequence by {
            if i < t.buffer.len() {
                assert(joined[i] == t.buffer[i]);
            } else {
                let m = fresh[i - t.buffer.len()];
                assert(joined[i] == m);
                assert(world::frontier(w, t.children, t.buffer, m.key()) <= first);
                lemma_marks_capped(w, t.children, (first - 1) as nat, m.key());
            }
        }
    }
    assert forall|key: u64| world::good(
        #[trigger] world::cell(w, t.children, joined, key),
        key,
    ) by {
        let run = order::of_key(joined, key);
    }
    assert forall|key: u64| #[trigger]
        world::cell(w, t.children, joined, key) == Ok::<Option<FragmentView>, Error>(
            now(w, t, touched, progress, key),
        ) by {
        let run = order::of_key(joined, key);
    }
    assert forall|key: u64| #[trigger]
        world::frontier(w, t.children, joined, key) <= first + actions.len() by {
        let run = order::of_key(joined, key);
    }
}

/// A fragment's actions in a commit are in commit order.
pub(crate) proof fn lemma_tagged_run(
    actions: Seq<Option<ActionView>>,
    deltas: Seq<ActionDeltas>,
    first: u64,
    key: u64,
)
    requires
        first + actions.len() <= u64::MAX,
    ensures
        ({
            let fresh = publication::tagged(actions, deltas, first);
            let own = order::of_key(fresh, key);
            &&& order::run(fresh, key) == own
            &&& order::distinct(own)
            &&& forall|i: int|
                0 <= i < own.len() ==> first <= (#[trigger] own[i]).action_sequence < first
                    + actions.len()
        }),
    decreases actions.len(),
{
    let fresh = publication::tagged(actions, deltas, first);
    let own = order::of_key(fresh, key);
    let pred = |m: MutationView| m.key() == key;
    if actions.len() > 0 {
        let rest = actions.drop_last();
        let early = publication::tagged(rest, deltas, first);
        lemma_tagged_run(rest, deltas, first, key);
        assert(fresh.drop_last() =~= early);
        assert(fresh =~= early.push(fresh.last()));
        early.lemma_filter_push(fresh.last(), pred);
        let before = order::of_key(early, key);
        if fresh.last().key() == key {
            assert(own == before.push(fresh.last()));
            assert forall|i: int, j: int| 0 <= i < j < own.len() implies (
            #[trigger] own[i]).action_sequence != (#[trigger] own[j]).action_sequence by {
                if j == own.len() - 1 {
                    assert(own[i] == before[i]);
                } else {
                    assert(own[i] == before[i] && own[j] == before[j]);
                }
            }
            order::lemma_sorted_is_sorted(before, false);
            assert(order::is_sorted(own, false)) by {
                lemma_sorted_push(before, fresh.last());
            }
            order::lemma_sorted_fixed(own, false);
            assert forall|i: int| 0 <= i < own.len() implies first <= (
            #[trigger] own[i]).action_sequence < first + actions.len() by {
                if i < before.len() {
                    assert(own[i] == before[i]);
                }
            }
        }
    } else {
        assert(fresh =~= Seq::<MutationView>::empty());
        assert(own =~= Seq::<MutationView>::empty());
        assert(order::run(fresh, key) =~= Seq::<MutationView>::empty());
    }
}

proof fn lemma_sorted_push(s: Seq<MutationView>, m: MutationView)
    requires
        order::is_sorted(s, false),
        forall|i: int| 0 <= i < s.len() ==> (#[trigger] s[i]).action_sequence < m.action_sequence,
    ensures
        order::is_sorted(s.push(m), false),
{
    let t = s.push(m);
    assert forall|i: int, j: int| 0 <= i < j < t.len() implies !order::after(
        #[trigger] t[i],
        #[trigger] t[j],
        false,
    ) by {
        if j == s.len() {
            assert(t[i] == s[i]);
        } else {
            assert(t[i] == s[i] && t[j] == s[j]);
        }
    }
}

pub(crate) proof fn lemma_marks_capped(w: World, children: Seq<ChildView>, bound: nat, key: u64)
    requires
        coherent(w),
        world::capped(w, children, bound),
    ensures
        world::mark_at(w, children, key) <= bound,
{
    if children.len() > 0 {
        node::lemma_route(children, key);
        let c = children[node::route(children, key)];
        assert(w.peak_of(c) <= bound);
        if c.height > 0 {
            assert((w.mark)(c.loc(), key) <= (w.peak)(c.loc()));
        }
    }
}

/// Objects are agreed with and sound whatever the next place in the commit
/// order is.
proof fn lemma_advanced_store(w: World, store: StoreView, next: u64)
    ensures
        world::agrees(w, publication::advanced_store(store, next)) == world::agrees(w, store),
        world::all_sound(w, publication::advanced_store(store, next)) == world::all_sound(w, store),
{
    reveal(world::agrees);
    reveal(world::all_sound);
    let after = publication::advanced_store(store, next);
    assert(after.headers == store.headers && after.rows == store.rows);
    if world::agrees(w, store) {
        assert(world::agrees(w, after));
    }
    if world::agrees(w, after) {
        assert forall|i: int| 0 <= i < store.headers.len() implies partial::headers_agree(
            w,
            #[trigger] store.headers[i],
        ) by {
            assert(partial::headers_agree(w, after.headers[i]));
        }
        assert(world::agrees(w, store));
    }
}

pub(crate) proof fn lemma_allocated(next: u64, actions: Seq<Option<ActionView>>)
    requires
        forall|i: int|
            0 <= i < actions.len() ==> (#[trigger] actions[i]) is Some && actions[i]->0.target()
                <= u32::MAX,
    ensures
        publication::allocated(next, actions) <= u64::MAX,
    decreases actions.len(),
{
    if actions.len() > 0 {
        let rest = actions.drop_last();
        assert forall|i: int| 0 <= i < rest.len() implies (#[trigger] rest[i]) is Some
            && rest[i]->0.target() <= u32::MAX by {
            assert(rest[i] == actions[i]);
        }
        lemma_allocated(next, rest);
        assert(actions[actions.len() - 1]->0.target() <= u32::MAX);
    }
}

/// What a prepared commit leaves holds what the buffered commit holds.
proof fn lemma_landed(
    w: World,
    before: TreeView,
    counters: Staging,
    fresh: Seq<MutationView>,
    previous: TreeDescriptor,
    policy: SnapshotPolicy,
    bulk: bool,
    pending: Seq<MutationView>,
    suffix: Seq<MutationView>,
    after: TreeView,
    out: PreparedView,
)
    requires
        world::agrees(w, before.store),
        world::all_sound(w, before.store),
        world::agrees(w, after.store),
        world::sound(w, before.children, before.buffer + fresh),
        publication::concluded(
            before,
            counters,
            fresh,
            previous,
            policy,
            bulk,
            pending,
            suffix,
            after,
            Ok(out),
        ),
    ensures
        world::all_sound(w, after.store),
        world::refines(
            w,
            before.children,
            before.buffer + fresh,
            after.children,
            after.buffer,
            drain::ceiling(
                publication::advanced_store(before.store, counters.next_action_sequence),
            ) as int,
        ),
{
    let joined = before.buffer + fresh;
    let base = publication::advanced_store(before.store, counters.next_action_sequence);
    let cap = drain::ceiling(base) as int;
    lemma_advanced_store(w, before.store, counters.next_action_sequence);
    steps::step_squash(base, before.children, joined, pending);
    assert(world::refines(w, before.children, joined, before.children, pending, -1)) by {
        reveal(world::faithful);
    }
    if publication::stays(
        before.children,
        pending,
        suffix,
        previous,
        before.config,
        policy,
        bulk,
    ) {
        assert(after.store == base);
        drain::lemma_faithful_weaken(
            base,
            base,
            before.children,
            joined,
            before.children,
            pending,
            cap,
        );
        assert(world::refines(w, before.children, joined, before.children, pending, cap)) by {
            reveal(world::faithful);
        }
    } else {
        assert(tree::rewritten(
            base,
            after.store,
            before.children,
            pending,
            after.children,
            after.buffer,
        ));
        assert(world::all_sound(w, after.store) && world::refines(
            w,
            before.children,
            pending,
            after.children,
            after.buffer,
            cap,
        )) by {
            reveal(world::faithful);
        }
        world::lemma_refines_transitive(
            w,
            before.children,
            joined,
            before.children,
            pending,
            after.children,
            after.buffer,
            -1,
            cap,
        );
    }
}

/// A prepared commit turns a session that stands for a tree into one that
/// stands for the tree the commit's actions make of it: every fragment the
/// commit resolved or created has the record its actions come to, and every
/// other fragment has the record it had. Nothing is said of a world in which
/// the session did not stand for a tree.
pub proof fn law_commit_applies_its_actions(
    w: World,
    before: TreeView,
    actions: Seq<Option<ActionView>>,
    deltas: Seq<ActionDeltas>,
    touched: TouchedView,
    next: Option<u64>,
    previous: TreeDescriptor,
    policy: SnapshotPolicy,
    bulk: bool,
    pending: Seq<MutationView>,
    suffix: Seq<MutationView>,
    after: TreeView,
    out: PreparedView,
)
    requires
        current(w, before),
        resolved_from(w, before, touched),
        world::agrees(w, after.store),
        after.wf(),
        commit::progressed(actions, touched, before.next_fragment_id) is Ok,
        commit::deltas_of(deltas) == commit::progressed(
            actions,
            touched,
            before.next_fragment_id,
        )->Ok_0.deltas,
        publication::staging(before, actions, deltas, next) is Ok,
        publication::concluded(
            before,
            publication::staging(before, actions, deltas, next)->Ok_0,
            publication::tagged(actions, deltas, before.next_action_sequence),
            previous,
            policy,
            bulk,
            pending,
            suffix,
            after,
            Ok(out),
        ),
    ensures
        current(w, after),
        forall|key: u64| #[trigger]
            held(w, after, key) == now(
                w,
                before,
                touched,
                commit::progressed(actions, touched, before.next_fragment_id)->Ok_0,
                key,
            ),
{
    let counters = publication::staging(before, actions, deltas, next)->Ok_0;
    let fresh = publication::tagged(actions, deltas, before.next_action_sequence);
    let progress = commit::progressed(actions, touched, before.next_fragment_id)->Ok_0;
    let joined = before.buffer + fresh;
    let base = publication::advanced_store(before.store, counters.next_action_sequence);
    commit::lemma_progressed_targets(actions, touched, before.next_fragment_id);
    assert(deltas.len() == commit::deltas_of(deltas).len());
    lemma_extended(w, before, actions, deltas, touched);
    lemma_landed(
        w,
        before,
        counters,
        fresh,
        previous,
        policy,
        bulk,
        pending,
        suffix,
        after,
        out,
    );
    let bound = (counters.next_action_sequence - 1) as nat;
    assert(world::capped(w, before.children, bound)) by {
        assert forall|i: int| 0 <= i < before.children.len() implies w.peak_of(
            #[trigger] before.children[i],
        ) <= bound by {}
    }
    assert forall|key: u64|
        #![trigger world::cell(w, after.children, after.buffer, key)]
        world::cell(w, after.children, after.buffer, key) == Ok::<Option<FragmentView>, Error>(
            now(w, before, touched, progress, key),
        ) by {
        assert(world::cell(w, before.children, joined, key) == world::cell(
            w,
            after.children,
            after.buffer,
            key,
        ));
    }
    assert forall|key: u64| #[trigger]
        world::frontier(w, after.children, after.buffer, key) <= after.next_action_sequence by {
        assert(world::frontier(w, after.children, after.buffer, key) <= world::frontier(
            w,
            before.children,
            joined,
            key,
        ));
    }
    assert forall|key: u64| key >= after.next_fragment_id implies #[trigger] world::cell(
        w,
        after.children,
        after.buffer,
        key,
    ) == Ok::<Option<FragmentView>, Error>(None) by {
        lemma_progress(w, before, actions, deltas, touched, key);
        lemma_allocated(before.next_fragment_id, actions);
    }
}

} // verus!
