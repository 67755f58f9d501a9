//! What a published snapshot stands for: a session that opens it holds what
//! the session that prepared it holds.

use vstd::prelude::*;

use crate::commit;
use crate::commit::{ActionDeltas, TouchedView};
use crate::error::Error;
use crate::leaves;
use crate::levels;
use crate::lifting;
use crate::node::FragmentMetadataTreeConfig;
use crate::order;
use crate::pb::{ActionView, MutationView, RootView, TreeDescriptor};
use crate::record::FragmentView;
use crate::replay;
use crate::replay_laws;
use crate::squash;
use crate::squash_laws;
use crate::steps;
use crate::store;
use crate::store::StoreView;
use crate::tree::commit_laws;
use crate::tree::publication;
use crate::tree::publication::{PreparedView, SnapshotPolicy};
use crate::tree::{BootstrapStats, TreeView};
use crate::world;
use crate::world::World;

verus! {

/// Whether a descriptor with the root it starts from stands for a session.
pub open spec fn describes(w: World, root: RootView, snapshot: TreeDescriptor, t: TreeView) -> bool {
    let suffix = snapshot.mutations_since_root;
    &&& t.snapshot == Some(snapshot)
    &&& root.children == t.children
    &&& snapshot.next_action_sequence == t.next_action_sequence
    &&& root.next_action_sequence <= t.next_action_sequence
    &&& world::sound(w, root.children, root.buffer + suffix)
    &&& forall|key: u64| #[trigger]
        world::cell(w, root.children, root.buffer + suffix, key) == world::cell(
            w,
            t.children,
            t.buffer,
            key,
        )
    &&& forall|i: int|
        0 <= i < root.buffer.len() ==> (#[trigger] root.buffer[i]).action_sequence
            < root.next_action_sequence
    &&& forall|i: int|
        0 <= i < suffix.len() ==> root.next_action_sequence <= (
        #[trigger] suffix[i]).action_sequence < t.next_action_sequence
}

/// Every place a session has buffered is an assigned one.
proof fn lemma_buffer_assigned(w: World, t: TreeView)
    requires
        commit_laws::current(w, t),
    ensures
        forall|i: int|
            0 <= i < t.buffer.len() ==> (#[trigger] t.buffer[i]).action_sequence
                < t.next_action_sequence,
{
    assert forall|i: int| 0 <= i < t.buffer.len() implies (#[trigger] t.buffer[i]).action_sequence
        < t.next_action_sequence by {
        let key = t.buffer[i].key();
        world::lemma_latest(t.buffer, key);
        assert(world::frontier(w, t.children, t.buffer, key) <= t.next_action_sequence);
    }
}

/// A checkpoint stands for the session it was made of.
pub proof fn law_checkpoint_describes_the_session(
    w: World,
    t: TreeView,
    policy: SnapshotPolicy,
    snapshot: TreeDescriptor,
    bytes: u64,
    stored: Option<RootView>,
    version: u64,
)
    requires
        commit_laws::current(w, t),
        t.snapshot == Some(snapshot),
        publication::checkpointed(t.root(), policy, snapshot, bytes, stored),
    ensures
        publication::base_root(snapshot, stored, version) == Ok::<RootView, Error>(t.root()),
        describes(w, t.root(), snapshot, t),
{
    let root = t.root();
    assert(root.buffer + snapshot.mutations_since_root =~= t.buffer);
    lemma_buffer_assigned(w, t);
}

/// The mutations of a fragment in two lists one of which is newer throughout.
proof fn lemma_newer_run(
    older: Seq<MutationView>,
    newer: Seq<MutationView>,
    place: int,
    key: u64,
)
    requires
        order::distinct(order::of_key(older, key)),
        order::distinct(order::of_key(newer, key)),
        forall|i: int| 0 <= i < older.len() ==> (#[trigger] older[i]).action_sequence < place,
        forall|i: int| 0 <= i < newer.len() ==> place <= (#[trigger] newer[i]).action_sequence,
    ensures
        order::run(older + newer, key) == order::run(older, key) + order::run(newer, key),
        order::distinct(order::of_key(older + newer, key)),
{
    world::lemma_latest(older, key);
    world::lemma_run_join(older, newer, older + newer, key);
}

proof fn lemma_distinct_part(a: Seq<MutationView>, b: Seq<MutationView>, key: u64)
    requires
        order::distinct(order::of_key(a + b, key)),
    ensures
        order::distinct(order::of_key(a, key)),
        order::distinct(order::of_key(b, key)),
{
    lifting::lemma_of_key_add(a, b, key);
    let x = order::of_key(a, key);
    let y = order::of_key(b, key);
    assert forall|i: int, j: int| 0 <= i < j < x.len() implies (#[trigger] x[i]).action_sequence
        != (#[trigger] x[j]).action_sequence by {
        assert((x + y)[i] == x[i] && (x + y)[j] == x[j]);
    }
    assert forall|i: int, j: int| 0 <= i < j < y.len() implies (#[trigger] y[i]).action_sequence
        != (#[trigger] y[j]).action_sequence by {
        assert((x + y)[x.len() + i] == y[i] && (x + y)[x.len() + j] == y[j]);
    }
}

/// A list in commit order with places distinct for a fragment.
proof fn lemma_run_shape(s: Seq<MutationView>, key: u64)
    requires
        order::distinct(order::of_key(s, key)),
    ensures
        order::is_sorted(order::run(s, key), false),
        order::distinct(order::run(s, key)),
        forall|i: int|
            0 <= i < order::run(s, key).len() ==> (#[trigger] order::run(s, key)[i]).key() == key,
{
    squash_laws::lemma_run(s, key);
    order::lemma_sorted_distinct(order::of_key(s, key), false);
}

/// What a suffix holds once a commit is squashed into it.
proof fn lemma_suffix_cell(
    w: World,
    root: RootView,
    previous: TreeDescriptor,
    before: TreeView,
    actions: Seq<Option<ActionView>>,
    deltas: Seq<ActionDeltas>,
    touched: TouchedView,
    suffix: Seq<MutationView>,
    key: u64,
)
    requires
        commit_laws::current(w, before),
        commit_laws::resolved_from(w, before, touched),
        describes(w, root, previous, before),
        commit::progressed(actions, touched, before.next_fragment_id) is Ok,
        deltas.len() == actions.len(),
        before.next_action_sequence + actions.len() <= u64::MAX,
        squash::normalized(
            previous.mutations_since_root + publication::tagged(
                actions,
                deltas,
                before.next_action_sequence,
            ),
            suffix,
        ),
        forall|i: int|
            0 <= i < suffix.len() ==> root.next_action_sequence <= (
            #[trigger] suffix[i]).action_sequence,
    ensures
        world::cell(w, root.children, root.buffer + suffix, key) == Ok::<
            Option<FragmentView>,
            Error,
        >(
            commit_laws::now(
                w,
                before,
                touched,
                commit::progressed(actions, touched, before.next_fragment_id)->Ok_0,
                key,
            ),
        ),
        order::distinct(order::of_key(root.buffer + suffix, key)),
{
    let first = before.next_action_sequence;
    let fresh = publication::tagged(actions, deltas, first);
    let old_suffix = previous.mutations_since_root;
    let all = old_suffix + fresh;
    let place = root.next_action_sequence as int;
    let base = world::base_at(w, root.children, key);
    let progress = commit::progressed(actions, touched, before.next_fragment_id)->Ok_0;
    commit_laws::lemma_progress(w, before, actions, deltas, touched, key);
    commit_laws::lemma_tagged_run(actions, deltas, first, key);
    assert(order::distinct(order::of_key(root.buffer + old_suffix, key)));
    lemma_distinct_part(root.buffer, old_suffix, key);
    // What is held before the suffix, and what it makes of it.
    lemma_newer_run(root.buffer, old_suffix, place, key);
    replay_laws::law_replay_joins(
        base,
        order::run(root.buffer, key),
        order::run(old_suffix, key),
        false,
    );
    assert(world::good(world::cell(w, root.children, root.buffer + old_suffix, key), key));
    assert(world::cell(w, root.children, root.buffer + old_suffix, key) == world::cell(
        w,
        before.children,
        before.buffer,
        key,
    ));
    let x = replay::outcome(base, order::run(root.buffer, key), false)->Ok_0;
    assert(replay::outcome(base, order::run(root.buffer, key), false) == Ok::<
        Option<FragmentView>,
        Error,
    >(x));
    // The commit comes after it.
    assert forall|i: int| 0 <= i < fresh.len() implies first <= (
    #[trigger] fresh[i]).action_sequence by {}
    lemma_newer_run(old_suffix, fresh, first as int, key);
    replay_laws::law_replay_joins(x, order::run(old_suffix, key), order::run(fresh, key), false);
    lemma_run_shape(all, key);
    squash_laws::law_reduced_run_means_the_same(x, key, order::run(all, key), false);
    // The squashed suffix makes the same of it.
    assert(order::run(suffix, key) == squash::reduced(key, order::run(all, key)));
    squash_laws::law_reduction_keeps_shape(key, order::run(all, key));
    assert(order::distinct(order::of_key(suffix, key))) by {
        order::lemma_sorted_distinct(order::of_key(suffix, key), false);
    }
    lemma_newer_run(root.buffer, suffix, place, key);
    replay_laws::law_replay_joins(
        base,
        order::run(root.buffer, key),
        order::run(suffix, key),
        false,
    );
}

/// A commit that stays a suffix of the descriptor is described by it.
pub proof fn law_suffix_describes_the_session(
    w: World,
    root: RootView,
    previous: TreeDescriptor,
    before: TreeView,
    actions: Seq<Option<ActionView>>,
    deltas: Seq<ActionDeltas>,
    touched: TouchedView,
    next: Option<u64>,
    policy: SnapshotPolicy,
    bulk: bool,
    pending: Seq<MutationView>,
    suffix: Seq<MutationView>,
    after: TreeView,
    out: PreparedView,
)
    requires
        commit_laws::current(w, before),
        commit_laws::resolved_from(w, before, touched),
        describes(w, root, previous, before),
        world::agrees(w, after.store),
        after.wf(),
        commit::progressed(actions, touched, before.next_fragment_id) is Ok,
        commit::deltas_of(deltas) == commit::progressed(
            actions,
            touched,
            before.next_fragment_id,
        )->Ok_0.deltas,
        publication::staging(before, actions, deltas, next) is Ok,
        publication::concluded(
            before,
            publication::staging(before, actions, deltas, next)->Ok_0,
            publication::tagged(actions, deltas, before.next_action_sequence),
            previous,
            policy,
            bulk,
            pending,
            suffix,
            after,
            Ok(out),
        ),
        publication::stays(
            before.children,
            pending,
            suffix,
            previous,
            before.config,
            policy,
            bulk,
        ),
    ensures
        describes(w, root, out.snapshot, after),
{
    let first = before.next_action_sequence;
    let fresh = publication::tagged(actions, deltas, first);
    let progress = commit::progressed(actions, touched, before.next_fragment_id)->Ok_0;
    let old_suffix = previous.mutations_since_root;
    let all = old_suffix + fresh;
    let joined = root.buffer + suffix;
    commit::lemma_progressed_targets(actions, touched, before.next_fragment_id);
    assert(deltas.len() == commit::deltas_of(deltas).len());
    commit_laws::law_commit_applies_its_actions(
        w,
        before,
        actions,
        deltas,
        touched,
        next,
        previous,
        policy,
        bulk,
        pending,
        suffix,
        after,
        out,
    );
    assert forall|i: int| 0 <= i < suffix.len() implies root.next_action_sequence <= (
    #[trigger] suffix[i]).action_sequence < after.next_action_sequence by {
        let a = squash_laws::lemma_squashed_origin(all, suffix, i);
        if a < old_suffix.len() {
            assert(all[a] == old_suffix[a]);
        } else {
            assert(all[a] == fresh[a - old_suffix.len()]);
        }
    }
    assert forall|key: u64|
        #![trigger order::of_key(joined, key)]
        world::cell(w, root.children, joined, key) == Ok::<Option<FragmentView>, Error>(
            commit_laws::now(w, before, touched, progress, key),
        ) && order::distinct(order::of_key(joined, key)) by {
        lemma_suffix_cell(
            w,
            root,
            previous,
            before,
            actions,
            deltas,
            touched,
            suffix,
            key,
        );
    }
    assert forall|key: u64| #[trigger]
        world::cell(w, root.children, joined, key) == world::cell(
            w,
            after.children,
            after.buffer,
            key,
        ) by {
        let run = order::of_key(joined, key);
        assert(commit_laws::held(w, after, key) == commit_laws::now(
            w,
            before,
            touched,
            progress,
            key,
        ));
        assert(world::good(world::cell(w, after.children, after.buffer, key), key));
    }
    assert(world::apart(joined));
    assert(world::fresh(w, root.children, joined)) by {
        assert forall|i: int| 0 <= i < joined.len() implies world::newest_at(
            w,
            root.children,
            (#[trigger] joined[i]).key(),
        ) <= joined[i].action_sequence && world::mark_at(w, root.children, joined[i].key())
            < joined[i].action_sequence by {
            let old_level = root.buffer + old_suffix;
            assert(world::fresh(w, root.children, old_level));
            if i < root.buffer.len() {
                assert(joined[i] == old_level[i]);
            } else {
                let at = i - root.buffer.len();
                assert(joined[i] == suffix[at]);
                let a = squash_laws::lemma_squashed_origin(all, suffix, at);
                if a < old_suffix.len() {
                    assert(all[a] == old_level[root.buffer.len() + a]);
                } else {
                    let m = fresh[a - old_suffix.len()];
                    assert(all[a] == m);
                    assert(world::frontier(w, before.children, before.buffer, m.key()) <= first);
                    commit_laws::lemma_marks_capped(
                        w,
                        before.children,
                        (first - 1) as nat,
                        m.key(),
                    );
                }
            }
        }
    }
    assert forall|key: u64| world::good(
        #[trigger] world::cell(w, root.children, joined, key),
        key,
    ) by {
        assert(world::good(world::cell(w, after.children, after.buffer, key), key));
    }
}

/// A session that opens a descriptor holds what the session it describes
/// holds.
pub proof fn law_opened_session_holds_the_same(
    w: World,
    root: RootView,
    snapshot: TreeDescriptor,
    t: TreeView,
    version: u64,
    config: FragmentMetadataTreeConfig,
    next_fragment_id: u64,
    io_parallelism: usize,
    opened: TreeView,
)
    requires
        describes(w, root, snapshot, t),
        publication::opened(
            root,
            snapshot,
            version,
            config,
            next_fragment_id,
            io_parallelism,
            opened,
        ),
    ensures
        world::sound(w, opened.children, opened.buffer),
        forall|key: u64| #[trigger]
            world::cell(w, opened.children, opened.buffer, key) == world::cell(
                w,
                t.children,
                t.buffer,
                key,
            ),
        describes(w, root, snapshot, opened),
{
    let joined = root.buffer + snapshot.mutations_since_root;
    let empty = opened.store;
    steps::step_squash(empty, root.children, joined, opened.buffer);
    assert(world::agrees(w, empty)) by {
        reveal(world::agrees);
    }
    assert(world::all_sound(w, empty)) by {
        reveal(world::all_sound);
    }
    assert(world::refines(w, root.children, joined, opened.children, opened.buffer, -1)) by {
        reveal(world::faithful);
    }
    assert forall|key: u64| #[trigger]
        world::cell(w, opened.children, opened.buffer, key) == world::cell(
            w,
            t.children,
            t.buffer,
            key,
        ) by {
        assert(world::cell(w, root.children, joined, key) == world::cell(
            w,
            opened.children,
            opened.buffer,
            key,
        ));
    }
}

/// A new tree stands for the fragments it was built over, and its first
/// descriptor stands for it.
pub proof fn law_new_tree_holds_its_fragments(
    w: World,
    store: StoreView,
    config: FragmentMetadataTreeConfig,
    fragments: Seq<FragmentView>,
    version: u64,
    policy: SnapshotPolicy,
    t: TreeView,
    snapshot: TreeDescriptor,
    stats: BootstrapStats,
    root: Option<RootView>,
)
    requires
        commit_laws::coherent(w),
        world::agrees(w, t.store),
        world::all_sound(w, store),
        t.wf(),
        publication::bootstrapped(
            store,
            config,
            fragments,
            version,
            policy,
            t,
            snapshot,
            stats,
            root,
        ),
    ensures
        commit_laws::current(w, t),
        forall|key: u64| #[trigger]
            commit_laws::held(w, t, key) == world::found(leaves::by_id(fragments), key),
        describes(w, t.root(), snapshot, t),
{
    let records = leaves::by_id(fragments);
    let none = levels::no_mutations();
    let base = publication::founding(store, config);
    assert(t.buffer =~= none);
    assert(world::all_sound(w, base)) by {
        reveal(world::all_sound);
    }
    assert(publication::stands_for(base, t.store, t.children, records));
    publication::lemma_initial(records);
    assert forall|key: u64| key >= t.next_fragment_id implies #[trigger] world::cell(
        w,
        t.children,
        t.buffer,
        key,
    ) == Ok::<Option<FragmentView>, Error>(None) by {
        assert(world::cell(w, t.children, none, key) == Ok::<Option<FragmentView>, Error>(
            world::found(records, key),
        ));
        if world::found(records, key) is Some {
            let k = leaves::lemma_found_some(records, key);
            assert(records[k].id < t.next_fragment_id);
        }
    }
    assert forall|key: u64| #[trigger]
        commit_laws::held(w, t, key) == world::found(records, key) by {
        assert(world::cell(w, t.children, none, key) == Ok::<Option<FragmentView>, Error>(
            world::found(records, key),
        ));
    }
    assert forall|key: u64| #[trigger]
        world::frontier(w, t.children, t.buffer, key) <= t.next_action_sequence by {
        assert(world::frontier(w, t.children, none, key) == 0);
    }
    let root_bytes = match root {
        Some(root) => crate::wire::capped(root.encoded_len()),
        None => 0,
    };
    law_checkpoint_describes_the_session(w, t, policy, snapshot, root_bytes, root, version);
}

} // verus!
