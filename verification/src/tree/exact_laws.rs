//! The counts a tree carries are those of the records it holds.
//!
//! Reading an object checks it against the counts of the reference to it, and
//! a walk checks every mutation against the counts it claims to change. So
//! where a walk of a tree succeeds, every count in the tree is exact.

use vstd::prelude::*;

use crate::error::Aggregate;
use crate::inherit;
use crate::node;
use crate::node::FragmentMetadataTreeConfig;
use crate::order;
use crate::pb::{ChildView, MutationView, RootView, TreeDescriptor};
use crate::record::FragmentView;
use crate::replay;
use crate::rows;
use crate::split;
use crate::squash;
use crate::squash_laws;
use crate::steps;
use crate::store;
use crate::store::StoreView;
use crate::tree::offset;
use crate::tree::offset_laws;
use crate::tree::publication;
use crate::tree::read_laws;
use crate::tree::total_laws;
use crate::tree::walk;
use crate::tree::walk::RoutedLeaf;
use crate::tree::TreeView;
use crate::validation;
use crate::world;
use crate::world::World;

verus! {

pub open spec fn plus(a: (int, int, int), b: (int, int, int)) -> (int, int, int) {
    (a.0 + b.0, a.1 + b.1, a.2 + b.2)
}

/// The counts a reference states: fragments, rows and visible rows.
pub open spec fn stated(child: ChildView) -> (int, int, int) {
    (child.num_keys as int, child.total_rows as int, child.visible_rows as int)
}

/// The counts some references state together.
pub open spec fn stated_all(children: Seq<ChildView>) -> (int, int, int)
    decreases children.len(),
{
    if children.len() == 0 {
        (0, 0, 0)
    } else {
        plus(stated_all(children.drop_last()), stated(children.last()))
    }
}

/// What the references of a level from one of them on state, with what the
/// mutations for each of them add.
spec fn expected(children: Seq<ChildView>, pending: Seq<MutationView>, from: int) -> (int, int, int)
    decreases children.len() - from,
{
    if from < 0 || from >= children.len() {
        (0, 0, 0)
    } else {
        plus(
            plus(stated(children[from]), squash::total(split::bucket(children, pending, from))),
            expected(children, pending, from + 1),
        )
    }
}

proof fn lemma_amounts_join(a: Seq<FragmentView>, b: Seq<FragmentView>)
    ensures
        total_laws::amounts(a + b) == plus(total_laws::amounts(a), total_laws::amounts(b)),
    decreases b.len(),
{
    if b.len() == 0 {
        assert(a + b =~= a);
    } else {
        assert((a + b).drop_last() =~= a + b.drop_last());
        lemma_amounts_join(a, b.drop_last());
    }
}

/// The visible rows among the counts of records are their visible rows.
proof fn lemma_visible_amount(records: Seq<FragmentView>)
    ensures
        total_laws::amounts(records).2 == rows::total(records),
    decreases records.len(),
{
    if records.len() > 0 {
        lemma_visible_amount(records.drop_last());
    }
}

// Leaves.

/// Reading records through a reference with an owner changes no count.
proof fn lemma_inherited_amounts(records: Seq<FragmentView>, base: Option<u32>)
    ensures
        total_laws::amounts(inherit::inherited_records(records, base)) == total_laws::amounts(
            records,
        ),
    decreases records.len(),
{
    let all = inherit::inherited_records(records, base);
    if records.len() > 0 {
        assert(all.drop_last() =~= inherit::inherited_records(records.drop_last(), base));
        lemma_inherited_amounts(records.drop_last(), base);
        assert(all.last() == records.last().inherited(base));
    }
}

proof fn lemma_summed_records(records: Seq<FragmentView>)
    ensures
        node::summed(node::row_counts(records), Aggregate::TotalRows) matches Ok(sum) ==> sum
            == total_laws::amounts(records).1,
        node::summed(node::visible_counts(records), Aggregate::VisibleRows) matches Ok(sum) ==> sum
            == total_laws::amounts(records).2,
        total_laws::amounts(records).0 == records.len(),
    decreases records.len(),
{
    if records.len() > 0 {
        let rest = records.drop_last();
        lemma_summed_records(rest);
        assert(node::row_counts(records).drop_last() =~= node::row_counts(rest));
        assert(node::visible_counts(records).drop_last() =~= node::visible_counts(rest));
    }
}

/// Ascending ids are at least as large as their places.
proof fn lemma_few(records: Seq<FragmentView>, i: int)
    requires
        store::ascending(records),
        0 <= i < records.len(),
    ensures
        records[i].id >= i,
    decreases i,
{
    if i > 0 {
        lemma_few(records, i - 1);
        assert(records[i - 1].id < records[i].id);
    }
}

/// A leaf that was read holds as much as the reference to it states.
proof fn lemma_leaf_stated(w: World, store: StoreView, child: ChildView)
    requires
        world::agrees(w, store),
        store::leaf_read(store, child) is Ok,
        forall|key: u64| world::proper(#[trigger] w.rec(child, key), key),
    ensures
        total_laws::amounts(store::leaf_read(store, child)->Ok_0) == stated(child),
{
    let records = store::leaf_read(store, child)->Ok_0;
    let at = store::leaf_index(store.leaves, child.loc());
    store::lemma_leaf_index(store.leaves, child.loc());
    let fragments = store.leaves[at].fragments;
    steps::lemma_leaf_shape(store, child);
    steps::lemma_reads_leaf(w, store, child);
    lemma_inherited_amounts(fragments, child.base_id);
    lemma_summed_records(fragments);
    if records.len() > 0 {
        let n = records.len() - 1;
        lemma_few(records, n);
        crate::leaves::lemma_found(records, n);
        assert(w.rec(child, records[n].id) == Some(records[n]));
        assert(world::proper(w.rec(child, records[n].id), records[n].id));
    }
    assert(fragments.len() == records.len());
}

// Replay.

/// The records of a map, by fragment id.
spec fn table_in(state: Map<u64, FragmentView>) -> spec_fn(u64) -> Option<FragmentView> {
    |key: u64| replay::lookup(state, key)
}

/// Mutations that pass a verifying replay change the counts by what they
/// state.
proof fn lemma_folded_counts(state: Map<u64, FragmentView>, s: Seq<MutationView>)
    requires
        replay::folded(state, s, true).1 is None,
    ensures
        total_laws::tally(
            table_in(replay::folded(state, s, true).0),
            (u64::MAX + 1) as nat,
        ) == plus(
            total_laws::tally(table_in(state), (u64::MAX + 1) as nat),
            squash::total(s),
        ),
    decreases s.len(),
{
    if s.len() > 0 {
        let rest = s.drop_last();
        let m = s.last();
        let key = m.key();
        lemma_folded_counts(state, rest);
        let (before, _) = replay::folded(state, rest, true);
        let after = replay::folded(state, s, true).0;
        let a = table_in(before);
        let b = table_in(after);
        let (record, error) = replay::effect(replay::lookup(before, key), m, true);
        assert(error is None);
        assert(b(key) == record);
        assert(a(key) == replay::lookup(before, key));
        assert forall|k: u64| k != key implies #[trigger] a(k) == b(k) by {}
        total_laws::lemma_tally_change(a, b, key, (u64::MAX + 1) as nat);
    }
}

/// A verifying replay that succeeds leaves records that count what the records
/// before it and the mutations state.
proof fn lemma_replayed_counts(records: Seq<FragmentView>, s: Seq<MutationView>)
    requires
        store::ascending(records),
        replay::replayed(steps::indexed(records), s, true).1 is None,
    ensures
        total_laws::amounts(
            walk::listed(replay::replayed(steps::indexed(records), s, true).0),
        ) == plus(total_laws::amounts(records), squash::total(s)),
{
    let bound = (u64::MAX + 1) as nat;
    let state = steps::indexed(records);
    let after = replay::replayed(state, s, true).0;
    let list = walk::listed(after);
    read_laws::lemma_indexed_finite(records);
    read_laws::lemma_replayed_listable(state, s);
    lemma_folded_counts(state, order::sorted(s, true));
    squash_laws::lemma_total_sorted(s, true);
    total_laws::lemma_tally_records(records, bound);
    total_laws::lemma_tally_records(list, bound);
    let a = table_in(state);
    let b = total_laws::table_of(records);
    assert forall|key: u64| key < bound implies #[trigger] a(key) == b(key) by {}
    total_laws::lemma_tally_same(a, b, bound);
    let c = table_in(after);
    let d = total_laws::table_of(list);
    assert forall|key: u64| key < bound implies #[trigger] c(key) == d(key) by {
        assert(world::found(list, key) == replay::lookup(after, key));
    }
    total_laws::lemma_tally_same(c, d, bound);
}

// Nodes.

proof fn lemma_summed_children(children: Seq<ChildView>)
    ensures
        node::summed(node::key_counts(children), Aggregate::NumKeys) matches Ok(sum) ==> sum
            == stated_all(children).0,
        node::summed(node::child_rows(children), Aggregate::TotalRows) matches Ok(sum) ==> sum
            == stated_all(children).1,
        node::summed(node::child_visible(children), Aggregate::VisibleRows) matches Ok(sum) ==> sum
            == stated_all(children).2,
    decreases children.len(),
{
    if children.len() > 0 {
        let rest = children.drop_last();
        lemma_summed_children(rest);
        assert(node::key_counts(children).drop_last() =~= node::key_counts(rest));
        assert(node::child_rows(children).drop_last() =~= node::child_rows(rest));
        assert(node::child_visible(children).drop_last() =~= node::child_visible(rest));
    }
}

proof fn lemma_summed_buffer(s: Seq<MutationView>, a: Aggregate, b: Aggregate, c: Aggregate)
    ensures
        node::summed_deltas(squash::fragment_deltas(s), a) matches Ok(sum) ==> sum == squash::total(
            s,
        ).0,
        node::summed_deltas(squash::row_deltas(s), b) matches Ok(sum) ==> sum == squash::total(s).1,
        node::summed_deltas(squash::visible_deltas(s), c) matches Ok(sum) ==> sum == squash::total(
            s,
        ).2,
    decreases s.len(),
{
    if s.len() > 0 {
        let rest = s.drop_last();
        lemma_summed_buffer(rest, a, b, c);
        assert(squash::fragment_deltas(s).drop_last() =~= squash::fragment_deltas(rest));
        assert(squash::row_deltas(s).drop_last() =~= squash::row_deltas(rest));
        assert(squash::visible_deltas(s).drop_last() =~= squash::visible_deltas(rest));
    }
}

/// What a summary of a node states is what its children and buffer state.
proof fn lemma_summary(path: Seq<char>, children: Seq<ChildView>, buffer: Seq<MutationView>, size: u64)
    requires
        node::internal_summary(path, children, buffer, size) is Ok,
    ensures
        stated(node::internal_summary(path, children, buffer, size)->Ok_0) == plus(
            stated_all(children),
            squash::total(buffer),
        ),
{
    lemma_summed_children(children);
    lemma_summed_buffer(
        buffer,
        Aggregate::FragmentCountDelta,
        Aggregate::TotalRowsDelta,
        Aggregate::VisibleRowsDelta,
    );
}

proof fn lemma_inherited_stated(children: Seq<ChildView>, base: Option<u32>)
    ensures
        stated_all(inherit::inherited_children(children, base)) == stated_all(children),
    decreases children.len(),
{
    if children.len() > 0 {
        assert(inherit::inherited_children(children, base).drop_last()
            =~= inherit::inherited_children(children.drop_last(), base));
        lemma_inherited_stated(children.drop_last(), base);
    }
}

proof fn lemma_inherited_total(s: Seq<MutationView>, base: Option<u32>)
    ensures
        squash::total(inherit::inherited_buffer(s, base)) == squash::total(s),
    decreases s.len(),
{
    let all = inherit::inherited_buffer(s, base);
    if s.len() > 0 {
        assert(all.drop_last() =~= inherit::inherited_buffer(s.drop_last(), base));
        lemma_inherited_total(s.drop_last(), base);
    }
}

/// A node that was read holds as much as the reference to it states.
proof fn lemma_node_stated(store: StoreView, child: ChildView)
    requires
        store::node_read(store, child) is Ok,
    ensures
        stated(child) == plus(
            stated_all(store::node_read(store, child)->Ok_0.0),
            squash::total(store::node_read(store, child)->Ok_0.1),
        ),
{
    let stored = store.nodes[store::node_index(store.nodes, child.loc())];
    lemma_summary(child.path, stored.children, stored.buffer, stored.object_size);
    lemma_inherited_stated(stored.children, child.base_id);
    lemma_inherited_total(stored.buffer, child.base_id);
}

// Levels.

/// One more mutation adds to the child it is for.
proof fn lemma_expected_push(
    children: Seq<ChildView>,
    pending: Seq<MutationView>,
    m: MutationView,
    from: int,
)
    requires
        0 <= from <= children.len(),
    ensures
        expected(children, pending.push(m), from) == if from <= node::route(children, m.key())
            < children.len() {
            plus(expected(children, pending, from), m.deltas())
        } else {
            expected(children, pending, from)
        },
    decreases children.len() - from,
{
    if from < children.len() {
        lemma_expected_push(children, pending, m, from + 1);
        pending.lemma_filter_push(m, |x: MutationView| node::route(children, x.key()) == from);
        let own = split::bucket(children, pending, from);
        squash_laws::lemma_total_push(own, m);
    }
}

proof fn lemma_expected_bare(children: Seq<ChildView>, from: int)
    requires
        0 <= from <= children.len(),
    ensures
        expected(children, Seq::empty(), from) == (
            stated_all(children).0 - stated_all(children.take(from)).0,
            stated_all(children).1 - stated_all(children.take(from)).1,
            stated_all(children).2 - stated_all(children.take(from)).2,
        ),
    decreases children.len() - from,
{
    let none = Seq::<MutationView>::empty();
    if from < children.len() {
        lemma_expected_bare(children, from + 1);
        assert(children.take(from + 1).drop_last() =~= children.take(from));
        assert(split::bucket(children, none, from) =~= none);
    } else {
        assert(children.take(from) =~= children);
    }
}

/// What a level states is what its children state and its mutations add.
proof fn lemma_expected(children: Seq<ChildView>, pending: Seq<MutationView>)
    requires
        children.len() > 0,
    ensures
        expected(children, pending, 0) == plus(stated_all(children), squash::total(pending)),
    decreases pending.len(),
{
    if pending.len() == 0 {
        assert(pending =~= Seq::<MutationView>::empty());
        lemma_expected_bare(children, 0);
        assert(children.take(0) =~= Seq::<ChildView>::empty());
    } else {
        let rest = pending.drop_last();
        let m = pending.last();
        assert(pending =~= rest.push(m));
        lemma_expected(children, rest);
        lemma_expected_push(children, rest, m, 0);
        node::lemma_route(children, m.key());
    }
}

/// Where the records below a child can be walked, they count what the
/// reference to it states and the mutations for it add.
proof fn lemma_child_exact(
    w: World,
    store: StoreView,
    child: ChildView,
    actions: Seq<MutationView>,
    end: u64,
)
    requires
        world::agrees(w, store),
        world::all_sound(w, store),
        forall|key: u64| world::proper(#[trigger] w.rec(child, key), key),
        walk::routed(store, child, actions, end, 0).error is None,
        walk::rows_of(store, walk::routed(store, child, actions, end, 0).items).error is None,
    ensures
        total_laws::amounts(offset_laws::rows_below(store, child, actions, end)) == plus(
            stated(child),
            squash::total(actions),
        ),
    decreases child.height, 1int, 0int,
{
    let found = walk::routed(store, child, actions, end, 0);
    if child.height == 0 {
        let leaf = RoutedLeaf { child, actions };
        assert(found.items == seq![leaf]);
        assert(found.items.skip(1) =~= Seq::<RoutedLeaf>::empty());
        assert(found.items[0] == leaf);
        assert(walk::rows_of(store, found.items.skip(1)).items =~= Seq::<FragmentView>::empty());
        let rows = walk::leaf_rows(store, leaf)->Ok_0;
        assert(rows + Seq::<FragmentView>::empty() =~= rows);
        lemma_leaf_stated(w, store, child);
        steps::lemma_leaf_shape(store, child);
        lemma_replayed_counts(store::leaf_read(store, child)->Ok_0, actions);
    } else {
        let (below, buffer) = store::node_read(store, child)->Ok_0;
        let pending = actions + buffer;
        steps::lemma_node_shape(store, child);
        steps::lemma_reads_node(w, store, child);
        assert forall|i: int, j: int| 0 <= i < j < below.len() implies (
        #[trigger] below[i]).min_key < (#[trigger] below[j]).min_key by {}
        offset_laws::lemma_first_route(below);
        assert forall|i: int| 0 <= i < below.len() implies (#[trigger] below[i]).height
            < child.height as int by {}
        lemma_level_exact(w, store, below, pending, end, child.height as int, 0);
        lemma_expected(below, pending);
        lemma_node_stated(store, child);
        squash_laws::lemma_total_add(actions, buffer);
    }
}

proof fn lemma_level_exact(
    w: World,
    store: StoreView,
    children: Seq<ChildView>,
    pending: Seq<MutationView>,
    end: u64,
    height: int,
    from: int,
)
    requires
        world::agrees(w, store),
        world::all_sound(w, store),
        world::proper_records(w, children),
        0 <= from <= children.len(),
        forall|i: int| 0 <= i < children.len() ==> (#[trigger] children[i]).height < height,
        walk::routed_from(store, children, pending, end, 0, height, from).error is None,
        walk::rows_of(
            store,
            walk::routed_from(store, children, pending, end, 0, height, from).items,
        ).error is None,
    ensures
        total_laws::amounts(
            walk::rows_of(
                store,
                walk::routed_from(store, children, pending, end, 0, height, from).items,
            ).items,
        ) == expected(children, pending, from),
    decreases height, 0int, children.len() - from,
{
    if from < children.len() {
        assert(children[from].height < height);
        let own = split::bucket(children, pending, from);
        let stop = node::end_of(children, from, end);
        let first = walk::routed(store, children[from], own, stop, 0);
        let later = walk::routed_from(store, children, pending, end, 0, height, from + 1);
        read_laws::lemma_rows_join(store, first.items, later.items);
        assert forall|key: u64| world::proper(#[trigger] w.rec(children[from], key), key) by {}
        lemma_child_exact(w, store, children[from], own, stop);
        lemma_level_exact(w, store, children, pending, end, height, from + 1);
        let a = walk::rows_of(store, first.items).items;
        let b = walk::rows_of(store, later.items).items;
        lemma_amounts_join(a, b);
    }
}

/// Where a walk of a tree succeeds, the records it gives count what the root's
/// children state and the root's buffer adds.
pub proof fn law_walk_shows_exact_counts(w: World, t: TreeView)
    requires
        t.wf(),
        world::agrees(w, t.store),
        world::all_sound(w, t.store),
        world::sound(w, t.children, t.buffer),
        walk::start_rows(t, 0).error is None,
    ensures
        total_laws::amounts(walk::start_rows(t, 0).items) == plus(
            stated_all(t.children),
            squash::total(t.buffer),
        ),
{
    let kids = t.children;
    if kids.len() == 0 {
        let none = Seq::<FragmentView>::empty();
        assert(steps::indexed(none) =~= Map::<u64, FragmentView>::empty());
        lemma_replayed_counts(none, t.buffer);
        offset_laws::lemma_all_from_zero(
            walk::listed(replay::replayed(Map::empty(), t.buffer, true).0),
        );
    } else {
        let height = node::max_height(kids) + 1;
        steps::lemma_max_height(kids, kids[0].height as int);
        assert forall|i: int, j: int| 0 <= i < j < kids.len() implies (#[trigger] kids[i]).min_key
            < (#[trigger] kids[j]).min_key by {}
        offset_laws::lemma_first_route(kids);
        let found = walk::start_leaves(t, 0);
        offset_laws::lemma_all_from_zero(walk::rows_of(t.store, found.items).items);
        assert forall|i: int| 0 <= i < kids.len() implies (#[trigger] kids[i]).height < height by {}
        lemma_level_exact(w, t.store, kids, t.buffer, node::ROOT_EXCLUSIVE_END, height, 0);
        lemma_expected(kids, t.buffer);
    }
}

// Opening a tree.

proof fn lemma_carried(base: u64, deltas: Seq<i64>, name: Aggregate, sum: int)
    requires
        publication::carried(base, deltas, name) is Ok,
        sum == summed_up(deltas),
    ensures
        publication::carried(base, deltas, name)->Ok_0 == base + sum,
    decreases deltas.len(),
{
    if deltas.len() > 0 {
        lemma_carried(base, deltas.drop_last(), name, summed_up(deltas.drop_last()));
    }
}

spec fn summed_up(deltas: Seq<i64>) -> int
    decreases deltas.len(),
{
    if deltas.len() == 0 {
        0
    } else {
        summed_up(deltas.drop_last()) + deltas.last()
    }
}

proof fn lemma_summed_up(s: Seq<MutationView>)
    ensures
        summed_up(squash::fragment_deltas(s)) == squash::total(s).0,
        summed_up(squash::row_deltas(s)) == squash::total(s).1,
        summed_up(squash::visible_deltas(s)) == squash::total(s).2,
    decreases s.len(),
{
    if s.len() > 0 {
        let rest = s.drop_last();
        lemma_summed_up(rest);
        assert(squash::fragment_deltas(s).drop_last() =~= squash::fragment_deltas(rest));
        assert(squash::row_deltas(s).drop_last() =~= squash::row_deltas(rest));
        assert(squash::visible_deltas(s).drop_last() =~= squash::visible_deltas(rest));
    }
}

/// An opened session counts what its root's children state and its buffer
/// adds.
proof fn lemma_opened_stated(
    root: RootView,
    snapshot: TreeDescriptor,
    version: u64,
    config: FragmentMetadataTreeConfig,
    next_fragment_id: u64,
    io_parallelism: usize,
    t: TreeView,
)
    requires
        publication::opened(root, snapshot, version, config, next_fragment_id, io_parallelism, t),
    ensures
        (t.total_fragments as int, t.total_rows as int, t.visible_rows as int) == plus(
            stated_all(t.children),
            squash::total(t.buffer),
        ),
{
    let suffix = snapshot.mutations_since_root;
    let base = validation::root_totals(
        root.children,
        root.buffer,
        root.next_action_sequence,
        next_fragment_id,
    )->Ok_0;
    lemma_summary(Seq::empty(), root.children, root.buffer, 0);
    lemma_summed_up(suffix);
    lemma_carried(
        base.0,
        squash::fragment_deltas(suffix),
        Aggregate::Fragments,
        squash::total(suffix).0,
    );
    lemma_carried(
        base.1,
        squash::row_deltas(suffix),
        Aggregate::PhysicalRows,
        squash::total(suffix).1,
    );
    lemma_carried(
        base.2,
        squash::visible_deltas(suffix),
        Aggregate::DerivedVisibleRows,
        squash::total(suffix).2,
    );
    squash_laws::lemma_total_add(root.buffer, suffix);
}

/// A session that was opened counts its table: where a walk of it succeeds,
/// its totals are those of the records the walk gives. `seen` is the session
/// as it was opened, with objects handed over since.
pub proof fn law_opened_session_counts_its_table(
    w: World,
    root: RootView,
    snapshot: TreeDescriptor,
    version: u64,
    config: FragmentMetadataTreeConfig,
    next_fragment_id: u64,
    io_parallelism: usize,
    opened: TreeView,
    seen: TreeView,
)
    requires
        publication::opened(
            root,
            snapshot,
            version,
            config,
            next_fragment_id,
            io_parallelism,
            opened,
        ),
        seen == (TreeView { store: seen.store, ..opened }),
        seen.wf(),
        world::agrees(w, seen.store),
        world::all_sound(w, seen.store),
        world::sound(w, seen.children, seen.buffer),
        walk::start_rows(seen, 0).error is None,
    ensures
        total_laws::amounts(walk::start_rows(seen, 0).items) == (
            seen.total_fragments as int,
            seen.total_rows as int,
            seen.visible_rows as int,
        ),
{
    lemma_opened_stated(
        root,
        snapshot,
        version,
        config,
        next_fragment_id,
        io_parallelism,
        opened,
    );
    law_walk_shows_exact_counts(w, seen);
}

// Finding a row.

/// A count changed by mutations that can be summed is the sum.
proof fn lemma_adjusted(child: ChildView, own: Seq<MutationView>)
    requires
        offset::adjusted(child, own) is Ok,
    ensures
        offset::adjusted(child, own)->Ok_0 == plus(stated(child), squash::total(own)).2,
{
    lemma_summed_buffer(
        own,
        Aggregate::FragmentCountDelta,
        Aggregate::TotalRowsDelta,
        Aggregate::VisibleRowsDelta,
    );
}

/// The records of a level from one of its children on.
spec fn rows_from(
    store: StoreView,
    children: Seq<ChildView>,
    pending: Seq<MutationView>,
    end: u64,
    height: int,
    from: int,
) -> Seq<FragmentView> {
    walk::rows_of(
        store,
        walk::routed_from(store, children, pending, end, 0, height, from).items,
    ).items
}

/// Whether a child of a level can be walked and holds a row of some records at
/// a place below it.
spec fn holds_row(
    store: StoreView,
    children: Seq<ChildView>,
    pending: Seq<MutationView>,
    end: u64,
    rows: Seq<FragmentView>,
    place: u64,
    index: int,
    left: u64,
) -> bool {
    let child = children[index];
    let own = split::bucket(children, pending, index);
    let stop = node::end_of(children, index, end);
    &&& 0 <= index < children.len()
    &&& walk::routed(store, child, own, stop, 0).error is None
    &&& walk::rows_of(store, walk::routed(store, child, own, stop, 0).items).error is None
    &&& rows::at_offset(rows, place) == rows::at_offset(
        offset_laws::rows_below(store, child, own, stop),
        left,
    )
}

proof fn lemma_entered_exact(
    w: World,
    store: StoreView,
    children: Seq<ChildView>,
    pending: Seq<MutationView>,
    end: u64,
    place: u64,
    height: int,
    from: int,
)
    requires
        world::agrees(w, store),
        world::all_sound(w, store),
        world::proper_records(w, children),
        0 <= from <= children.len(),
        forall|i: int| 0 <= i < children.len() ==> (#[trigger] children[i]).height < height,
        walk::routed_from(store, children, pending, end, 0, height, from).error is None,
        walk::rows_of(
            store,
            walk::routed_from(store, children, pending, end, 0, height, from).items,
        ).error is None,
        offset::entered(children, pending, place, from) is Ok,
    ensures
        ({
            let (index, left) = offset::entered(children, pending, place, from)->Ok_0;
            holds_row(
                store,
                children,
                pending,
                end,
                rows_from(store, children, pending, end, height, from),
                place,
                index,
                left,
            )
        }),
    decreases children.len() - from,
{
    if from < children.len() {
        assert(children[from].height < height);
        let own = split::bucket(children, pending, from);
        let stop = node::end_of(children, from, end);
        let first = walk::routed(store, children[from], own, stop, 0);
        let later = walk::routed_from(store, children, pending, end, 0, height, from + 1);
        read_laws::lemma_rows_join(store, first.items, later.items);
        let a = offset_laws::rows_below(store, children[from], own, stop);
        let b = rows_from(store, children, pending, end, height, from + 1);
        assert(rows_from(store, children, pending, end, height, from) == a + b);
        rows::lemma_offset_join(a, b, place);
        assert forall|key: u64| world::proper(#[trigger] w.rec(children[from], key), key) by {}
        lemma_child_exact(w, store, children[from], own, stop);
        lemma_visible_amount(a);
        lemma_adjusted(children[from], own);
        let count = offset::adjusted(children[from], own)->Ok_0;
        assert(count == rows::total(a));
        if place >= count {
            lemma_entered_exact(
                w,
                store,
                children,
                pending,
                end,
                (place - count) as u64,
                height,
                from + 1,
            );
        }
    }
}

proof fn lemma_located_exact(
    w: World,
    store: StoreView,
    children: Seq<ChildView>,
    pending: Seq<MutationView>,
    end: u64,
    place: u64,
    height: int,
)
    requires
        world::agrees(w, store),
        world::all_sound(w, store),
        world::proper_records(w, children),
        children.len() > 0,
        forall|i: int| 0 <= i < children.len() ==> (#[trigger] children[i]).height < height,
        walk::routed_from(store, children, pending, end, 0, height, 0).error is None,
        walk::rows_of(
            store,
            walk::routed_from(store, children, pending, end, 0, height, 0).items,
        ).error is None,
        offset::located(store, children, pending, end, place, height) is Ok,
    ensures
        offset::located(store, children, pending, end, place, height)->Ok_0 == rows::at_offset(
            rows_from(store, children, pending, end, height, 0),
            place,
        ),
    decreases height,
{
    lemma_entered_exact(w, store, children, pending, end, place, height, 0);
    let (index, left) = offset::entered(children, pending, place, 0)->Ok_0;
    let child = children[index];
    let own = split::bucket(children, pending, index);
    let stop = node::end_of(children, index, end);
    assert(child.height < height);
    let found = walk::routed(store, child, own, stop, 0);
    if child.height == 0 {
        let leaf = RoutedLeaf { child, actions: own };
        assert(found.items == seq![leaf]);
        assert(found.items.skip(1) =~= Seq::<RoutedLeaf>::empty());
        assert(found.items[0] == leaf);
        assert(walk::rows_of(store, found.items.skip(1)).items =~= Seq::<FragmentView>::empty());
        let rows = walk::leaf_rows(store, leaf)->Ok_0;
        assert(rows + Seq::<FragmentView>::empty() =~= rows);
    } else {
        let (below, buffer) = store::node_read(store, child)->Ok_0;
        steps::lemma_node_shape(store, child);
        steps::lemma_reads_node(w, store, child);
        assert forall|i: int, j: int| 0 <= i < j < below.len() implies (
        #[trigger] below[i]).min_key < (#[trigger] below[j]).min_key by {}
        offset_laws::lemma_first_route(below);
        assert forall|i: int| 0 <= i < below.len() implies (#[trigger] below[i]).height
            < child.height as int by {}
        lemma_located_exact(w, store, below, own + buffer, stop, left, child.height as int);
    }
}

/// A row that is found by its place is the one a walk of the whole table
/// reaches there, where the walk succeeds and the session's total is what the
/// root's children state and its buffer adds.
pub proof fn law_found_row_is_the_walks_row(w: World, t: TreeView, place: u64)
    requires
        t.wf(),
        world::agrees(w, t.store),
        world::all_sound(w, t.store),
        world::sound(w, t.children, t.buffer),
        walk::start_rows(t, 0).error is None,
        t.visible_rows == plus(stated_all(t.children), squash::total(t.buffer)).2,
        offset::row_at(t, place) is Ok,
    ensures
        offset::row_at(t, place)->Ok_0 == rows::at_offset(walk::start_rows(t, 0).items, place),
{
    let rows = walk::start_rows(t, 0).items;
    law_walk_shows_exact_counts(w, t);
    lemma_visible_amount(rows);
    rows::law_offset_counts_visible_rows(rows, place);
    if place < t.visible_rows {
        let kids = t.children;
        if kids.len() == 0 {
            offset_laws::lemma_all_from_zero(
                walk::listed(replay::replayed(Map::empty(), t.buffer, true).0),
            );
        } else {
            let height = node::max_height(kids) + 1;
            steps::lemma_max_height(kids, kids[0].height as int);
            assert forall|i: int, j: int| 0 <= i < j < kids.len() implies (
            #[trigger] kids[i]).min_key < (#[trigger] kids[j]).min_key by {}
            offset_laws::lemma_first_route(kids);
            let found = walk::start_leaves(t, 0);
            offset_laws::lemma_all_from_zero(walk::rows_of(t.store, found.items).items);
            assert forall|i: int| 0 <= i < kids.len() implies (#[trigger] kids[i]).height
                < height by {}
            lemma_located_exact(
                w,
                t.store,
                kids,
                t.buffer,
                node::ROOT_EXCLUSIVE_END,
                place,
                height,
            );
        }
    }
}

} // verus!
