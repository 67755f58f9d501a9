//! What resolving a set of fragments gives: the records the tree holds for
//! them, and nothing else.

use vstd::prelude::*;

use crate::bitmap;
use crate::commit::TouchedView;
use crate::error::Error;
use crate::leaves;
use crate::lifting;
use crate::node;
use crate::order;
use crate::pb::{ChildView, MutationView};
use crate::record::FragmentView;
use crate::replay;
use crate::replay_laws;
use crate::split;
use crate::steps;
use crate::store;
use crate::store::StoreView;
use crate::tree::commit_laws;
use crate::tree::lookup;
use crate::tree::reads;
use crate::tree::walk::RoutedLeaf;
use crate::tree::TreeView;
use crate::world;
use crate::world::World;

verus! {

proof fn lemma_chosen(buffer: Seq<MutationView>, ids: Set<u32>, key: u64)
    ensures
        order::of_key(lookup::chosen(buffer, ids), key) == if bitmap::holds(ids, key) {
            order::of_key(buffer, key)
        } else {
            Seq::<MutationView>::empty()
        },
    decreases buffer.len(),
{
    let pred = |m: MutationView| bitmap::holds(ids, m.key());
    let own = |m: MutationView| m.key() == key;
    if buffer.len() == 0 {
        assert(buffer.filter(pred) =~= buffer);
        assert(buffer.filter(own) =~= buffer);
    } else {
        let rest = buffer.drop_last();
        let last = buffer.last();
        lemma_chosen(rest, ids, key);
        assert(buffer =~= rest.push(last));
        rest.lemma_filter_push(last, pred);
        rest.lemma_filter_push(last, own);
        lookup::chosen(rest, ids).lemma_filter_push(last, own);
    }
}

/// What is kept of a sequence comes from it.
proof fn lemma_kept(s: Seq<MutationView>, pred: spec_fn(MutationView) -> bool, i: int)
    requires
        0 <= i < s.filter(pred).len(),
    ensures
        s.contains(s.filter(pred)[i]),
    decreases s.len(),
{
    if s.len() == 0 {
        assert(s.filter(pred) =~= s);
    } else {
        let rest = s.drop_last();
        assert(s =~= rest.push(s.last()));
        rest.lemma_filter_push(s.last(), pred);
        if i < rest.filter(pred).len() {
            lemma_kept(rest, pred, i);
            let a = choose|a: int| 0 <= a < rest.len() && rest[a] == rest.filter(pred)[i];
            assert(s[a] == s.filter(pred)[i]);
        } else {
            assert(s[s.len() - 1] == s.filter(pred)[i]);
        }
    }
}

proof fn lemma_parts_join(
    store: StoreView,
    a: Seq<RoutedLeaf>,
    b: Seq<RoutedLeaf>,
    ids: Set<u32>,
)
    requires
        lookup::parts(store, a + b, ids) is Ok,
    ensures
        lookup::parts(store, a, ids) is Ok,
        lookup::parts(store, b, ids) is Ok,
        lookup::parts(store, a + b, ids)->Ok_0 == lookup::parts(
            store,
            a,
            ids,
        )->Ok_0.union_prefer_right(lookup::parts(store, b, ids)->Ok_0),
    decreases b.len(),
{
    if b.len() == 0 {
        assert(a + b =~= a);
        let x = lookup::parts(store, a, ids)->Ok_0;
        assert(x.union_prefer_right(Map::empty()) =~= x);
    } else {
        let rest = b.drop_last();
        assert((a + b).drop_last() =~= a + rest);
        assert((a + b).last() == b.last());
        lemma_parts_join(store, a, rest, ids);
        let x = lookup::parts(store, a, ids)->Ok_0;
        let y = lookup::parts(store, rest, ids)->Ok_0;
        let z = lookup::leaf_part(store, b.last(), ids)->Ok_0;
        assert(x.union_prefer_right(y).union_prefer_right(z) =~= x.union_prefer_right(
            y.union_prefer_right(z),
        ));
    }
}

/// Whether a subtree has nothing of a fragment to show.
spec fn silent(w: World, child: ChildView, ids: Set<u32>, key: u64) -> bool {
    !bitmap::holds(ids, key) || (w.newest_of(child, key) == 0 && w.rec(child, key) is None)
}

/// What one covering leaf comes to for a fragment.
proof fn lemma_leaf_part(
    w: World,
    store: StoreView,
    child: ChildView,
    actions: Seq<MutationView>,
    ids: Set<u32>,
    key: u64,
)
    requires
        world::agrees(w, store),
        lookup::leaf_part(store, RoutedLeaf { child, actions }, ids) is Ok,
    ensures
        ({
            let state = lookup::leaf_part(store, RoutedLeaf { child, actions }, ids)->Ok_0;
            let base = if bitmap::holds(ids, key) {
                w.rec(child, key)
            } else {
                None
            };
            replay::outcome(base, order::run(actions, key), false) == Ok::<
                Option<FragmentView>,
                Error,
            >(replay::lookup(state, key))
        }),
{
    let records = store::leaf_read(store, child)->Ok_0;
    let base = lookup::picked(steps::indexed(records), ids);
    steps::lemma_reads_leaf(w, store, child);
    steps::lemma_replayed_cell(base, actions, key);
    assert((w.record)(child.loc(), key) == world::found(records, key));
}

proof fn lemma_silent_child(
    w: World,
    store: StoreView,
    child: ChildView,
    actions: Seq<MutationView>,
    start: u64,
    end: u64,
    ids: Set<u32>,
    key: u64,
)
    requires
        world::agrees(w, store),
        world::all_sound(w, store),
        lookup::covered(store, child, actions, start, end, ids).error is None,
        lookup::parts(
            store,
            lookup::covered(store, child, actions, start, end, ids).items,
            ids,
        ) is Ok,
        silent(w, child, ids, key),
        order::of_key(actions, key) == Seq::<MutationView>::empty(),
    ensures
        !lookup::parts(
            store,
            lookup::covered(store, child, actions, start, end, ids).items,
            ids,
        )->Ok_0.contains_key(key),
    decreases child.height, 1int, 0int,
{
    let leaves = lookup::covered(store, child, actions, start, end, ids).items;
    if child.height == 0 {
        let none = Seq::<RoutedLeaf>::empty();
        assert(leaves.drop_last() =~= none);
        assert(leaves.last() == RoutedLeaf { child, actions });
        assert(lookup::parts(store, none, ids) == Ok::<Map<u64, FragmentView>, Option<Error>>(
            Map::empty(),
        ));
        lemma_leaf_part(w, store, child, actions, ids, key);
        crate::levels::lemma_no_run(key);
        assert(order::run(actions, key) == Seq::<MutationView>::empty());
        let state = lookup::leaf_part(store, leaves.last(), ids)->Ok_0;
        assert(replay::lookup(state, key) is None);
    } else {
        let (kids, buffer) = store::node_read(store, child)->Ok_0;
        let pending = actions + lookup::chosen(buffer, ids);
        steps::lemma_reads_node(w, store, child);
        steps::lemma_node_shape(store, child);
        lemma_chosen(buffer, ids, key);
        lifting::lemma_of_key_add(actions, lookup::chosen(buffer, ids), key);
        if bitmap::holds(ids, key) {
            assert((w.newest)(child.loc(), key) == world::frontier(w, kids, buffer, key));
            world::lemma_latest_zero(buffer, key);
            assert(world::good(world::cell(w, kids, buffer, key), key));
            assert((w.record)(child.loc(), key) == world::cell(w, kids, buffer, key)->Ok_0);
            assert(world::base_at(w, kids, key) is None);
        }
        assert(order::of_key(pending, key) =~= Seq::<MutationView>::empty());
        assert forall|i: int| 0 <= i < kids.len() implies silent(
            w,
            #[trigger] kids[i],
            ids,
            key,
        ) && kids[i].height < child.height as int by {
            if node::route(kids, key) != i {
                assert(w.rec(kids[i], key) is None);
            }
        }
        lemma_silent_list(
            w,
            store,
            kids,
            pending,
            start,
            end,
            ids,
            child.height as int,
            0,
            key,
        );
    }
}

proof fn lemma_silent_list(
    w: World,
    store: StoreView,
    children: Seq<ChildView>,
    pending: Seq<MutationView>,
    start: u64,
    end: u64,
    ids: Set<u32>,
    height: int,
    from: int,
    key: u64,
)
    requires
        world::agrees(w, store),
        world::all_sound(w, store),
        0 <= from <= children.len(),
        lookup::covered_from(
            store,
            children,
            pending,
            start,
            end,
            ids,
            height,
            from,
        ).error is None,
        lookup::parts(
            store,
            lookup::covered_from(store, children, pending, start, end, ids, height, from).items,
            ids,
        ) is Ok,
        forall|i: int|
            0 <= i < children.len() ==> silent(w, #[trigger] children[i], ids, key)
                && children[i].height < height,
        order::of_key(pending, key) == Seq::<MutationView>::empty(),
    ensures
        !lookup::parts(
            store,
            lookup::covered_from(store, children, pending, start, end, ids, height, from).items,
            ids,
        )->Ok_0.contains_key(key),
    decreases height, 0int, children.len() - from,
{
    let found = lookup::covered_from(store, children, pending, start, end, ids, height, from);
    if from == children.len() {
        assert(found.items =~= Seq::<RoutedLeaf>::empty());
    } else {
        let low = lookup::start_of(children, from, start);
        let high = node::end_of(children, from, end);
        let own = split::bucket(children, pending, from);
        let later = lookup::covered_from(
            store,
            children,
            pending,
            start,
            end,
            ids,
            height,
            from + 1,
        );
        assert(silent(w, children[from], ids, key));
        steps::lemma_bucket(children, pending, from, key);
        if bitmap::meets(ids, low, high) {
            let first = lookup::covered(store, children[from], own, low, high, ids);
            assert(found.items == first.items + later.items);
            lemma_parts_join(store, first.items, later.items, ids);
            lemma_silent_child(w, store, children[from], own, low, high, ids, key);
        }
        lemma_silent_list(
            w,
            store,
            children,
            pending,
            start,
            end,
            ids,
            height,
            from + 1,
            key,
        );
    }
}

/// Whether the mutations of a fragment from above are newer than a place.
spec fn newer_than(actions: Seq<MutationView>, key: u64, place: nat) -> bool {
    &&& order::distinct(order::of_key(actions, key))
    &&& forall|i: int|
        0 <= i < actions.len() && (#[trigger] actions[i]).key() == key ==> place
            <= actions[i].action_sequence
}

proof fn lemma_covered_child(
    w: World,
    store: StoreView,
    child: ChildView,
    actions: Seq<MutationView>,
    start: u64,
    end: u64,
    ids: Set<u32>,
    key: u64,
)
    requires
        world::agrees(w, store),
        world::all_sound(w, store),
        lookup::covered(store, child, actions, start, end, ids).error is None,
        lookup::parts(
            store,
            lookup::covered(store, child, actions, start, end, ids).items,
            ids,
        ) is Ok,
        bitmap::holds(ids, key),
        start <= key < end,
        newer_than(actions, key, w.newest_of(child, key)),
    ensures
        replay::outcome(w.rec(child, key), order::run(actions, key), false) == Ok::<
            Option<FragmentView>,
            Error,
        >(
            replay::lookup(
                lookup::parts(
                    store,
                    lookup::covered(store, child, actions, start, end, ids).items,
                    ids,
                )->Ok_0,
                key,
            ),
        ),
    decreases child.height, 1int, 0int,
{
    let leaves = lookup::covered(store, child, actions, start, end, ids).items;
    if child.height == 0 {
        let none = Seq::<RoutedLeaf>::empty();
        assert(leaves.drop_last() =~= none);
        assert(leaves.last() == RoutedLeaf { child, actions });
        assert(lookup::parts(store, none, ids) == Ok::<Map<u64, FragmentView>, Option<Error>>(
            Map::empty(),
        ));
        lemma_leaf_part(w, store, child, actions, ids, key);
        let state = lookup::leaf_part(store, leaves.last(), ids)->Ok_0;
        assert(Map::<u64, FragmentView>::empty().union_prefer_right(state) =~= state);
    } else {
        let (kids, buffer) = store::node_read(store, child)->Ok_0;
        let own = lookup::chosen(buffer, ids);
        let pending = actions + own;
        steps::lemma_reads_node(w, store, child);
        steps::lemma_node_shape(store, child);
        lemma_chosen(buffer, ids, key);
        assert(world::same_run(own, buffer, key));
        world::lemma_same_run_latest(own, buffer, key);
        assert((w.newest)(child.loc(), key) == world::frontier(w, kids, buffer, key));
        assert(world::good(world::cell(w, kids, buffer, key), key));
        assert((w.record)(child.loc(), key) == world::cell(w, kids, buffer, key)->Ok_0);
        assert(world::apart(buffer));
        assert(order::distinct(order::of_key(buffer, key)));
        assert forall|i: int| 0 <= i < actions.len() && (#[trigger] actions[i]).key()
            == key implies world::latest(own, key) <= actions[i].action_sequence by {}
        world::lemma_run_join(own, actions, pending, key);
        replay_laws::law_replay_joins(
            world::base_at(w, kids, key),
            order::run(own, key),
            order::run(actions, key),
            false,
        );
        assert(newer_than(pending, key, world::newest_at(w, kids, key))) by {
            assert forall|i: int| 0 <= i < pending.len() && (#[trigger] pending[i]).key()
                == key implies world::newest_at(w, kids, key) <= pending[i].action_sequence by {
                if i < actions.len() {
                    assert(pending[i] == actions[i]);
                } else {
                    let m = own[i - actions.len()];
                    assert(pending[i] == m);
                    let pred = |m: MutationView| bitmap::holds(ids, m.key());
                    lemma_kept(buffer, pred, i - actions.len());
                    let a = choose|a: int| 0 <= a < buffer.len() && buffer[a] == m;
                    assert(world::fresh(w, kids, buffer));
                    assert(buffer[a].key() == key);
                }
            }
        }
        assert forall|i: int| 0 <= i < kids.len() implies (#[trigger] kids[i]).height
            < child.height as int by {}
        node::lemma_route(kids, key);
        lemma_covered_list(
            w,
            store,
            kids,
            pending,
            start,
            end,
            ids,
            child.height as int,
            0,
            key,
        );
    }
}

proof fn lemma_covered_list(
    w: World,
    store: StoreView,
    children: Seq<ChildView>,
    pending: Seq<MutationView>,
    start: u64,
    end: u64,
    ids: Set<u32>,
    height: int,
    from: int,
    key: u64,
)
    requires
        world::agrees(w, store),
        world::all_sound(w, store),
        world::sane(w, children),
        children.len() > 0,
        0 <= from <= node::route(children, key),
        lookup::covered_from(
            store,
            children,
            pending,
            start,
            end,
            ids,
            height,
            from,
        ).error is None,
        lookup::parts(
            store,
            lookup::covered_from(store, children, pending, start, end, ids, height, from).items,
            ids,
        ) is Ok,
        forall|i: int| 0 <= i < children.len() ==> (#[trigger] children[i]).height < height,
        bitmap::holds(ids, key),
        start <= key < end,
        newer_than(pending, key, world::newest_at(w, children, key)),
    ensures
        replay::outcome(world::base_at(w, children, key), order::run(pending, key), false) == Ok::<
            Option<FragmentView>,
            Error,
        >(
            replay::lookup(
                lookup::parts(
                    store,
                    lookup::covered_from(
                        store,
                        children,
                        pending,
                        start,
                        end,
                        ids,
                        height,
                        from,
                    ).items,
                    ids,
                )->Ok_0,
                key,
            ),
        ),
    decreases height, 0int, children.len() - from,
{
    node::lemma_route(children, key);
    let r = node::route(children, key);
    let found = lookup::covered_from(store, children, pending, start, end, ids, height, from);
    let low = lookup::start_of(children, from, start);
    let high = node::end_of(children, from, end);
    let own = split::bucket(children, pending, from);
    let first = lookup::covered(store, children[from], own, low, high, ids);
    let later = lookup::covered_from(
        store,
        children,
        pending,
        start,
        end,
        ids,
        height,
        from + 1,
    );
    assert(children[from].height < height);
    steps::lemma_bucket(children, pending, from, key);
    if from == r {
        assert(low <= key);
        if from + 1 < children.len() {
            assert(key < children[from + 1].min_key);
        }
        assert(ids.contains(key as u32));
        assert(bitmap::meets(ids, low, high));
        assert(found.items == first.items + later.items);
        lemma_parts_join(store, first.items, later.items, ids);
        assert(world::same_run(own, pending, key));
        world::lemma_same_run_latest(own, pending, key);
        assert(newer_than(own, key, w.newest_of(children[from], key))) by {
            assert forall|i: int| 0 <= i < own.len() && (#[trigger] own[i]).key() == key implies
                w.newest_of(children[from], key) <= own[i].action_sequence by {
                let pred = |m: MutationView| node::route(children, m.key()) == from;
                lemma_kept(pending, pred, i);
                let a = choose|a: int| 0 <= a < pending.len() && pending[a] == own[i];
                assert(pending[a].key() == key);
            }
        }
        lemma_covered_child(w, store, children[from], own, low, high, ids, key);
        lemma_rest_silent(
            w,
            store,
            children,
            pending,
            start,
            end,
            ids,
            height,
            from + 1,
            key,
        );
    } else {
        if bitmap::meets(ids, low, high) {
            assert(found.items == first.items + later.items);
            lemma_parts_join(store, first.items, later.items, ids);
            assert(w.rec(children[from], key) is None && w.newest_of(children[from], key) == 0);
            lemma_silent_child(w, store, children[from], own, low, high, ids, key);
        }
        lemma_covered_list(
            w,
            store,
            children,
            pending,
            start,
            end,
            ids,
            height,
            from + 1,
            key,
        );
    }
}

/// Children behind the owner of a fragment have nothing of it to show.
proof fn lemma_rest_silent(
    w: World,
    store: StoreView,
    children: Seq<ChildView>,
    pending: Seq<MutationView>,
    start: u64,
    end: u64,
    ids: Set<u32>,
    height: int,
    from: int,
    key: u64,
)
    requires
        world::agrees(w, store),
        world::all_sound(w, store),
        world::sane(w, children),
        children.len() > 0,
        node::route(children, key) < from <= children.len(),
        lookup::covered_from(
            store,
            children,
            pending,
            start,
            end,
            ids,
            height,
            from,
        ).error is None,
        lookup::parts(
            store,
            lookup::covered_from(store, children, pending, start, end, ids, height, from).items,
            ids,
        ) is Ok,
        forall|i: int| 0 <= i < children.len() ==> (#[trigger] children[i]).height < height,
    ensures
        !lookup::parts(
            store,
            lookup::covered_from(store, children, pending, start, end, ids, height, from).items,
            ids,
        )->Ok_0.contains_key(key),
    decreases height, 0int, children.len() - from,
{
    node::lemma_route(children, key);
    let found = lookup::covered_from(store, children, pending, start, end, ids, height, from);
    if from == children.len() {
        assert(found.items =~= Seq::<RoutedLeaf>::empty());
    } else {
        let low = lookup::start_of(children, from, start);
        let high = node::end_of(children, from, end);
        let own = split::bucket(children, pending, from);
        let later = lookup::covered_from(
            store,
            children,
            pending,
            start,
            end,
            ids,
            height,
            from + 1,
        );
        assert(children[from].height < height);
        steps::lemma_bucket(children, pending, from, key);
        if bitmap::meets(ids, low, high) {
            let first = lookup::covered(store, children[from], own, low, high, ids);
            assert(found.items == first.items + later.items);
            lemma_parts_join(store, first.items, later.items, ids);
            assert(w.rec(children[from], key) is None && w.newest_of(children[from], key) == 0);
            lemma_silent_child(w, store, children[from], own, low, high, ids, key);
        }
        lemma_rest_silent(
            w,
            store,
            children,
            pending,
            start,
            end,
            ids,
            height,
            from + 1,
            key,
        );
    }
}

/// Resolving a set of fragments gives the record the tree holds for each of
/// them and no record of any other fragment.
pub proof fn law_selection_gives_the_records(w: World, t: TreeView, ids: Set<u32>)
    requires
        t.wf(),
        world::agrees(w, t.store),
        world::all_sound(w, t.store),
        world::sound(w, t.children, t.buffer),
        lookup::selection(t, ids) is Ok,
    ensures
        forall|key: u64| #[trigger]
            replay::lookup(lookup::selection(t, ids)->Ok_0, key) == if bitmap::holds(ids, key) {
                world::cell(w, t.children, t.buffer, key)->Ok_0
            } else {
                None
            },
{
    let state = lookup::selection(t, ids)->Ok_0;
    let pending = lookup::chosen(t.buffer, ids);
    assert forall|key: u64| #[trigger] replay::lookup(state, key) == if bitmap::holds(ids, key) {
        world::cell(w, t.children, t.buffer, key)->Ok_0
    } else {
        None
    } by {
        lemma_chosen(t.buffer, ids, key);
        crate::levels::lemma_no_run(key);
        assert(world::good(world::cell(w, t.children, t.buffer, key), key));
        if t.children.len() == 0 {
            steps::lemma_replayed_cell(Map::empty(), pending, key);
        } else {
            let kids = t.children;
            let height = node::max_height(kids) + 1;
            let found = lookup::covering(t, ids);
            steps::lemma_max_height(kids, kids[0].height as int);
            if bitmap::holds(ids, key) {
                assert(world::same_run(pending, t.buffer, key));
                world::lemma_same_run_latest(pending, t.buffer, key);
                assert(order::distinct(order::of_key(t.buffer, key)));
                assert(newer_than(pending, key, world::newest_at(w, kids, key))) by {
                    assert forall|i: int| 0 <= i < pending.len() && (#[trigger] pending[i]).key()
                        == key implies world::newest_at(w, kids, key)
                        <= pending[i].action_sequence by {
                        let pred = |m: MutationView| bitmap::holds(ids, m.key());
                        lemma_kept(t.buffer, pred, i);
                        let a = choose|a: int|
                            0 <= a < t.buffer.len() && t.buffer[a] == pending[i];
                        assert(t.buffer[a].key() == key);
                    }
                }
                node::lemma_route(kids, key);
                lemma_covered_list(
                    w,
                    t.store,
                    kids,
                    pending,
                    0,
                    node::ROOT_EXCLUSIVE_END,
                    ids,
                    height,
                    0,
                    key,
                );
            } else {
                assert forall|i: int| 0 <= i < kids.len() implies silent(
                    w,
                    #[trigger] kids[i],
                    ids,
                    key,
                ) && kids[i].height < height by {}
                lemma_silent_list(
                    w,
                    t.store,
                    kids,
                    pending,
                    0,
                    node::ROOT_EXCLUSIVE_END,
                    ids,
                    height,
                    0,
                    key,
                );
            }
        }
    }
}

/// What a session resolves for a commit is what it holds, so a commit that is
/// validated against it is validated against the tree.
pub proof fn law_touched_fragments_are_current(
    w: World,
    t: TreeView,
    ids: Seq<u64>,
    touched: TouchedView,
)
    requires
        t.wf(),
        world::agrees(w, t.store),
        world::all_sound(w, t.store),
        world::sound(w, t.children, t.buffer),
        lookup::touches(t, ids, touched),
    ensures
        commit_laws::resolved_from(w, t, touched),
{
    if ids.len() > 0 && lookup::all_fit(ids) {
        let set = lookup::narrowed(ids);
        law_selection_gives_the_records(w, t, set);
        assert forall|key: u64| #[trigger] touched.ids.contains(key) implies replay::lookup(
            touched.fragments,
            key,
        ) == commit_laws::held(w, t, key) by {
            let i = choose|i: int| 0 <= i < ids.len() && ids[i] == key;
            assert(ids[i] <= u32::MAX);
            assert(set.contains(key as u32));
            assert(bitmap::holds(set, key));
            assert(replay::lookup(lookup::selection(t, set)->Ok_0, key) == world::cell(
                w,
                t.children,
                t.buffer,
                key,
            )->Ok_0);
        }
        assert forall|key: u64| #[trigger]
            touched.fragments.contains_key(key) implies touched.ids.contains(key) by {
            assert(replay::lookup(touched.fragments, key) is Some);
            assert(replay::lookup(lookup::selection(t, set)->Ok_0, key) is Some);
            assert(bitmap::holds(set, key));
            assert(ids.contains(key));
        }
    } else {
        assert forall|key: u64| #[trigger] touched.ids.contains(key) implies replay::lookup(
            touched.fragments,
            key,
        ) == commit_laws::held(w, t, key) by {
            let i = choose|i: int| 0 <= i < ids.len() && ids[i] == key;
            assert(lookup::one_resolved(t, ids[i]) is Ok);
            reads::law_resolving_gives_the_record(w, t, key);
        }
    }
}

} // verus!
