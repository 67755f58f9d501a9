//! What reading a tree gives: exactly the records it holds.

use vstd::prelude::*;

use crate::drain;
use crate::error::Error;
use crate::leaves;
use crate::levels;
use crate::lifting;
use crate::node;
use crate::order;
use crate::pb::{ChildView, MutationView};
use crate::record::FragmentView;
use crate::replay;
use crate::split;
use crate::steps;
use crate::store;
use crate::store::StoreView;
use crate::tree::walk;
use crate::tree::walk::{Found, RoutedLeaf};
use crate::tree::TreeView;
use crate::world;
use crate::world::World;

verus! {

// Listing a map.

/// A finite map that holds records under their ids can be listed.
pub proof fn lemma_listable(state: Map<u64, FragmentView>)
    requires
        state.dom().finite(),
        forall|key: u64| #[trigger] state.contains_key(key) ==> state[key].id == key,
    ensures
        steps::lists(walk::listed(state), state),
{
    let records = lemma_list_of(state);
    assert(steps::lists(records, state));
}

proof fn lemma_list_of(state: Map<u64, FragmentView>) -> (records: Seq<FragmentView>)
    requires
        state.dom().finite(),
        forall|key: u64| #[trigger] state.contains_key(key) ==> state[key].id == key,
    ensures
        steps::lists(records, state),
    decreases state.dom().len(),
{
    if state.dom().len() == 0 {
        let none = Seq::<FragmentView>::empty();
        assert forall|key: u64| #[trigger] world::found(none, key) == replay::lookup(
            state,
            key,
        ) by {
            if state.contains_key(key) {
                assert(state.dom().contains(key));
                assert(state.dom() =~= Set::<u64>::empty());
            }
        }
        none
    } else {
        let key = state.dom().choose();
        let x = state[key];
        assert(state.contains_key(key));
        let rest = state.remove(key);
        assert(rest.dom() =~= state.dom().remove(key));
        let list = lemma_list_of(rest);
        assert(leaves::in_order(list));
        let at = leaves::lemma_placed(list, x);
        let records = leaves::placed(list, x);
        leaves::lemma_inserted_ids(list, at, x);
        assert(!leaves::has_id(list, x.id)) by {
            if leaves::has_id(list, x.id) {
                assert(world::found(list, x.id) is Some);
                assert(replay::lookup(rest, x.id) is None);
            }
        }
        assert(!leaves::repeated(list)) by {
            if leaves::repeated(list) {
                let (i, j) = choose|i: int, j: int|
                    0 <= i < j < list.len() && (#[trigger] list[i]).id == (
                    #[trigger] list[j]).id;
                assert(list[i].id < list[j].id);
            }
        }
        assert(store::ascending(records)) by {
            assert forall|i: int, j: int| 0 <= i < j < records.len() implies (
            #[trigger] records[i]).id < (#[trigger] records[j]).id by {
                assert(records[i].id <= records[j].id);
                if records[i].id == records[j].id {
                    assert(leaves::repeated(records));
                }
            }
        }
        assert forall|k: u64| #[trigger] world::found(records, k) == replay::lookup(state, k) by {
            assert(records[at] == x);
            leaves::lemma_found(records, at);
            if k != key {
                assert(replay::lookup(state, k) == replay::lookup(rest, k));
                assert(world::found(list, k) == replay::lookup(rest, k));
                if world::found(list, k) is Some {
                    let i = leaves::lemma_found_some(list, k);
                    let to = if i < at {
                        i
                    } else {
                        i + 1
                    };
                    assert(records[to] == list[i]);
                    leaves::lemma_found(records, to);
                } else if world::found(records, k) is Some {
                    let i = leaves::lemma_found_some(records, k);
                    let from = if i < at {
                        i
                    } else {
                        i - 1
                    };
                    assert(i != at);
                    assert(records[i] == list[from]);
                    leaves::lemma_found(list, from);
                }
            }
        }
        records
    }
}

proof fn lemma_folded_finite(state: Map<u64, FragmentView>, s: Seq<MutationView>, check: bool)
    requires
        state.dom().finite(),
    ensures
        replay::folded(state, s, check).0.dom().finite(),
    decreases s.len(),
{
    if s.len() > 0 {
        lemma_folded_finite(state, s.drop_last(), check);
        let (before, error) = replay::folded(state, s.drop_last(), check);
        if error is None {
            let key = s.last().key();
            let (after, _) = replay::effect(replay::lookup(before, key), s.last(), check);
            match after {
                Some(fragment) => {
                    assert(before.insert(key, fragment).dom() =~= before.dom().insert(key));
                },
                None => {
                    assert(before.remove(key).dom() =~= before.dom().remove(key));
                },
            }
        }
    }
}

/// Replaying over a map that can be listed gives one that can be listed.
pub proof fn lemma_replayed_listable(state: Map<u64, FragmentView>, s: Seq<MutationView>)
    requires
        state.dom().finite(),
        forall|key: u64| #[trigger] state.contains_key(key) ==> state[key].id == key,
        replay::replayed(state, s, true).1 is None,
    ensures
        steps::lists(
            walk::listed(replay::replayed(state, s, true).0),
            replay::replayed(state, s, true).0,
        ),
{
    drain::lemma_replayed_ids(state, s, true);
    lemma_folded_finite(state, order::sorted(s, true), true);
    lemma_listable(replay::replayed(state, s, true).0);
}

pub proof fn lemma_indexed_finite(records: Seq<FragmentView>)
    ensures
        steps::indexed(records).dom().finite(),
        forall|key: u64| #[trigger]
            steps::indexed(records).contains_key(key) ==> steps::indexed(records)[key].id == key,
{
    let ids = records.map_values(|f: FragmentView| f.id);
    let set = ids.to_set();
    vstd::seq_lib::seq_to_set_is_finite(ids);
    assert forall|key: u64| #[trigger] steps::indexed(records).contains_key(key) implies
        steps::indexed(records)[key].id == key && set.contains(key) by {
        let k = leaves::lemma_found_some(records, key);
        assert(ids[k] == key);
    }
    assert(steps::indexed(records).dom().subset_of(set));
    vstd::set_lib::lemma_len_subset(steps::indexed(records).dom(), set);
}

// Rows.

pub proof fn lemma_rows_join(store: StoreView, a: Seq<RoutedLeaf>, b: Seq<RoutedLeaf>)
    ensures
        walk::rows_of(store, a + b) == walk::rows_of(store, a).then_walk(
            walk::rows_of(store, b),
        ),
    decreases a.len(),
{
    if a.len() == 0 {
        assert(a + b =~= b);
        assert(walk::rows_of(store, a).then_walk(walk::rows_of(store, b)).items =~= walk::rows_of(
            store,
            b,
        ).items);
    } else {
        assert((a + b).skip(1) =~= a.skip(1) + b);
        assert((a + b)[0] == a[0]);
        lemma_rows_join(store, a.skip(1), b);
        match walk::leaf_rows(store, a[0]) {
            Err(_) => {},
            Ok(rows) => {
                let x = walk::rows_of(store, a.skip(1));
                let y = walk::rows_of(store, b);
                let one = Found { items: rows, error: None };
                assert(one.then_walk(x.then_walk(y)).items =~= one.then_walk(x).then_walk(
                    y,
                ).items);
            },
        }
    }
}

/// Whether records are what a level holds from a lower bound on; below it
/// only some of them may be there.
pub open spec fn tells(
    w: World,
    children: Seq<ChildView>,
    buffer: Seq<MutationView>,
    records: Seq<FragmentView>,
    lower: u64,
) -> bool {
    &&& store::ascending(records)
    &&& forall|key: u64| #[trigger]
        world::found(records, key) is Some ==> world::cell(w, children, buffer, key) == Ok::<
            Option<FragmentView>,
            Error,
        >(world::found(records, key))
    &&& forall|key: u64|
        #![trigger world::found(records, key)]
        key >= lower ==> world::cell(w, children, buffer, key) == Ok::<
            Option<FragmentView>,
            Error,
        >(world::found(records, key))
}

/// One child of a sound level, on its own with the mutations for it.
proof fn lemma_child_cell(
    w: World,
    children: Seq<ChildView>,
    pending: Seq<MutationView>,
    i: int,
)
    requires
        world::sound(w, children, pending),
        0 <= i < children.len(),
    ensures
        ({
            let own = split::bucket(children, pending, i);
            let one = seq![children[i]];
            &&& world::sound(w, one, own)
            &&& forall|key: u64| #[trigger]
                world::cell(w, one, own, key) == if node::route(children, key) == i {
                    world::cell(w, children, pending, key)
                } else {
                    Ok(None)
                }
        }),
{
    let x = children.take(i);
    let s = seq![children[i]];
    let y = children.skip(i + 1);
    let own = split::bucket(children, pending, i);
    assert(children =~= x + s + y);
    assert forall|key: u64| levels::inside(x, s, y, key) == (node::route(children, key) == i) by {}
    assert forall|key: u64| levels::inside(x, s, y, key) implies #[trigger] world::same_run(
        own,
        pending,
        key,
    ) by {
        steps::lemma_bucket(children, pending, i, key);
    }
    assert forall|key: u64| !levels::inside(x, s, y, key) implies #[trigger] order::of_key(
        own,
        key,
    ) == Seq::<MutationView>::empty() by {
        steps::lemma_bucket(children, pending, i, key);
    }
    levels::lemma_child_sound(w, x, s, y, pending, own);
    assert forall|key: u64| #[trigger] world::cell(w, s, own, key) == if node::route(children, key)
        == i {
        world::cell(w, children, pending, key)
    } else {
        Ok(None)
    } by {
        steps::lemma_bucket(children, pending, i, key);
        assert(node::route(s, key) == 0);
        if node::route(children, key) != i {
            assert(w.rec(children[i], key) is None);
            levels::lemma_no_run(key);
        }
    }
}

/// What a leaf comes to is what it holds on its own.
proof fn lemma_leaf_tells(
    w: World,
    store: StoreView,
    child: ChildView,
    actions: Seq<MutationView>,
    lower: u64,
)
    requires
        world::agrees(w, store),
        walk::leaf_rows(store, RoutedLeaf { child, actions }) is Ok,
    ensures
        tells(
            w,
            seq![child],
            actions,
            walk::leaf_rows(store, RoutedLeaf { child, actions })->Ok_0,
            lower,
        ),
{
    let records = store::leaf_read(store, child)->Ok_0;
    let base = steps::indexed(records);
    let state = replay::replayed(base, actions, true).0;
    steps::lemma_reads_leaf(w, store, child);
    lemma_indexed_finite(records);
    lemma_replayed_listable(base, actions);
    let rows = walk::listed(state);
    assert forall|key: u64| #[trigger] world::cell(w, seq![child], actions, key) == Ok::<
        Option<FragmentView>,
        Error,
    >(world::found(rows, key)) by {
        steps::lemma_replayed_cell(base, actions, key);
        assert(world::found(rows, key) == replay::lookup(state, key));
        assert((w.record)(child.loc(), key) == world::found(records, key));
        assert(replay::lookup(base, key) == world::found(records, key));
        assert(node::route(seq![child], key) == 0);
    }
    assert forall|key: u64| #[trigger] world::found(rows, key) is Some implies world::cell(
        w,
        seq![child],
        actions,
        key,
    ) == Ok::<Option<FragmentView>, Error>(world::found(rows, key)) by {
        let c = world::cell(w, seq![child], actions, key);
    }
    assert forall|key: u64|
        #![trigger world::found(rows, key)]
        key >= lower implies world::cell(w, seq![child], actions, key) == Ok::<
        Option<FragmentView>,
        Error,
    >(world::found(rows, key)) by {
        let c = world::cell(w, seq![child], actions, key);
    }
}

/// What a subtree comes to is what it holds on its own.
proof fn lemma_routed_tells(
    w: World,
    store: StoreView,
    child: ChildView,
    actions: Seq<MutationView>,
    end: u64,
    lower: u64,
)
    requires
        world::agrees(w, store),
        world::all_sound(w, store),
        world::sound(w, seq![child], actions),
        walk::routed(store, child, actions, end, lower).error is None,
        walk::rows_of(store, walk::routed(store, child, actions, end, lower).items).error is None,
    ensures
        tells(
            w,
            seq![child],
            actions,
            walk::rows_of(store, walk::routed(store, child, actions, end, lower).items).items,
            lower,
        ),
    decreases child.height, 1int, 0int,
{
    let leaves = walk::routed(store, child, actions, end, lower).items;
    if child.height == 0 {
        let leaf = RoutedLeaf { child, actions };
        assert(leaves[0] == leaf);
        assert(leaves.skip(1) =~= Seq::<RoutedLeaf>::empty());
        lemma_leaf_tells(w, store, child, actions, lower);
        assert(walk::rows_of(store, leaves.skip(1)) == Found::<FragmentView>::nothing());
        assert(walk::rows_of(store, leaves).items =~= walk::leaf_rows(store, leaf)->Ok_0);
    } else {
        let (kids, buffer) = store::node_read(store, child)->Ok_0;
        let pending = actions + buffer;
        steps::lemma_reads_node(w, store, child);
        steps::lemma_node_shape(store, child);
        lifting::lemma_unfold_one(w, child, kids, buffer);
        lifting::lemma_unfold(w, seq![child], actions, kids, buffer, pending);
        assert forall|i: int| 0 <= i < kids.len() implies (#[trigger] kids[i]).height
            < child.height as int by {}
        node::lemma_route(kids, lower);
        let from = node::route(kids, lower);
        lemma_list_tells(
            w,
            store,
            kids,
            pending,
            end,
            lower,
            child.height as int,
            from,
        );
        let rows = walk::rows_of(store, leaves).items;
        assert forall|key: u64| #[trigger] world::found(rows, key) is Some implies world::cell(
            w,
            seq![child],
            actions,
            key,
        ) == Ok::<Option<FragmentView>, Error>(world::found(rows, key)) by {
            assert(world::cell(w, kids, pending, key) == world::cell(w, seq![child], actions, key));
        }
        assert forall|key: u64|
            #![trigger world::found(rows, key)]
            key >= lower implies world::cell(w, seq![child], actions, key) == Ok::<
            Option<FragmentView>,
            Error,
        >(world::found(rows, key)) by {
            assert(world::cell(w, kids, pending, key) == world::cell(w, seq![child], actions, key));
            lemma_route_grows(kids, lower, key);
        }
    }
}

/// Larger keys are not routed to earlier children.
proof fn lemma_route_grows(children: Seq<ChildView>, a: u64, b: u64)
    requires
        a <= b,
        children.len() > 0,
    ensures
        node::route(children, a) <= node::route(children, b),
{
    node::lemma_route(children, a);
    node::lemma_route(children, b);
    let r = node::route(children, a);
    let q = node::route(children, b);
    if q < r {
        assert(b < children[r].min_key);
        assert(children[r].min_key <= a);
    }
}

/// Whether records are what a level holds for the keys that go to a child or
/// a later one, from a lower bound on.
spec fn tells_from(
    w: World,
    children: Seq<ChildView>,
    buffer: Seq<MutationView>,
    records: Seq<FragmentView>,
    lower: u64,
    from: int,
) -> bool {
    &&& store::ascending(records)
    &&& forall|key: u64| #[trigger]
        world::found(records, key) is Some ==> node::route(children, key) >= from && world::cell(
            w,
            children,
            buffer,
            key,
        ) == Ok::<Option<FragmentView>, Error>(world::found(records, key))
    &&& forall|key: u64|
        #![trigger world::found(records, key)]
        key >= lower && node::route(children, key) >= from ==> world::cell(
            w,
            children,
            buffer,
            key,
        ) == Ok::<Option<FragmentView>, Error>(world::found(records, key))
}

proof fn lemma_list_tells(
    w: World,
    store: StoreView,
    children: Seq<ChildView>,
    pending: Seq<MutationView>,
    end: u64,
    lower: u64,
    height: int,
    from: int,
)
    requires
        world::agrees(w, store),
        world::all_sound(w, store),
        world::sound(w, children, pending),
        0 <= from <= children.len(),
        children.len() > 0,
        forall|i: int| 0 <= i < children.len() ==> (#[trigger] children[i]).height < height,
        walk::routed_from(store, children, pending, end, lower, height, from).error is None,
        walk::rows_of(
            store,
            walk::routed_from(store, children, pending, end, lower, height, from).items,
        ).error is None,
    ensures
        tells_from(
            w,
            children,
            pending,
            walk::rows_of(
                store,
                walk::routed_from(store, children, pending, end, lower, height, from).items,
            ).items,
            lower,
            from,
        ),
    decreases height, 0int, children.len() - from,
{
    let found = walk::routed_from(store, children, pending, end, lower, height, from);
    let rows = walk::rows_of(store, found.items).items;
    if from == children.len() {
        assert(rows =~= Seq::<FragmentView>::empty());
        assert forall|key: u64|
            #![trigger world::found(rows, key)]
            key >= lower && node::route(children, key) >= from implies world::cell(
            w,
            children,
            pending,
            key,
        ) == Ok::<Option<FragmentView>, Error>(world::found(rows, key)) by {
            node::lemma_route(children, key);
        }
    } else {
        let own = split::bucket(children, pending, from);
        let one = seq![children[from]];
        let stop = node::end_of(children, from, end);
        let first = walk::routed(store, children[from], own, stop, lower);
        let later = walk::routed_from(store, children, pending, end, lower, height, from + 1);
        assert(children[from].height < height);
        lemma_rows_join(store, first.items, later.items);
        lemma_child_cell(w, children, pending, from);
        lemma_routed_tells(w, store, children[from], own, stop, lower);
        lemma_list_tells(w, store, children, pending, end, lower, height, from + 1);
        let a = walk::rows_of(store, first.items).items;
        let b = walk::rows_of(store, later.items).items;
        assert(rows == a + b);
        lemma_join_tells(w, children, pending, a, b, lower, from);
    }
}

/// What one child comes to before what the later ones come to.
proof fn lemma_join_tells(
    w: World,
    children: Seq<ChildView>,
    pending: Seq<MutationView>,
    a: Seq<FragmentView>,
    b: Seq<FragmentView>,
    lower: u64,
    from: int,
)
    requires
        world::sound(w, children, pending),
        0 <= from < children.len(),
        tells(
            w,
            seq![children[from]],
            split::bucket(children, pending, from),
            a,
            lower,
        ),
        tells_from(w, children, pending, b, lower, from + 1),
    ensures
        tells_from(w, children, pending, a + b, lower, from),
{
    let own = split::bucket(children, pending, from);
    let one = seq![children[from]];
    let rows = a + b;
    lemma_child_cell(w, children, pending, from);
    assert forall|key: u64| #[trigger] world::found(a, key) is Some implies node::route(
        children,
        key,
    ) == from && world::cell(w, children, pending, key) == Ok::<Option<FragmentView>, Error>(
        world::found(a, key),
    ) by {
        let c = world::cell(w, one, own, key);
    }
    assert forall|i: int, j: int| 0 <= i < j < rows.len() implies (#[trigger] rows[i]).id < (
    #[trigger] rows[j]).id by {
        if j < a.len() {
            assert(rows[i] == a[i] && rows[j] == a[j]);
        } else if i >= a.len() {
            assert(rows[i] == b[i - a.len()] && rows[j] == b[j - a.len()]);
        } else {
            let p = a[i];
            let q = b[j - a.len()];
            leaves::lemma_found(a, i);
            leaves::lemma_found(b, j - a.len());
            assert(world::found(a, p.id) is Some);
            assert(world::found(b, q.id) is Some);
            node::lemma_route(children, p.id);
            node::lemma_route(children, q.id);
            let r = node::route(children, q.id);
            assert(r > from);
            assert(p.id < children[r].min_key);
        }
    }
    assert forall|key: u64|
        #![trigger world::found(rows, key)]
        world::found(rows, key) == if world::found(a, key) is Some {
            world::found(a, key)
        } else {
            world::found(b, key)
        } by {
        if world::found(a, key) is Some {
            let i = leaves::lemma_found_some(a, key);
            assert(rows[i] == a[i]);
            leaves::lemma_found(rows, i);
        } else if world::found(b, key) is Some {
            let i = leaves::lemma_found_some(b, key);
            assert(rows[a.len() + i] == b[i]);
            leaves::lemma_found(rows, a.len() + i);
        } else if world::found(rows, key) is Some {
            let i = leaves::lemma_found_some(rows, key);
            if i < a.len() {
                assert(rows[i] == a[i]);
                leaves::lemma_found(a, i);
            } else {
                assert(rows[i] == b[i - a.len()]);
                leaves::lemma_found(b, i - a.len());
            }
        }
    }
    assert forall|key: u64|
        #![trigger world::found(rows, key)]
        key >= lower && node::route(children, key) >= from implies world::cell(
        w,
        children,
        pending,
        key,
    ) == Ok::<Option<FragmentView>, Error>(world::found(rows, key)) by {
        if node::route(children, key) == from {
            let c = world::cell(w, one, own, key);
            assert(c == Ok::<Option<FragmentView>, Error>(world::found(a, key)));
            if world::found(a, key) is None && world::found(b, key) is Some {
                assert(node::route(children, key) >= from + 1);
            }
        } else {
            assert(world::cell(w, children, pending, key) == Ok::<Option<FragmentView>, Error>(
                world::found(b, key),
            ));
            if world::found(a, key) is Some {
                assert(node::route(children, key) == from);
            }
        }
    }
}

proof fn lemma_from_id(records: Seq<FragmentView>, lower: u64)
    requires
        store::ascending(records),
    ensures
        store::ascending(walk::from_id(records, lower)),
        forall|key: u64| #[trigger]
            world::found(walk::from_id(records, lower), key) == if key >= lower {
                world::found(records, key)
            } else {
                None
            },
    decreases records.len(),
{
    let pred = |fragment: FragmentView| fragment.id >= lower;
    if records.len() == 0 {
        assert(records.filter(pred) =~= records);
    } else {
        let rest = records.drop_last();
        let x = records.last();
        assert(records =~= rest.push(x));
        rest.lemma_filter_push(x, pred);
        assert forall|i: int, j: int| 0 <= i < j < rest.len() implies (#[trigger] rest[i]).id < (
        #[trigger] rest[j]).id by {
            assert(records[i].id < records[j].id);
        }
        lemma_from_id(rest, lower);
        let old_rows = walk::from_id(rest, lower);
        let rows = walk::from_id(records, lower);
        leaves::lemma_found(records, records.len() - 1);
        assert forall|key: u64| #[trigger] world::found(rest, key) == if key == x.id {
            None
        } else {
            world::found(records, key)
        } by {
            if world::found(rest, key) is Some {
                let i = leaves::lemma_found_some(rest, key);
                assert(records[i].id < x.id);
                leaves::lemma_found(records, i);
            } else if world::found(records, key) is Some {
                let i = leaves::lemma_found_some(records, key);
                if i < rest.len() {
                    assert(rest[i] == records[i]);
                    leaves::lemma_found(rest, i);
                }
            }
        }
        if x.id >= lower {
            assert(rows == old_rows.push(x));
            assert forall|i: int, j: int| 0 <= i < j < rows.len() implies (
            #[trigger] rows[i]).id < (#[trigger] rows[j]).id by {
                if j == rows.len() - 1 {
                    leaves::lemma_found(old_rows, i);
                    let k = rows[i].id;
                    assert(world::found(old_rows, k) is Some);
                    assert(world::found(rest, k) is Some);
                    let at = leaves::lemma_found_some(rest, k);
                    assert(records[at].id < x.id);
                }
            }
            leaves::lemma_found(rows, rows.len() - 1);
            assert forall|key: u64| #[trigger] world::found(rows, key) == if key >= lower {
                world::found(records, key)
            } else {
                None
            } by {
                assert(world::found(old_rows, key) == if key >= lower {
                    world::found(rest, key)
                } else {
                    None
                });
                if key != x.id {
                    if world::found(old_rows, key) is Some {
                        let i = leaves::lemma_found_some(old_rows, key);
                        assert(rows[i] == old_rows[i]);
                        leaves::lemma_found(rows, i);
                    } else if world::found(rows, key) is Some {
                        let i = leaves::lemma_found_some(rows, key);
                        if i < old_rows.len() {
                            assert(rows[i] == old_rows[i]);
                            leaves::lemma_found(old_rows, i);
                        }
                    }
                }
            }
        } else {
            assert forall|key: u64| #[trigger] world::found(rows, key) == if key >= lower {
                world::found(records, key)
            } else {
                None
            } by {
                assert(rows == old_rows);
            }
        }
    }
}

/// Walking a tree to the end from a lower bound on yields exactly the records
/// it holds from there on, in increasing order of their ids.
pub proof fn law_walk_yields_the_table(w: World, t: TreeView, lower: u64)
    requires
        t.wf(),
        world::agrees(w, t.store),
        world::all_sound(w, t.store),
        world::sound(w, t.children, t.buffer),
        walk::start_rows(t, lower).error is None,
    ensures
        store::ascending(walk::start_rows(t, lower).items),
        forall|key: u64| #[trigger]
            world::found(walk::start_rows(t, lower).items, key) is Some ==> key >= lower,
        forall|key: u64|
            #![trigger world::found(walk::start_rows(t, lower).items, key)]
            key >= lower ==> world::cell(w, t.children, t.buffer, key) == Ok::<
                Option<FragmentView>,
                Error,
            >(world::found(walk::start_rows(t, lower).items, key)),
{
    let rows = if t.children.len() == 0 {
        let state = replay::replayed(Map::empty(), t.buffer, true).0;
        lemma_replayed_listable(Map::empty(), t.buffer);
        walk::listed(state)
    } else {
        let kids = t.children;
        let height = node::max_height(kids) + 1;
        let found = walk::start_leaves(t, lower);
        steps::lemma_max_height(kids, kids[0].height as int);
        assert forall|i: int| 0 <= i < kids.len() implies (#[trigger] kids[i]).height < height by {}
        node::lemma_route(kids, lower);
        lemma_list_tells(
            w,
            t.store,
            kids,
            t.buffer,
            node::ROOT_EXCLUSIVE_END,
            lower,
            height,
            node::route(kids, lower),
        );
        walk::rows_of(t.store, found.items).items
    };
    lemma_from_id(rows, lower);
    let out = walk::start_rows(t, lower).items;
    assert(out == walk::from_id(rows, lower));
    assert forall|key: u64|
        #![trigger world::found(out, key)]
        key >= lower implies world::cell(w, t.children, t.buffer, key) == Ok::<
        Option<FragmentView>,
        Error,
    >(world::found(out, key)) by {
        if t.children.len() == 0 {
            let state = replay::replayed(Map::empty(), t.buffer, true).0;
            steps::lemma_replayed_cell(Map::empty(), t.buffer, key);
            assert(world::found(rows, key) == replay::lookup(state, key));
        } else {
            lemma_route_grows(t.children, lower, key);
            assert(world::cell(w, t.children, t.buffer, key) == Ok::<Option<FragmentView>, Error>(
                world::found(rows, key),
            ));
        }
    }
}

// The whole table.

proof fn lemma_merged_join(store: StoreView, a: Seq<RoutedLeaf>, b: Seq<RoutedLeaf>)
    requires
        walk::merged(store, a + b) is Ok,
    ensures
        walk::merged(store, a) is Ok,
        walk::merged(store, b) is Ok,
        walk::merged(store, a + b)->Ok_0 == walk::merged(store, a)->Ok_0.union_prefer_right(
            walk::merged(store, b)->Ok_0,
        ),
        walk::actions_for(a + b) == walk::actions_for(a) + walk::actions_for(b),
    decreases b.len(),
{
    if b.len() == 0 {
        assert(a + b =~= a);
        assert(walk::merged(store, a)->Ok_0.union_prefer_right(Map::empty()) =~= walk::merged(
            store,
            a,
        )->Ok_0);
        assert(walk::actions_for(a) + Seq::<MutationView>::empty() =~= walk::actions_for(a));
    } else {
        let rest = b.drop_last();
        assert((a + b).drop_last() =~= a + rest);
        assert((a + b).last() == b.last());
        lemma_merged_join(store, a, rest);
        let more = steps::indexed(store::leaf_read(store, b.last().child)->Ok_0);
        let x = walk::merged(store, a)->Ok_0;
        let y = walk::merged(store, rest)->Ok_0;
        assert(x.union_prefer_right(y).union_prefer_right(more) =~= x.union_prefer_right(
            y.union_prefer_right(more),
        ));
        assert(walk::actions_for(a + b) =~= walk::actions_for(a) + walk::actions_for(b));
    }
}

/// Whether some leaves hold nothing of a fragment and have nothing buffered
/// for it.
spec fn unaware(store: StoreView, leaves: Seq<RoutedLeaf>, key: u64) -> bool {
    &&& !walk::merged(store, leaves)->Ok_0.contains_key(key)
    &&& order::of_key(walk::actions_for(leaves), key) == Seq::<MutationView>::empty()
}

/// What some leaves and the mutations for them come to for a fragment.
spec fn comes_to(store: StoreView, leaves: Seq<RoutedLeaf>, key: u64) -> Result<
    Option<FragmentView>,
    Error,
> {
    replay::outcome(
        replay::lookup(walk::merged(store, leaves)->Ok_0, key),
        order::run(walk::actions_for(leaves), key),
        false,
    )
}

/// Leaves that know nothing of a fragment change nothing for it.
proof fn lemma_unaware_join(store: StoreView, a: Seq<RoutedLeaf>, b: Seq<RoutedLeaf>, key: u64)
    requires
        walk::merged(store, a + b) is Ok,
    ensures
        unaware(store, a, key) && unaware(store, b, key) ==> unaware(store, a + b, key),
        unaware(store, a, key) ==> comes_to(store, a + b, key) == comes_to(store, b, key),
        unaware(store, b, key) ==> comes_to(store, a + b, key) == comes_to(store, a, key),
{
    lemma_merged_join(store, a, b);
    let x = walk::actions_for(a);
    let y = walk::actions_for(b);
    lifting::lemma_of_key_add(x, y, key);
    let none = Seq::<MutationView>::empty();
    assert(none + none =~= none);
    assert(none + order::of_key(y, key) =~= order::of_key(y, key));
    assert(order::of_key(x, key) + none =~= order::of_key(x, key));
}

proof fn lemma_gathered_child(
    w: World,
    store: StoreView,
    child: ChildView,
    actions: Seq<MutationView>,
    end: u64,
    key: u64,
)
    requires
        world::agrees(w, store),
        world::all_sound(w, store),
        world::sound(w, seq![child], actions),
        walk::routed(store, child, actions, end, 0).error is None,
        walk::merged(store, walk::routed(store, child, actions, end, 0).items) is Ok,
    ensures
        comes_to(store, walk::routed(store, child, actions, end, 0).items, key) == world::cell(
            w,
            seq![child],
            actions,
            key,
        ),
        w.newest_of(child, key) == 0 && w.rec(child, key) is None && order::of_key(actions, key)
            == Seq::<MutationView>::empty() ==> unaware(
            store,
            walk::routed(store, child, actions, end, 0).items,
            key,
        ),
    decreases child.height, 1int, 0int,
{
    let leaves = walk::routed(store, child, actions, end, 0).items;
    assert(node::route(seq![child], key) == 0);
    if child.height == 0 {
        let none = Seq::<RoutedLeaf>::empty();
        assert(leaves.drop_last() =~= none);
        assert(leaves.last() == RoutedLeaf { child, actions });
        let records = store::leaf_read(store, child)->Ok_0;
        steps::lemma_reads_leaf(w, store, child);
        assert(walk::merged(store, none) == Ok::<Map<u64, FragmentView>, Option<Error>>(
            Map::empty(),
        ));
        assert(walk::merged(store, leaves)->Ok_0 =~= steps::indexed(records));
        assert(walk::actions_for(none) == Seq::<MutationView>::empty());
        assert(walk::actions_for(leaves) =~= actions);
        assert((w.record)(child.loc(), key) == world::found(records, key));
    } else {
        let (kids, buffer) = store::node_read(store, child)->Ok_0;
        let pending = actions + buffer;
        steps::lemma_reads_node(w, store, child);
        steps::lemma_node_shape(store, child);
        lifting::lemma_unfold_one(w, child, kids, buffer);
        lifting::lemma_unfold(w, seq![child], actions, kids, buffer, pending);
        assert forall|i: int| 0 <= i < kids.len() implies (#[trigger] kids[i]).height
            < child.height as int by {}
        lemma_route_zero(kids);
        lemma_gathered_list(w, store, kids, pending, end, child.height as int, 0, key);
        node::lemma_route(kids, key);
        assert(world::cell(w, kids, pending, key) == world::cell(w, seq![child], actions, key));
        if w.newest_of(child, key) == 0 && w.rec(child, key) is None && order::of_key(actions, key)
            == Seq::<MutationView>::empty() {
            assert((w.newest)(child.loc(), key) == world::frontier(w, kids, buffer, key));
            world::lemma_latest_zero(buffer, key);
            lifting::lemma_of_key_add(actions, buffer, key);
            assert(order::of_key(pending, key) =~= Seq::<MutationView>::empty());
            assert(world::good(world::cell(w, kids, buffer, key), key));
            assert((w.record)(child.loc(), key) == world::cell(w, kids, buffer, key)->Ok_0);
            assert(world::base_at(w, kids, key) is None);
        }
    }
}

proof fn lemma_route_zero(children: Seq<ChildView>)
    requires
        world::fences(children),
        children.len() > 0,
    ensures
        node::route(children, 0) == 0,
{
    node::lemma_route(children, 0);
    let r = node::route(children, 0);
    if r > 0 {
        assert(children[0].min_key < children[r].min_key);
    }
}

proof fn lemma_gathered_list(
    w: World,
    store: StoreView,
    children: Seq<ChildView>,
    pending: Seq<MutationView>,
    end: u64,
    height: int,
    from: int,
    key: u64,
)
    requires
        world::agrees(w, store),
        world::all_sound(w, store),
        world::sound(w, children, pending),
        0 <= from <= children.len(),
        children.len() > 0,
        forall|i: int| 0 <= i < children.len() ==> (#[trigger] children[i]).height < height,
        walk::routed_from(store, children, pending, end, 0, height, from).error is None,
        walk::merged(
            store,
            walk::routed_from(store, children, pending, end, 0, height, from).items,
        ) is Ok,
    ensures
        ({
            let leaves = walk::routed_from(store, children, pending, end, 0, height, from).items;
            &&& node::route(children, key) >= from ==> comes_to(store, leaves, key) == world::cell(
                w,
                children,
                pending,
                key,
            )
            &&& node::route(children, key) < from ==> unaware(store, leaves, key)
            &&& world::newest_at(w, children, key) == 0 && world::base_at(w, children, key) is None
                && order::of_key(pending, key) == Seq::<MutationView>::empty() ==> unaware(
                store,
                leaves,
                key,
            )
        }),
    decreases height, 0int, children.len() - from,
{
    node::lemma_route(children, key);
    let found = walk::routed_from(store, children, pending, end, 0, height, from);
    if from == children.len() {
        assert(found.items =~= Seq::<RoutedLeaf>::empty());
        assert(order::of_key(Seq::<MutationView>::empty(), key) =~= Seq::<MutationView>::empty());
    } else {
        let own = split::bucket(children, pending, from);
        let one = seq![children[from]];
        let stop = node::end_of(children, from, end);
        let first = walk::routed(store, children[from], own, stop, 0);
        let later = walk::routed_from(store, children, pending, end, 0, height, from + 1);
        assert(children[from].height < height);
        assert(found.items == first.items + later.items);
        lemma_merged_join(store, first.items, later.items);
        lemma_child_cell(w, children, pending, from);
        lemma_gathered_child(w, store, children[from], own, stop, key);
        lemma_gathered_list(w, store, children, pending, end, height, from + 1, key);
        lemma_unaware_join(store, first.items, later.items, key);
        steps::lemma_bucket(children, pending, from, key);
        assert(world::cell(w, one, own, key) == if node::route(children, key) == from {
            world::cell(w, children, pending, key)
        } else {
            Ok(None)
        });
        if node::route(children, key) != from {
            assert(w.rec(children[from], key) is None && w.newest_of(children[from], key) == 0);
        }
    }
}

/// Materializing a tree gives exactly the records it holds, in increasing
/// order of their ids.
pub proof fn law_materialize_gives_the_table(w: World, t: TreeView)
    requires
        t.wf(),
        world::agrees(w, t.store),
        world::all_sound(w, t.store),
        world::sound(w, t.children, t.buffer),
        walk::table(t) is Ok,
    ensures
        store::ascending(walk::table(t)->Ok_0),
        forall|key: u64| #[trigger]
            world::cell(w, t.children, t.buffer, key) == Ok::<Option<FragmentView>, Error>(
                world::found(walk::table(t)->Ok_0, key),
            ),
{
    let rows = walk::table(t)->Ok_0;
    if t.children.len() == 0 {
        let state = replay::replayed(Map::empty(), t.buffer, true).0;
        lemma_replayed_listable(Map::empty(), t.buffer);
        assert forall|key: u64| #[trigger]
            world::cell(w, t.children, t.buffer, key) == Ok::<Option<FragmentView>, Error>(
                world::found(rows, key),
            ) by {
            steps::lemma_replayed_cell(Map::empty(), t.buffer, key);
            assert(world::found(rows, key) == replay::lookup(state, key));
        }
    } else {
        let kids = t.children;
        let height = node::max_height(kids) + 1;
        let leaves = walk::start_leaves(t, 0).items;
        let base = walk::merged(t.store, leaves)->Ok_0;
        let actions = walk::actions_for(leaves);
        let state = replay::replayed(base, actions, true).0;
        steps::lemma_max_height(kids, kids[0].height as int);
        assert forall|i: int| 0 <= i < kids.len() implies (#[trigger] kids[i]).height < height by {}
        lemma_route_zero(kids);
        lemma_merged_finite(t.store, leaves);
        lemma_replayed_listable(base, actions);
        assert forall|key: u64| #[trigger]
            world::cell(w, t.children, t.buffer, key) == Ok::<Option<FragmentView>, Error>(
                world::found(rows, key),
            ) by {
            lemma_gathered_list(
                w,
                t.store,
                kids,
                t.buffer,
                node::ROOT_EXCLUSIVE_END,
                height,
                0,
                key,
            );
            node::lemma_route(kids, key);
            steps::lemma_replayed_cell(base, actions, key);
            assert(world::found(rows, key) == replay::lookup(state, key));
        }
    }
}

proof fn lemma_merged_finite(store: StoreView, leaves: Seq<RoutedLeaf>)
    requires
        walk::merged(store, leaves) is Ok,
    ensures
        walk::merged(store, leaves)->Ok_0.dom().finite(),
        forall|key: u64| #[trigger]
            walk::merged(store, leaves)->Ok_0.contains_key(key) ==> walk::merged(
                store,
                leaves,
            )->Ok_0[key].id == key,
    decreases leaves.len(),
{
    if leaves.len() > 0 {
        lemma_merged_finite(store, leaves.drop_last());
        let base = walk::merged(store, leaves.drop_last())->Ok_0;
        let records = store::leaf_read(store, leaves.last().child)->Ok_0;
        let more = steps::indexed(records);
        lemma_indexed_finite(records);
        let state = walk::merged(store, leaves)->Ok_0;
        assert(state.dom() =~= base.dom().union(more.dom()));
        assert forall|key: u64| #[trigger] state.contains_key(key) implies state[key].id
            == key by {
            if more.contains_key(key) {
                assert(state[key] == more[key]);
            } else {
                assert(base.contains_key(key));
            }
        }
    }
}

/// Walking a tree from the start and materializing it give the same records.
pub proof fn law_walk_and_materialize_agree(w: World, t: TreeView)
    requires
        t.wf(),
        world::agrees(w, t.store),
        world::all_sound(w, t.store),
        world::sound(w, t.children, t.buffer),
        walk::start_rows(t, 0).error is None,
        walk::table(t) is Ok,
    ensures
        walk::start_rows(t, 0).items == walk::table(t)->Ok_0,
{
    law_walk_yields_the_table(w, t, 0);
    law_materialize_gives_the_table(w, t);
    let a = walk::start_rows(t, 0).items;
    let b = walk::table(t)->Ok_0;
    assert forall|key: u64| #[trigger] world::found(a, key) == world::found(b, key) by {
        assert(world::cell(w, t.children, t.buffer, key) == Ok::<Option<FragmentView>, Error>(
            world::found(b, key),
        ));
    }
    walk::lemma_same_found(a, b);
}

} // verus!
