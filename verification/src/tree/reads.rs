//! Reading records out of a tree.

use std::collections::BTreeMap;

use vstd::prelude::*;

use crate::error::Error;
use crate::index;
use crate::index::BufferIndex;
use crate::lifting;
use crate::node;
use crate::order;
use crate::partial;
use crate::pb::{clone_children, clone_mutations, ChildView, FragmentMetadataChild,
    FragmentMetadataMutation, MutationView};
use crate::record::{Fragment, FragmentView};
use crate::replay;
use crate::replay_laws;
use crate::split;
use crate::steps;
use crate::store;
use crate::store::{Stop, StoreView};
use crate::tree::{FragmentTree, TreeView};
use crate::views;
use crate::world;
use crate::world::World;

verus! {

broadcast use {crate::views::group_views, vstd::std_specs::btree::group_btree_axioms};

/// What a read gives: a value, the refusal, or nothing where an object has to
/// be handed over first.
pub open spec fn answers<T, V>(wanted: Result<V, Option<Error>>, r: Result<T, Stop>) -> bool {
    match wanted {
        Ok(_) => r is Ok,
        Err(Some(error)) => r == Err::<T, Stop>(Stop::Fail(error)),
        Err(None) => r matches Err(Stop::Need(_)),
    }
}

// One fragment.

/// A record on its own as a map.
pub open spec fn single(record: Option<FragmentView>) -> Map<u64, FragmentView> {
    match record {
        Some(fragment) => Map::empty().insert(fragment.id, fragment),
        None => Map::empty(),
    }
}

/// What mutations make of a fragment's record.
pub open spec fn settled(record: Option<FragmentView>, actions: Seq<MutationView>, key: u64) -> Result<
    Option<FragmentView>,
    Option<Error>,
> {
    let (state, error) = replay::replayed(single(record), actions, true);
    match error {
        Some(error) => Err(Some(error)),
        None => Ok(replay::lookup(state, key)),
    }
}

/// The record a level holds for a fragment, reading one path of nodes and its
/// record in the leaf at its end. `actions` are the fragment's own mutations from above.
pub open spec fn resolved(
    store: StoreView,
    children: Seq<ChildView>,
    actions: Seq<MutationView>,
    key: u64,
    height: int,
) -> Result<Option<FragmentView>, Option<Error>>
    decreases height,
{
    let child = children[node::route(children, key)];
    if children.len() == 0 {
        settled(None, actions, key)
    } else if child.height == 0 {
        match split::bucket_fault(child, node::ROOT_EXCLUSIVE_END, actions) {
            Some(reason) => Err(Some(Error::CorruptFile { reason })),
            None => match partial::point_read(store, child, key) {
                Err(error) => Err(error),
                Ok(record) => settled(record, actions, key),
            },
        }
    } else if child.height >= height {
        Err(None)
    } else {
        match store::node_read(store, child) {
            Err(error) => Err(error),
            Ok((below, buffer)) => resolved(
                store,
                below,
                actions + order::of_key(buffer, key),
                key,
                child.height as int,
            ),
        }
    }
}

/// The mutations of a fragment at given positions.
proof fn lemma_positions(buffer: Seq<MutationView>, key: u64)
    requires
        buffer.len() <= usize::MAX,
    ensures
        index::positions(buffer, key).len() == order::of_key(buffer, key).len(),
        forall|k: int|
            0 <= k < index::positions(buffer, key).len() ==> {
                let at = #[trigger] index::positions(buffer, key)[k];
                at < buffer.len() && buffer[at as int] == order::of_key(buffer, key)[k]
            },
    decreases buffer.len(),
{
    let pred = |m: MutationView| m.key() == key;
    if buffer.len() > 0 {
        let rest = buffer.drop_last();
        lemma_positions(rest, key);
        assert(buffer =~= rest.push(buffer.last()));
        rest.lemma_filter_push(buffer.last(), pred);
        assert forall|k: int| 0 <= k < index::positions(buffer, key).len() implies {
            let at = #[trigger] index::positions(buffer, key)[k];
            at < buffer.len() && buffer[at as int] == order::of_key(buffer, key)[k]
        } by {
            if k < index::positions(rest, key).len() {
                let at = index::positions(rest, key)[k];
                assert(rest[at as int] == buffer[at as int]);
            }
        }
    } else {
        assert(buffer.filter(pred) =~= buffer);
    }
}

fn mutations_of(buffer: &Vec<FragmentMetadataMutation>, key: u64) -> (r: Vec<
    FragmentMetadataMutation,
>)
    ensures
        views::all(r@) == order::of_key(views::all(buffer@), key),
{
    let count: usize = buffer.len();
    let at = BufferIndex::new(buffer).for_fragment(key);
    let ghost all = views::all(buffer@);
    proof {
        lemma_positions(all, key);
    }
    let mut out: Vec<FragmentMetadataMutation> = Vec::new();
    let mut i: usize = 0;
    while i < at.len()
        invariant
            i <= at@.len(),
            all == views::all(buffer@),
            at@ == index::positions(all, key),
            at@.len() == order::of_key(all, key).len(),
            forall|k: int|
                0 <= k < at@.len() ==> {
                    let place = #[trigger] at@[k];
                    place < all.len() && all[place as int] == order::of_key(all, key)[k]
                },
            out@.len() == i,
            forall|k: int|
                0 <= k < i ==> (#[trigger] out@[k])@ == order::of_key(all, key)[k],
        decreases at@.len() - i,
    {
        let place: usize = at[i];
        assert(at@[i as int] < all.len());
        out.push(buffer[place].clone());
        i = i + 1;
    }
    assert(views::all(out@) =~= order::of_key(all, key));
    out
}

fn settle(
    record: Option<Fragment>,
    actions: Vec<FragmentMetadataMutation>,
    key: u64,
) -> (r: Result<Option<Fragment>, Stop>)
    ensures
        match settled(views::opt(record), views::all(actions@), key) {
            Ok(value) => r is Ok && views::opt(r->Ok_0) == value,
            Err(error) => r == Err::<Option<Fragment>, Stop>(Stop::Fail(error->0)) && error
                is Some,
        },
{
    let mut map: BTreeMap<u64, Fragment> = BTreeMap::new();
    let ghost given = views::opt(record);
    proof {
        assert(replay::records(map@) =~= Map::empty());
    }
    if let Some(fragment) = record {
        proof {
            replay::lemma_records_insert(map@, fragment.id, fragment);
        }
        map.insert(fragment.id, fragment);
    }
    assert(replay::records(map@) == single(given));
    match replay::apply_verified(&mut map, actions) {
        Err(error) => Err(Stop::Fail(error)),
        Ok(()) => {
            let found = match map.get(&key) {
                Some(fragment) => Some(fragment.clone()),
                None => None,
            };
            Ok(found)
        },
    }
}

impl FragmentTree {
    /// Resolve one fragment by loading only the root-to-leaf path: at most
    /// `height` reads on a compacted root. Only its own record is decoded.
    ///
    /// Routing follows sibling `min_key` fences (see [`node::child_index_for`]),
    /// and buffered actions from every node on the path are applied with the
    /// same action_sequence ordering as [`FragmentTree::materialize`].
    pub fn resolve_fragment(&self, frag_id: u64) -> (r: Result<Option<Fragment>, Stop>)
        requires
            self@.wf(),
        ensures
            ({
                let wanted = resolved(
                    self@.store,
                    self@.children,
                    order::of_key(self@.buffer, frag_id),
                    frag_id,
                    node::max_height(self@.children) + 1,
                );
                &&& answers(wanted, r)
                &&& r matches Ok(record) ==> wanted == Ok::<Option<FragmentView>, Option<Error>>(
                    views::opt(record),
                )
            }),
            r matches Err(stop) ==> store::honest(stop, self@.store),
    {
        let mut actions = mutations_of(&self.buffer, frag_id);
        let mut children = clone_children(&self.children);
        let ghost wanted = resolved(
            self@.store,
            self@.children,
            order::of_key(self@.buffer, frag_id),
            frag_id,
            node::max_height(self@.children) + 1,
        );
        let ghost mut height: int = node::max_height(self@.children) + 1;
        proof {
            if self@.children.len() > 0 {
                steps::lemma_max_height(self@.children, self@.children[0].height as int);
            }
            assert forall|i: int| 0 <= i < children@.len() implies (
            #[trigger] children@[i])@.height < height by {
                assert(self@.children[i] == views::all(children@)[i]);
            }
        }
        while children.len() > 0
            invariant
                wanted == resolved(
                    self@.store,
                    self@.children,
                    order::of_key(self@.buffer, frag_id),
                    frag_id,
                    node::max_height(self@.children) + 1,
                ),
                wanted == resolved(
                    self@.store,
                    views::all(children@),
                    views::all(actions@),
                    frag_id,
                    height,
                ),
                forall|i: int|
                    0 <= i < children@.len() ==> (#[trigger] children@[i])@.height < height,
                0 <= height,
            decreases height,
        {
            let at: usize = node::child_index_for(&children, frag_id);
            let ghost kids = views::all(children@);
            assert(kids[at as int] == children@[at as int]@);
            let child = children[at].clone();
            if child.height == 0 {
                let mut one: Vec<FragmentMetadataChild> = Vec::new();
                one.push(child.clone());
                let mut buckets: Vec<Vec<FragmentMetadataMutation>> = Vec::new();
                buckets.push(clone_mutations(&actions));
                proof {
                    let refs = views::all(one@);
                    let held = split::bucket_views(buckets@);
                    assert(refs =~= seq![child@]);
                    assert(held =~= seq![views::all(actions@)]);
                    assert(split::routing_fault(refs, held, node::ROOT_EXCLUSIVE_END, 0) is None);
                    assert(split::routing_fault(refs, held, node::ROOT_EXCLUSIVE_END, 1)
                        == split::bucket_fault(
                        child@,
                        node::ROOT_EXCLUSIVE_END,
                        views::all(actions@),
                    ));
                }
                match split::validate_routed(&one, &buckets, node::ROOT_EXCLUSIVE_END) {
                    Ok(()) => {},
                    Err(error) => {
                        return Err(Stop::Fail(error));
                    },
                }
                let record = match self.store.read_leaf_fragment(&child, frag_id) {
                    Ok(record) => record,
                    Err(stop) => {
                        return Err(stop);
                    },
                };
                return settle(record, actions, frag_id);
            }
            let node = match self.store.read_internal(&child) {
                Ok(node) => node,
                Err(stop) => {
                    return Err(stop);
                },
            };
            proof {
                steps::lemma_node_shape(self@.store, child@);
                height = child@.height as int;
                let below = views::all(node.children@);
                assert forall|i: int| 0 <= i < node.children@.len() implies (
                #[trigger] node.children@[i])@.height < height by {
                    assert(below[i] == node.children@[i]@);
                }
            }
            let mut own = mutations_of(&node.buffer, frag_id);
            actions.append(&mut own);
            children = node.children;
        }
        settle(None, actions, frag_id)
    }
}

/// Replaying over a record on its own is replaying its run.
proof fn lemma_settled(record: Option<FragmentView>, actions: Seq<MutationView>, key: u64)
    requires
        settled(record, actions, key) is Ok,
        record matches Some(fragment) ==> fragment.id == key,
    ensures
        replay::outcome(record, order::run(actions, key), false) == Ok::<
            Option<FragmentView>,
            Error,
        >(settled(record, actions, key)->Ok_0),
{
    steps::lemma_replayed_cell(single(record), actions, key);
    assert(replay::lookup(single(record), key) == record);
}

/// Resolving a fragment gives the record the tree holds for it.
proof fn lemma_resolved(
    w: World,
    store: StoreView,
    children: Seq<ChildView>,
    actions: Seq<MutationView>,
    key: u64,
    height: int,
)
    requires
        world::agrees(w, store),
        world::all_sound(w, store),
        resolved(store, children, actions, key, height) is Ok,
        forall|i: int|
            0 <= i < actions.len() ==> (#[trigger] actions[i]).key() == key && world::newest_at(
                w,
                children,
                key,
            ) <= actions[i].action_sequence,
        order::distinct(actions),
        world::proper(world::base_at(w, children, key), key),
    ensures
        world::cell(w, children, actions, key) == Ok::<Option<FragmentView>, Error>(
            resolved(store, children, actions, key, height)->Ok_0,
        ),
    decreases height,
{
    let child = children[node::route(children, key)];
    if children.len() == 0 {
        lemma_settled(None, actions, key);
    } else if child.height == 0 {
        partial::lemma_reads_point(w, store, child, key);
        lemma_settled(partial::point_read(store, child, key)->Ok_0, actions, key);
    } else {
        let (below, buffer) = store::node_read(store, child)->Ok_0;
        let own = order::of_key(buffer, key);
        let joined = actions + own;
        steps::lemma_reads_node(w, store, child);
        assert(lifting::denotes(w, child, below, buffer));
        assert(world::good(world::cell(w, below, buffer, key), key));
        assert((w.record)(child.loc(), key) == world::cell(w, below, buffer, key)->Ok_0);
        assert((w.newest)(child.loc(), key) == world::frontier(w, below, buffer, key));
        assert(world::apart(buffer));
        assert(order::distinct(order::of_key(buffer, key)));
        assert forall|i: int| 0 <= i < own.len() implies (#[trigger] own[i]).key() == key
            && buffer.contains(own[i]) by {
            order::lemma_of_key_contains(buffer, key, own[i]);
            assert(own.contains(own[i]));
        }
        order::lemma_of_key_all(own, key);
        order::lemma_of_key_all(actions, key);
        // The node's own mutations are older than those from above.
        world::lemma_same_run_latest(own, buffer, key);
        assert forall|i: int| 0 <= i < actions.len() && (#[trigger] actions[i]).key()
            == key implies world::latest(own, key) <= actions[i].action_sequence by {
            assert(world::frontier(w, below, buffer, key) >= world::latest(buffer, key));
        }
        world::lemma_run_join(own, actions, joined, key);
        order::lemma_of_key_all(joined, key);
        replay_laws::law_replay_joins(
            world::base_at(w, below, key),
            order::run(own, key),
            order::run(actions, key),
            false,
        );
        assert(world::cell(w, below, joined, key) == world::cell(w, children, actions, key));
        assert forall|i: int| 0 <= i < joined.len() implies (#[trigger] joined[i]).key() == key
            && world::newest_at(w, below, key) <= joined[i].action_sequence by {
            if i < actions.len() {
                assert(joined[i] == actions[i]);
            } else {
                let m = own[i - actions.len()];
                assert(joined[i] == m);
                let a = choose|a: int| 0 <= a < buffer.len() && buffer[a] == m;
                assert(world::fresh(w, below, buffer));
                assert(buffer[a].key() == key);
            }
        }
        assert(world::proper(world::base_at(w, below, key), key)) by {
            node::lemma_route(below, key);
            assert(world::proper(w.rec(below[node::route(below, key)], key), key));
        }
        lemma_resolved(w, store, below, joined, key, child.height as int);
    }
}

/// In every world that agrees with the objects and in which the tree is
/// sound, resolving a fragment gives the record the tree holds for it.
pub proof fn law_resolving_gives_the_record(w: World, t: TreeView, key: u64)
    requires
        world::agrees(w, t.store),
        world::all_sound(w, t.store),
        world::sound(w, t.children, t.buffer),
        resolved(
            t.store,
            t.children,
            order::of_key(t.buffer, key),
            key,
            node::max_height(t.children) + 1,
        ) is Ok,
    ensures
        world::cell(w, t.children, t.buffer, key) == Ok::<Option<FragmentView>, Error>(
            resolved(
                t.store,
                t.children,
                order::of_key(t.buffer, key),
                key,
                node::max_height(t.children) + 1,
            )->Ok_0,
        ),
{
    let own = order::of_key(t.buffer, key);
    assert(order::distinct(order::of_key(t.buffer, key)));
    assert forall|i: int| 0 <= i < own.len() implies (#[trigger] own[i]).key() == key
        && world::newest_at(w, t.children, key) <= own[i].action_sequence by {
        order::lemma_of_key_contains(t.buffer, key, own[i]);
        assert(own.contains(own[i]));
        let a = choose|a: int| 0 <= a < t.buffer.len() && t.buffer[a] == own[i];
        assert(t.buffer[a].key() == key);
    }
    assert(world::proper(world::base_at(w, t.children, key), key)) by {
        if t.children.len() > 0 {
            node::lemma_route(t.children, key);
            assert(world::proper(w.rec(t.children[node::route(t.children, key)], key), key));
        }
    }
    order::lemma_of_key_all(own, key);
    lemma_resolved(w, t.store, t.children, own, key, node::max_height(t.children) + 1);
    assert(order::run(own, key) == order::run(t.buffer, key));
}

} // verus!
