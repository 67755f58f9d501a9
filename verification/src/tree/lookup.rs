//! Resolving sets of fragments.

use std::collections::{BTreeMap, BTreeSet};

use roaring::RoaringBitmap;
use vstd::prelude::*;

use crate::bitmap;
use crate::commit::TouchedFragments;
use crate::drain;
use crate::error::{Error, Reason};
use crate::leaves;
use crate::node;
use crate::order;
use crate::pb::{clone_children, clone_mutations, ChildView, FragmentMetadataChild,
    FragmentMetadataMutation, MutationView};
use crate::record::{Fragment, FragmentView};
use crate::replay;
use crate::split;
use crate::steps;
use crate::store;
use crate::store::{NodeStore, Stop, StoreView};
use crate::tree::reads;
use crate::tree::walk;
use crate::tree::walk::{BufferedChild, Found, RoutedLeaf};
use crate::tree::{FragmentTree, TreeView};
use crate::views;
use crate::world;

verus! {

broadcast use {crate::views::group_views, vstd::std_specs::btree::group_btree_axioms};

/// The mutations of a set of fragments.
pub open spec fn chosen(buffer: Seq<MutationView>, ids: Set<u32>) -> Seq<MutationView> {
    buffer.filter(|m: MutationView| bitmap::holds(ids, m.key()))
}

fn choose_mutations(
    buffer: &Vec<FragmentMetadataMutation>,
    fragment_ids: &RoaringBitmap,
) -> (r: Vec<FragmentMetadataMutation>)
    ensures
        views::all(r@) == chosen(views::all(buffer@), bitmap::members(*fragment_ids)),
{
    let ghost ids = bitmap::members(*fragment_ids);
    let ghost all = views::all(buffer@);
    let ghost pred = |m: MutationView| bitmap::holds(ids, m.key());
    let mut out: Vec<FragmentMetadataMutation> = Vec::new();
    let mut i: usize = 0;
    assert(all.take(0).filter(pred) =~= Seq::<MutationView>::empty());
    while i < buffer.len()
        invariant
            i <= buffer@.len(),
            all == views::all(buffer@),
            ids == bitmap::members(*fragment_ids),
            pred == (|m: MutationView| bitmap::holds(ids, m.key())),
            views::all(out@) == all.take(i as int).filter(pred),
        decreases buffer@.len() - i,
    {
        proof {
            assert(all.take(i + 1) =~= all.take(i as int).push(buffer@[i as int]@));
            all.take(i as int).lemma_filter_push(buffer@[i as int]@, pred);
        }
        if bitmap::bitmap_contains(fragment_ids, node::action_key(&buffer[i])) {
            out.push(buffer[i].clone());
        }
        i = i + 1;
    }
    assert(all.take(all.len() as int) =~= all);
    out
}

/// Where the range of a child starts in a level that starts at `start`.
pub open spec fn start_of(children: Seq<ChildView>, index: int, start: u64) -> u64 {
    if index == 0 {
        start
    } else {
        children[index].min_key
    }
}

/// The leaves at and below a child whose range meets a set of ids, with the
/// mutations for those ids. The child's range runs from `start` to `end`.
pub open spec fn covered(
    store: StoreView,
    child: ChildView,
    actions: Seq<MutationView>,
    start: u64,
    end: u64,
    ids: Set<u32>,
) -> Found<RoutedLeaf>
    decreases child.height, 1int, 0int,
{
    if child.height == 0 {
        Found { items: seq![RoutedLeaf { child, actions }], error: None }
    } else {
        match store::node_read(store, child) {
            Err(error) => Found::failed(error),
            Ok((children, buffer)) => covered_level(
                store,
                children,
                actions + chosen(buffer, ids),
                start,
                end,
                ids,
                child.height as int,
                child.min_key,
            ),
        }
    }
}

/// The leaves below a level whose range meets a set of ids.
pub open spec fn covered_level(
    store: StoreView,
    children: Seq<ChildView>,
    pending: Seq<MutationView>,
    start: u64,
    end: u64,
    ids: Set<u32>,
    height: int,
    min_key: u64,
) -> Found<RoutedLeaf>
    decreases height, 0int, children.len() + 1,
{
    if children.len() == 0 {
        Found::failed(
            Some(Error::CorruptFile { reason: Reason::NodeWithoutChildren { min_key } }),
        )
    } else {
        match walk::level_fault(children, pending, end) {
            Some(reason) => Found::failed(Some(Error::CorruptFile { reason })),
            None => covered_from(store, children, pending, start, end, ids, height, 0),
        }
    }
}

/// The leaves below the children of a level from one of them on.
pub open spec fn covered_from(
    store: StoreView,
    children: Seq<ChildView>,
    pending: Seq<MutationView>,
    start: u64,
    end: u64,
    ids: Set<u32>,
    height: int,
    from: int,
) -> Found<RoutedLeaf>
    decreases height, 0int, children.len() - from,
{
    if from < 0 || from >= children.len() || children[from].height >= height {
        Found::nothing()
    } else {
        let rest = covered_from(store, children, pending, start, end, ids, height, from + 1);
        let low = start_of(children, from, start);
        let high = node::end_of(children, from, end);
        if bitmap::meets(ids, low, high) {
            covered(
                store,
                children[from],
                split::bucket(children, pending, from),
                low,
                high,
                ids,
            ).then_walk(rest)
        } else {
            rest
        }
    }
}

/// Whether a stop is what a search ends with.
pub open spec fn ended(error: Option<Option<Error>>, stop: Option<Stop>) -> bool {
    match error {
        None => stop is None,
        Some(Some(error)) => stop == Some(Stop::Fail(error)),
        Some(None) => stop matches Some(Stop::Need(_)),
    }
}

fn cover(
    store: &NodeStore,
    child: &FragmentMetadataChild,
    actions: &Vec<FragmentMetadataMutation>,
    start: u64,
    end: u64,
    fragment_ids: &RoaringBitmap,
    out: &mut Vec<BufferedChild>,
) -> (r: Option<Stop>)
    ensures
        ({
            let found = covered(
                store@,
                child@,
                views::all(actions@),
                start,
                end,
                bitmap::members(*fragment_ids),
            );
            &&& ended(found.error, r)
            &&& views::all(final(out)@) == views::all(old(out)@) + found.items
        }),
        r matches Some(stop) ==> store::honest(stop, store@),
    decreases child@.height, 1int, 0int,
{
    let ghost before = views::all(out@);
    if child.height == 0 {
        out.push(BufferedChild { child: child.clone(), actions: clone_mutations(actions) });
        assert(views::all(out@) =~= before + seq![
            RoutedLeaf { child: child@, actions: views::all(actions@) },
        ]);
        return None;
    }
    let node = match store.read_internal(child) {
        Ok(node) => node,
        Err(stop) => {
            assert(views::all(out@) =~= before + Seq::<RoutedLeaf>::empty());
            return Some(stop);
        },
    };
    let mut pending = clone_mutations(actions);
    let mut own = choose_mutations(&node.buffer, fragment_ids);
    pending.append(&mut own);
    proof {
        steps::lemma_node_shape(store@, child@);
        let kids = views::all(node.children@);
        assert forall|i: int| 0 <= i < kids.len() implies (#[trigger] kids[i]).height
            < child@.height as int by {}
    }
    cover_level(
        store,
        node.children,
        pending,
        start,
        end,
        fragment_ids,
        child.min_key,
        out,
        Ghost(child@.height as int),
    )
}

fn cover_level(
    store: &NodeStore,
    children: Vec<FragmentMetadataChild>,
    pending: Vec<FragmentMetadataMutation>,
    start: u64,
    end: u64,
    fragment_ids: &RoaringBitmap,
    min_key: u64,
    out: &mut Vec<BufferedChild>,
    Ghost(height): Ghost<int>,
) -> (r: Option<Stop>)
    requires
        forall|i: int|
            0 <= i < children@.len() ==> (#[trigger] views::all(children@)[i]).height < height,
    ensures
        ({
            let found = covered_level(
                store@,
                views::all(children@),
                views::all(pending@),
                start,
                end,
                bitmap::members(*fragment_ids),
                height,
                min_key,
            );
            &&& ended(found.error, r)
            &&& views::all(final(out)@) == views::all(old(out)@) + found.items
        }),
        r matches Some(stop) ==> store::honest(stop, store@),
    decreases height, 0int, 0int,
{
    let ghost before = views::all(out@);
    let ghost kids = views::all(children@);
    let ghost given = views::all(pending@);
    let ghost ids = bitmap::members(*fragment_ids);
    assert(before + Seq::<RoutedLeaf>::empty() =~= before);
    if children.len() == 0 {
        return Some(
            Stop::Fail(Error::CorruptFile { reason: Reason::NodeWithoutChildren { min_key } }),
        );
    }
    let held = split::partition_buffer_by_child(&children, pending);
    proof {
        assert(split::bucket_views(held@) =~= walk::buckets(kids, given));
    }
    match split::validate_routed(&children, &held, end) {
        Ok(()) => {},
        Err(error) => {
            return Some(Stop::Fail(error));
        },
    }
    let ghost whole = covered_from(store@, kids, given, start, end, ids, height, 0);
    let ghost mut done = Seq::<RoutedLeaf>::empty();
    let mut from: usize = 0;
    proof {
        assert(done + whole.items =~= whole.items);
        assert(views::all(out@) =~= before + done);
    }
    while from < children.len()
        invariant
            from <= children@.len(),
            kids == views::all(children@),
            ids == bitmap::members(*fragment_ids),
            held@.len() == children@.len(),
            forall|i: int|
                0 <= i < held@.len() ==> views::all((#[trigger] held@[i])@) == split::bucket(
                    kids,
                    given,
                    i,
                ),
            forall|i: int| 0 <= i < kids.len() ==> (#[trigger] kids[i]).height < height,
            whole == covered_from(store@, kids, given, start, end, ids, height, 0),
            ({
                let rest = covered_from(
                    store@,
                    kids,
                    given,
                    start,
                    end,
                    ids,
                    height,
                    from as int,
                );
                whole.items == done + rest.items && whole.error == rest.error
            }),
            before == views::all(old(out)@),
            views::all(out@) == before + done,
            children@.len() > 0,
            given == views::all(pending@),
            walk::level_fault(kids, given, end) is None,
        decreases children@.len() - from,
    {
        let low: u64 = if from == 0 {
            start
        } else {
            children[from].min_key
        };
        let high: u64 = node::exclusive_end(&children, from, end);
        let ghost rest = covered_from(
            store@,
            kids,
            given,
            start,
            end,
            ids,
            height,
            from as int,
        );
        let ghost next = covered_from(store@, kids, given, start, end, ids, height, from + 1);
        proof {
            assert(kids[from as int].height < height);
            assert(kids[from as int] == children@[from as int]@);
            assert(views::all(held@[from as int]@) == split::bucket(kids, given, from as int));
        }
        if bitmap::bitmap_intersects_range(fragment_ids, low, high) {
            let ghost found = covered(
                store@,
                kids[from as int],
                split::bucket(kids, given, from as int),
                low,
                high,
                ids,
            );
            let stop = cover(store, &children[from], &held[from], low, high, fragment_ids, out);
            proof {
                assert(views::all(out@) =~= before + (done + found.items));
                if found.error is None {
                    assert(done + rest.items =~= (done + found.items) + next.items);
                }
                done = done + found.items;
            }
            if stop.is_some() {
                return stop;
            }
        }
        from = from + 1;
    }
    assert(done + Seq::<RoutedLeaf>::empty() =~= done);
    None
}

// The records of the covering leaves.

/// The records of some ids.
pub open spec fn picked(state: Map<u64, FragmentView>, ids: Set<u32>) -> Map<u64, FragmentView> {
    state.restrict(Set::new(|key: u64| bitmap::holds(ids, key)))
}

/// What a covering leaf comes to for a set of ids.
pub open spec fn leaf_part(store: StoreView, leaf: RoutedLeaf, ids: Set<u32>) -> Result<
    Map<u64, FragmentView>,
    Option<Error>,
> {
    match store::leaf_read(store, leaf.child) {
        Err(error) => Err(error),
        Ok(records) => {
            let (state, error) = replay::replayed(
                picked(steps::indexed(records), ids),
                leaf.actions,
                true,
            );
            match error {
                Some(error) => Err(Some(error)),
                None => Ok(state),
            }
        },
    }
}

/// What covering leaves come to, a later one in place of an earlier one.
pub open spec fn parts(store: StoreView, leaves: Seq<RoutedLeaf>, ids: Set<u32>) -> Result<
    Map<u64, FragmentView>,
    Option<Error>,
>
    decreases leaves.len(),
{
    if leaves.len() == 0 {
        Ok(Map::empty())
    } else {
        match parts(store, leaves.drop_last(), ids) {
            Err(error) => Err(error),
            Ok(state) => match leaf_part(store, leaves.last(), ids) {
                Err(error) => Err(error),
                Ok(more) => Ok(state.union_prefer_right(more)),
            },
        }
    }
}

/// The leaves of a tree whose range meets a set of ids.
pub open spec fn covering(t: TreeView, ids: Set<u32>) -> Found<RoutedLeaf> {
    covered_level(
        t.store,
        t.children,
        chosen(t.buffer, ids),
        0,
        node::ROOT_EXCLUSIVE_END,
        ids,
        node::max_height(t.children) + 1,
        0,
    )
}

/// The records a tree holds for a set of ids, by id.
pub open spec fn selection(t: TreeView, ids: Set<u32>) -> Result<
    Map<u64, FragmentView>,
    Option<Error>,
> {
    if t.children.len() == 0 {
        let (state, error) = replay::replayed(Map::empty(), chosen(t.buffer, ids), true);
        match error {
            Some(error) => Err(Some(error)),
            None => Ok(state),
        }
    } else {
        let found = covering(t, ids);
        if found.error is Some {
            Err(found.error->0)
        } else {
            parts(t.store, found.items, ids)
        }
    }
}

proof fn lemma_parts_prefix(store: StoreView, leaves: Seq<RoutedLeaf>, ids: Set<u32>, n: int)
    requires
        0 <= n <= leaves.len(),
        parts(store, leaves.take(n), ids) is Err,
    ensures
        parts(store, leaves, ids) == parts(store, leaves.take(n), ids),
    decreases leaves.len() - n,
{
    if n == leaves.len() {
        assert(leaves.take(n) =~= leaves);
    } else {
        assert(leaves.take(n + 1).drop_last() =~= leaves.take(n));
        lemma_parts_prefix(store, leaves, ids, n + 1);
    }
}

fn pick_records(records: &Vec<Fragment>, fragment_ids: &RoaringBitmap) -> (r: BTreeMap<u64, Fragment>)
    requires
        store::ascending(views::all(records@)),
    ensures
        replay::records(r@) == picked(
            steps::indexed(views::all(records@)),
            bitmap::members(*fragment_ids),
        ),
{
    let ghost ids = bitmap::members(*fragment_ids);
    let ghost all = views::all(records@);
    let mut map: BTreeMap<u64, Fragment> = BTreeMap::new();
    let mut i: usize = 0;
    assert(replay::records(map@) =~= picked(steps::indexed(all.take(0)), ids));
    while i < records.len()
        invariant
            i <= records@.len(),
            all == views::all(records@),
            ids == bitmap::members(*fragment_ids),
            store::ascending(all),
            replay::records(map@) == picked(steps::indexed(all.take(i as int)), ids),
        decreases records@.len() - i,
    {
        let ghost x = all[i as int];
        let ghost before = steps::indexed(all.take(i as int));
        proof {
            assert(all.take(i + 1) =~= all.take(i as int).push(x));
            walk::lemma_indexed_push(all.take(i as int), x);
            assert(x == records@[i as int]@);
        }
        if bitmap::bitmap_contains(fragment_ids, records[i].id) {
            let record = records[i].clone();
            proof {
                replay::lemma_records_insert(map@, record.id, record);
                assert(picked(before.insert(x.id, x), ids) =~= picked(before, ids).insert(
                    x.id,
                    x,
                ));
            }
            map.insert(record.id, record);
        } else {
            assert(picked(before.insert(x.id, x), ids) =~= picked(before, ids));
        }
        i = i + 1;
    }
    assert(all.take(all.len() as int) =~= all);
    map
}

/// Put the records of one map into another.
fn extend_map(map: &mut BTreeMap<u64, Fragment>, more: BTreeMap<u64, Fragment>)
    requires
        forall|key: u64| #[trigger] more@.contains_key(key) ==> more@[key]@.id == key,
    ensures
        replay::records(final(map)@) == replay::records(old(map)@).union_prefer_right(
            replay::records(more@),
        ),
{
    let listed = drain::list_records(&more);
    let ghost all = views::all(listed@);
    proof {
        let state = replay::records(more@);
        assert(steps::indexed(all) =~= state) by {
            assert forall|key: u64| #![trigger state.contains_key(key)]
                steps::indexed(all).contains_key(key) == state.contains_key(key) && (
                state.contains_key(key) ==> steps::indexed(all)[key] == state[key]) by {
                assert(world::found(all, key) == replay::lookup(state, key));
            }
        }
    }
    walk::add_records(map, listed);
}

fn read_part(store: &NodeStore, leaf: &BufferedChild, fragment_ids: &RoaringBitmap) -> (r: Result<
    BTreeMap<u64, Fragment>,
    Stop,
>)
    ensures
        ({
            let wanted = leaf_part(store@, leaf@, bitmap::members(*fragment_ids));
            &&& reads::answers(wanted, r)
            &&& r matches Ok(map) ==> wanted == Ok::<Map<u64, FragmentView>, Option<Error>>(
                replay::records(map@),
            ) && forall|key: u64| #[trigger] map@.contains_key(key) ==> map@[key]@.id == key
        }),
        r matches Err(stop) ==> store::honest(stop, store@),
{
    let records = match store.read_leaf(&leaf.child) {
        Ok(records) => records,
        Err(stop) => {
            return Err(stop);
        },
    };
    let ghost all = views::all(records@);
    proof {
        steps::lemma_leaf_shape(store@, leaf@.child);
    }
    let mut map = pick_records(&records, fragment_ids);
    let ghost start = replay::records(map@);
    match replay::apply_verified(&mut map, clone_mutations(&leaf.actions)) {
        Ok(()) => {},
        Err(error) => {
            return Err(Stop::Fail(error));
        },
    }
    proof {
        assert forall|key: u64| #[trigger] start.contains_key(key) implies start[key].id
            == key by {
            assert(steps::indexed(all).contains_key(key));
            let k = leaves::lemma_found_some(all, key);
        }
        drain::lemma_replayed_ids(start, leaf@.actions, true);
        let after = replay::records(map@);
        assert forall|key: u64| #[trigger] map@.contains_key(key) implies map@[key]@.id == key by {
            assert(after.contains_key(key));
            assert(after[key] == map@[key]@);
        }
    }
    Ok(map)
}

impl FragmentTree {
    fn select(&self, fragment_ids: &RoaringBitmap) -> (r: Result<BTreeMap<u64, Fragment>, Stop>)
        requires
            self@.wf(),
        ensures
            ({
                let wanted = selection(self@, bitmap::members(*fragment_ids));
                &&& reads::answers(wanted, r)
                &&& r matches Ok(map) ==> wanted == Ok::<Map<u64, FragmentView>, Option<Error>>(
                    replay::records(map@),
                ) && forall|key: u64| #[trigger] map@.contains_key(key) ==> map@[key]@.id == key
            }),
            r matches Err(stop) ==> store::honest(stop, self@.store),
    {
        let ghost ids = bitmap::members(*fragment_ids);
        let mut map: BTreeMap<u64, Fragment> = BTreeMap::new();
        assert(replay::records(map@) =~= Map::empty());
        let actions = choose_mutations(&self.buffer, fragment_ids);
        if self.children.len() == 0 {
            match replay::apply_verified(&mut map, actions) {
                Ok(()) => {},
                Err(error) => {
                    return Err(Stop::Fail(error));
                },
            }
            proof {
                drain::lemma_replayed_ids(Map::empty(), chosen(self@.buffer, ids), true);
                let after = replay::records(map@);
                assert forall|key: u64| #[trigger] map@.contains_key(key) implies map@[key]@.id
                    == key by {
                    assert(after.contains_key(key));
                    assert(after[key] == map@[key]@);
                }
            }
            return Ok(map);
        }
        let mut found: Vec<BufferedChild> = Vec::new();
        proof {
            let kids = self@.children;
            steps::lemma_max_height(kids, kids[0].height as int);
        }
        let stop = cover_level(
            &self.store,
            clone_children(&self.children),
            actions,
            0,
            node::ROOT_EXCLUSIVE_END,
            fragment_ids,
            0,
            &mut found,
            Ghost(node::max_height(self@.children) + 1),
        );
        if let Some(stop) = stop {
            return Err(stop);
        }
        let ghost all = views::all(found@);
        let ghost store = self@.store;
        assert(all =~= covering(self@, ids).items);
        let mut i: usize = 0;
        while i < found.len()
            invariant
                i <= found@.len(),
                all == views::all(found@),
                store == self@.store,
                ids == bitmap::members(*fragment_ids),
                self@.children.len() > 0,
                covering(self@, ids) == (Found { items: all, error: None }),
                parts(store, all.take(i as int), ids) == Ok::<
                    Map<u64, FragmentView>,
                    Option<Error>,
                >(replay::records(map@)),
                forall|key: u64| #[trigger] map@.contains_key(key) ==> map@[key]@.id == key,
            decreases found@.len() - i,
        {
            proof {
                assert(all.take(i + 1).drop_last() =~= all.take(i as int));
                assert(all.take(i + 1).last() == found@[i as int]@);
                if parts(store, all.take(i + 1), ids) is Err {
                    lemma_parts_prefix(store, all, ids, i + 1);
                }
            }
            let part = match read_part(&self.store, &found[i], fragment_ids) {
                Ok(part) => part,
                Err(stop) => {
                    return Err(stop);
                },
            };
            let ghost before = map@;
            let ghost more = part@;
            extend_map(&mut map, part);
            proof {
                let after = replay::records(map@);
                assert forall|key: u64| #[trigger] map@.contains_key(key) implies map@[key]@.id
                    == key by {
                    assert(after.contains_key(key));
                    assert(after[key] == map@[key]@);
                    if more.contains_key(key) {
                        assert(replay::records(more).contains_key(key));
                    } else {
                        assert(replay::records(before).contains_key(key));
                        assert(before.contains_key(key));
                    }
                }
            }
            i = i + 1;
        }
        assert(all.take(all.len() as int) =~= all);
        Ok(map)
    }

    /// Resolve a set of fragment ids while loading only the subtrees whose
    /// routing range intersects the set.
    ///
    /// Prune by routing fences, since buffered inserts may extend a leaf's
    /// stored key range. Each covering node or leaf is loaded at most once.
    pub fn resolve_fragments(&self, fragment_ids: &RoaringBitmap) -> (r: Result<Vec<Fragment>, Stop>)
        requires
            self@.wf(),
        ensures
            ({
                let wanted = selection(self@, bitmap::members(*fragment_ids));
                &&& reads::answers(wanted, r)
                &&& r matches Ok(rows) ==> wanted is Ok && steps::lists(
                    views::all(rows@),
                    wanted->Ok_0,
                )
            }),
            r matches Err(stop) ==> store::honest(stop, self@.store),
    {
        self.resolve_fragments_concurrent(fragment_ids, 1)
    }

    /// Same as [`FragmentTree::resolve_fragments`]. The objects it needs are
    /// handed over by the caller, which may overlap their reads: with a
    /// concurrency above one, several requests can be served at once.
    pub fn resolve_fragments_concurrent(
        &self,
        fragment_ids: &RoaringBitmap,
        concurrency: usize,
    ) -> (r: Result<Vec<Fragment>, Stop>)
        requires
            self@.wf(),
        ensures
            ({
                let wanted = selection(self@, bitmap::members(*fragment_ids));
                &&& reads::answers(wanted, r)
                &&& r matches Ok(rows) ==> wanted is Ok && steps::lists(
                    views::all(rows@),
                    wanted->Ok_0,
                )
            }),
            r matches Err(stop) ==> store::honest(stop, self@.store),
    {
        match self.select(fragment_ids) {
            Ok(map) => Ok(drain::list_records(&map)),
            Err(stop) => Err(stop),
        }
    }
}

// The fragments a commit touches.

/// A set of ids as the tree's own set, where every id fits.
pub open spec fn narrowed(ids: Seq<u64>) -> Set<u32> {
    Set::new(|id: u32| ids.contains(id as u64))
}

pub open spec fn all_fit(ids: Seq<u64>) -> bool {
    forall|i: int| 0 <= i < ids.len() ==> (#[trigger] ids[i]) <= u32::MAX
}

/// The record a tree resolves for one fragment.
pub open spec fn one_resolved(t: TreeView, id: u64) -> Result<Option<FragmentView>, Option<Error>> {
    reads::resolved(
        t.store,
        t.children,
        order::of_key(t.buffer, id),
        id,
        node::max_height(t.children) + 1,
    )
}

/// Whether a stop is that of the smallest of some ids that does not resolve:
/// its refusal, or a need where an object on its path is missing.
pub open spec fn stops_at_one(t: TreeView, ids: Seq<u64>, stop: Stop) -> bool {
    exists|id: u64| #[trigger]
        ids.contains(id) && (forall|other: u64| #[trigger]
            ids.contains(other) && other < id ==> one_resolved(t, other) is Ok) && match stop {
            Stop::Fail(error) => one_resolved(t, id) == Err::<Option<FragmentView>, Option<Error>>(
                Some(error),
            ),
            Stop::Need(_) => one_resolved(t, id) == Err::<Option<FragmentView>, Option<Error>>(
                None,
            ),
            Stop::Collapsed => false,
        }
}

/// Whether resolved fragments are what a tree resolves for some ids.
pub open spec fn touches(
    t: TreeView,
    ids: Seq<u64>,
    touched: crate::commit::TouchedView,
) -> bool {
    &&& touched.ids == ids.to_set()
    &&& if ids.len() > 0 && all_fit(ids) {
        selection(t, narrowed(ids)) == Ok::<Map<u64, FragmentView>, Option<Error>>(
            touched.fragments,
        )
    } else {
        &&& forall|i: int|
            0 <= i < ids.len() ==> one_resolved(t, #[trigger] ids[i]) == Ok::<
                Option<FragmentView>,
                Option<Error>,
            >(replay::lookup(touched.fragments, ids[i]))
        &&& forall|key: u64| #[trigger] touched.fragments.contains_key(key) ==> ids.contains(key)
    }
}

/// The ids as narrow numbers, where every one fits.
fn narrow(ids: &Vec<u64>) -> (r: Option<Vec<u32>>)
    ensures
        r is Some == all_fit(ids@),
        r matches Some(out) ==> out@.to_set() == narrowed(ids@),
{
    let mut out: Vec<u32> = Vec::new();
    let mut i: usize = 0;
    while i < ids.len()
        invariant
            i <= ids@.len(),
            out@.len() == i,
            forall|k: int| 0 <= k < i ==> (#[trigger] ids@[k]) <= u32::MAX,
            forall|k: int| 0 <= k < i ==> (#[trigger] out@[k]) == ids@[k],
        decreases ids@.len() - i,
    {
        if ids[i] > u32::MAX as u64 {
            return None;
        }
        out.push(ids[i] as u32);
        i = i + 1;
    }
    proof {
        assert forall|id: u32| #[trigger] out@.to_set().contains(id) == narrowed(ids@).contains(
            id,
        ) by {
            if out@.contains(id) {
                let k = choose|k: int| 0 <= k < out@.len() && out@[k] == id;
                assert(ids@[k] == id);
            }
            if ids@.contains(id as u64) {
                let k = choose|k: int| 0 <= k < ids@.len() && ids@[k] == id as u64;
                assert(out@[k] == id);
            }
        }
        assert(out@.to_set() =~= narrowed(ids@));
    }
    Some(out)
}

fn id_set(ids: &Vec<u64>) -> (r: BTreeSet<u64>)
    ensures
        r@ == ids@.to_set(),
{
    let mut out: BTreeSet<u64> = BTreeSet::new();
    let mut i: usize = 0;
    assert(out@ =~= ids@.take(0).to_set());
    while i < ids.len()
        invariant
            i <= ids@.len(),
            out@ == ids@.take(i as int).to_set(),
        decreases ids@.len() - i,
    {
        proof {
            let before = ids@.take(i as int);
            let after = ids@.take(i + 1);
            assert(after =~= before.push(ids@[i as int]));
            assert forall|id: u64| #[trigger] after.to_set().contains(id) == before.to_set().insert(
                ids@[i as int],
            ).contains(id) by {
                if before.contains(id) {
                    let k = choose|k: int| 0 <= k < before.len() && before[k] == id;
                    assert(after[k] == id);
                }
                if after.contains(id) {
                    let k = choose|k: int| 0 <= k < after.len() && after[k] == id;
                    if k < before.len() {
                        assert(before[k] == id);
                    }
                }
                assert(after[i as int] == ids@[i as int]);
            }
            assert(after.to_set() =~= before.to_set().insert(ids@[i as int]));
        }
        out.insert(ids[i]);
        i = i + 1;
    }
    assert(ids@.take(ids@.len() as int) =~= ids@);
    out
}

/// Ids in increasing order, each once.
fn ascending_ids(ids: &BTreeSet<u64>) -> (r: Vec<u64>)
    ensures
        r@.to_set() == ids@,
        forall|i: int, j: int| 0 <= i < j < r@.len() ==> #[trigger] r@[i] < #[trigger] r@[j],
{
    let mut out: Vec<u64> = Vec::new();
    let members = ids.iter();
    let ghost all = vstd::std_specs::iter::IteratorSpec::remaining(&members);
    assert(vstd::std_specs::btree::increasing_seq(all));
    assert forall|i: int, j: int| 0 <= i < j < all.len() implies *(#[trigger] all[i]) < *(
    #[trigger] all[j]) by {
        assert(vstd::std_specs::cmp::OrdSpec::cmp_spec(&all[i], &all[j]) is Less);
    }
    for id in iter: members
        invariant
            iter.seq() == all,
            out@.len() == iter.index(),
            forall|i: int| 0 <= i < out@.len() ==> #[trigger] out@[i] == *all[i],
    {
        out.push(*id);
    }
    assert(out@ =~= all.unref());
    out
}

impl FragmentTree {
    /// Resolve ids one by one, in increasing order.
    fn resolve_each(&self, ids: &Vec<u64>) -> (r: Result<BTreeMap<u64, Fragment>, Stop>)
        requires
            self@.wf(),
            forall|i: int, j: int|
                0 <= i < j < ids@.len() ==> #[trigger] ids@[i] < #[trigger] ids@[j],
        ensures
            r matches Ok(map) ==> {
                &&& forall|i: int|
                    0 <= i < ids@.len() ==> one_resolved(self@, #[trigger] ids@[i]) == Ok::<
                        Option<FragmentView>,
                        Option<Error>,
                    >(replay::lookup(replay::records(map@), ids@[i]))
                &&& forall|key: u64| #[trigger]
                    replay::records(map@).contains_key(key) ==> ids@.contains(key)
            },
            r matches Err(stop) ==> store::honest(stop, self@.store) && stops_at_one(
                self@,
                ids@,
                stop,
            ),
    {
        let mut map: BTreeMap<u64, Fragment> = BTreeMap::new();
        assert(replay::records(map@) =~= Map::empty());
        let mut i: usize = 0;
        while i < ids.len()
            invariant
                i <= ids@.len(),
                self@.wf(),
                forall|a: int, b: int|
                    0 <= a < b < ids@.len() ==> #[trigger] ids@[a] < #[trigger] ids@[b],
                forall|k: int|
                    0 <= k < i ==> one_resolved(self@, #[trigger] ids@[k]) == Ok::<
                        Option<FragmentView>,
                        Option<Error>,
                    >(replay::lookup(replay::records(map@), ids@[k])),
                forall|key: u64| #[trigger]
                    replay::records(map@).contains_key(key) ==> ids@.take(i as int).contains(key),
            decreases ids@.len() - i,
        {
            let id: u64 = ids[i];
            let ghost before = replay::records(map@);
            let found = match self.resolve_fragment(id) {
                Ok(found) => found,
                Err(stop) => {
                    proof {
                        assert(ids@[i as int] == id);
                        assert(ids@.contains(id));
                        assert forall|other: u64| #[trigger]
                            ids@.contains(other) && other < id implies one_resolved(
                            self@,
                            other,
                        ) is Ok by {
                            let k = choose|k: int| 0 <= k < ids@.len() && ids@[k] == other;
                            assert(one_resolved(self@, ids@[k]) is Ok);
                        }
                    }
                    return Err(stop);
                },
            };
            let ghost wanted = views::opt(found);
            match found {
                Some(fragment) => {
                    proof {
                        replay::lemma_records_insert(map@, id, fragment);
                    }
                    map.insert(id, fragment);
                },
                None => {
                    proof {
                        replay::lemma_records_remove(map@, id);
                    }
                    map.remove(&id);
                },
            }
            proof {
                let after = replay::records(map@);
                assert(replay::lookup(after, id) == wanted);
                assert forall|k: int| 0 <= k < i + 1 implies one_resolved(
                    self@,
                    #[trigger] ids@[k],
                ) == Ok::<Option<FragmentView>, Option<Error>>(
                    replay::lookup(after, ids@[k]),
                ) by {
                    if ids@[k] != id {
                        assert(k < i);
                        assert(replay::lookup(after, ids@[k]) == replay::lookup(before, ids@[k]));
                    }
                }
                assert forall|key: u64| #[trigger] after.contains_key(key) implies ids@.take(
                    i + 1,
                ).contains(key) by {
                    assert(ids@.take(i + 1)[i as int] == id);
                    if key != id {
                        assert(before.contains_key(key));
                        let k = choose|k: int|
                            0 <= k < ids@.take(i as int).len() && ids@.take(i as int)[k] == key;
                        assert(ids@.take(i + 1)[k] == key);
                    }
                }
            }
            i = i + 1;
        }
        assert(ids@.take(ids@.len() as int) =~= ids@);
        Ok(map)
    }

    /// Resolve the fragments a commit touches, sharing reads within each
    /// subtree.
    pub fn resolve_touched(&self, fragment_ids: &Vec<u64>) -> (r: Result<TouchedFragments, Stop>)
        requires
            self@.wf(),
        ensures
            r matches Ok(touched) ==> touches(self@, fragment_ids@, touched@),
            r matches Err(stop) ==> store::honest(stop, self@.store) && if fragment_ids@.len() > 0
                && all_fit(fragment_ids@) {
                selection(self@, narrowed(fragment_ids@)) == Err::<
                    Map<u64, FragmentView>,
                    Option<Error>,
                >(
                    match stop {
                        Stop::Fail(error) => Some(error),
                        _ => None,
                    },
                )
            } else {
                stops_at_one(self@, fragment_ids@, stop)
            },
            fragment_ids@.len() == 0 ==> r is Ok,
    {
        let ids = id_set(fragment_ids);
        if fragment_ids.len() == 0 {
            let touched = TouchedFragments { ids, fragments: BTreeMap::new() };
            assert(touched@.fragments =~= Map::empty());
            return Ok(touched);
        }
        match narrow(fragment_ids) {
            Some(values) => match self.select(&bitmap::collect(values)) {
                Ok(fragments) => Ok(TouchedFragments { ids, fragments }),
                Err(stop) => Err(stop),
            },
            None => {
                let ordered = ascending_ids(&ids);
                assert forall|id: u64| #[trigger]
                    fragment_ids@.contains(id) == ordered@.contains(id) by {
                    assert(fragment_ids@.to_set().contains(id) == ordered@.to_set().contains(id));
                }
                match self.resolve_each(&ordered) {
                    Ok(fragments) => {
                        assert forall|i: int| 0 <= i < fragment_ids@.len() implies one_resolved(
                            self@,
                            #[trigger] fragment_ids@[i],
                        ) == Ok::<Option<FragmentView>, Option<Error>>(
                            replay::lookup(replay::records(fragments@), fragment_ids@[i]),
                        ) by {
                            let id = fragment_ids@[i];
                            assert(fragment_ids@.contains(id));
                            let k = choose|k: int| 0 <= k < ordered@.len() && ordered@[k] == id;
                            assert(one_resolved(self@, ordered@[k]) is Ok);
                        }
                        Ok(TouchedFragments { ids, fragments })
                    },
                    Err(stop) => {
                        proof {
                            let id = choose|id: u64| #[trigger]
                                ordered@.contains(id) && (forall|other: u64| #[trigger]
                                    ordered@.contains(other) && other < id ==> one_resolved(
                                    self@,
                                    other,
                                ) is Ok) && match stop {
                                    Stop::Fail(error) => one_resolved(self@, id) == Err::<
                                        Option<FragmentView>,
                                        Option<Error>,
                                    >(Some(error)),
                                    Stop::Need(_) => one_resolved(self@, id) == Err::<
                                        Option<FragmentView>,
                                        Option<Error>,
                                    >(None),
                                    Stop::Collapsed => false,
                                };
                            assert(fragment_ids@.contains(id));
                        }
                        Err(stop)
                    },
                }
            },
        }
    }

    /// Resolve validation state for a subsequent bulk materialization. The
    /// objects it reads stay known to this session, so the rewrite does not
    /// read them again.
    pub fn resolve_touched_for_bulk(&mut self, ids: &Vec<u64>) -> (r: Result<
        TouchedFragments,
        Stop,
    >)
        requires
            old(self)@.wf(),
        ensures
            final(self)@ == old(self)@,
            r matches Ok(touched) ==> touches(old(self)@, ids@, touched@),
            r matches Err(stop) ==> store::honest(stop, old(self)@.store) && if ids@.len() > 0
                && all_fit(ids@) {
                selection(old(self)@, narrowed(ids@)) == Err::<
                    Map<u64, FragmentView>,
                    Option<Error>,
                >(
                    match stop {
                        Stop::Fail(error) => Some(error),
                        _ => None,
                    },
                )
            } else {
                stops_at_one(old(self)@, ids@, stop)
            },
            ids@.len() == 0 ==> r is Ok,
    {
        self.resolve_touched(ids)
    }
}

} // verus!
