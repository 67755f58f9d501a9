//! What finding a row by its place gives.

use vstd::prelude::*;

use crate::error::Error;
use crate::node;
use crate::pb::{ChildView, MutationView};
use crate::record::FragmentView;
use crate::rows;
use crate::rows::OffsetView;
use crate::split;
use crate::steps;
use crate::store;
use crate::store::StoreView;
use crate::tree::offset;
use crate::tree::read_laws;
use crate::tree::walk;
use crate::tree::walk::RoutedLeaf;
use crate::tree::TreeView;
use crate::world;
use crate::world::World;

verus! {

/// The records at and below a child with the mutations for it applied.
pub open spec fn rows_below(
    store: StoreView,
    child: ChildView,
    actions: Seq<MutationView>,
    end: u64,
) -> Seq<FragmentView> {
    walk::rows_of(store, walk::routed(store, child, actions, end, 0).items).items
}

/// Whether the row counts at and below a child, changed by the mutations for
/// it, are the visible rows of the records there.
pub open spec fn tallied(
    store: StoreView,
    child: ChildView,
    actions: Seq<MutationView>,
    end: u64,
) -> bool
    decreases child.height, 1int, 0int,
{
    &&& offset::adjusted(child, actions) matches Ok(rows) && rows == rows::total(
        rows_below(store, child, actions, end),
    )
    &&& child.height > 0 ==> match store::node_read(store, child) {
        Err(_) => true,
        Ok((below, buffer)) => tallied_from(
            store,
            below,
            actions + buffer,
            end,
            child.height as int,
            0,
        ),
    }
}

/// Whether the row counts of the children of a level from one of them on are
/// the visible rows of the records there. The children are lower than a
/// height.
pub open spec fn tallied_from(
    store: StoreView,
    children: Seq<ChildView>,
    pending: Seq<MutationView>,
    end: u64,
    height: int,
    from: int,
) -> bool
    decreases height, 0int, children.len() - from,
{
    if from < 0 || from >= children.len() || children[from].height >= height {
        true
    } else {
        &&& tallied(
            store,
            children[from],
            split::bucket(children, pending, from),
            node::end_of(children, from, end),
        )
        &&& tallied_from(store, children, pending, end, height, from + 1)
    }
}

/// Whether the row counts of a tree are the visible rows of its records.
pub open spec fn tree_tallied(t: TreeView) -> bool {
    &&& t.visible_rows == rows::total(walk::start_rows(t, 0).items)
    &&& tallied_from(
        t.store,
        t.children,
        t.buffer,
        node::ROOT_EXCLUSIVE_END,
        node::max_height(t.children) + 1,
        0,
    )
}

pub(crate) proof fn lemma_first_route(children: Seq<ChildView>)
    requires
        children.len() > 0,
        forall|i: int, j: int|
            0 <= i < j < children.len() ==> (#[trigger] children[i]).min_key < (
            #[trigger] children[j]).min_key,
    ensures
        node::route(children, 0) == 0,
{
    node::lemma_route(children, 0);
    let r = node::route(children, 0);
    if r > 0 {
        assert(children[0].min_key < children[r].min_key);
    }
}

pub(crate) proof fn lemma_all_from_zero(records: Seq<FragmentView>)
    ensures
        walk::from_id(records, 0) == records,
    decreases records.len(),
{
    let pred = |fragment: FragmentView| fragment.id >= 0;
    if records.len() == 0 {
        assert(records.filter(pred) =~= records);
    } else {
        let rest = records.drop_last();
        lemma_all_from_zero(rest);
        assert(records =~= rest.push(records.last()));
        rest.lemma_filter_push(records.last(), pred);
    }
}

/// Whether a child of a level holds a row of some records at a place below it.
spec fn leads(
    store: StoreView,
    children: Seq<ChildView>,
    pending: Seq<MutationView>,
    end: u64,
    rows: Seq<FragmentView>,
    place: u64,
    index: int,
    left: u64,
) -> bool {
    let child = children[index];
    let own = split::bucket(children, pending, index);
    let stop = node::end_of(children, index, end);
    &&& 0 <= index < children.len()
    &&& walk::routed(store, child, own, stop, 0).error is None
    &&& walk::rows_of(store, walk::routed(store, child, own, stop, 0).items).error is None
    &&& tallied(store, child, own, stop)
    &&& left < rows::total(rows_below(store, child, own, stop))
    &&& rows::at_offset(rows, place) == rows::at_offset(
        rows_below(store, child, own, stop),
        left,
    )
}

/// The child entered holds the row, at the place entered with.
proof fn lemma_entered(
    store: StoreView,
    children: Seq<ChildView>,
    pending: Seq<MutationView>,
    end: u64,
    place: u64,
    height: int,
    from: int,
)
    requires
        0 <= from <= children.len(),
        forall|i: int| 0 <= i < children.len() ==> (#[trigger] children[i]).height < height,
        walk::routed_from(store, children, pending, end, 0, height, from).error is None,
        walk::rows_of(
            store,
            walk::routed_from(store, children, pending, end, 0, height, from).items,
        ).error is None,
        tallied_from(store, children, pending, end, height, from),
        place < rows::total(
            walk::rows_of(
                store,
                walk::routed_from(store, children, pending, end, 0, height, from).items,
            ).items,
        ),
    ensures
        ({
            let rows = walk::rows_of(
                store,
                walk::routed_from(store, children, pending, end, 0, height, from).items,
            ).items;
            &&& offset::entered(children, pending, place, from) matches Ok((index, left))
            &&& leads(store, children, pending, end, rows, place, index, left)
        }),
    decreases children.len() - from,
{
    if from < children.len() {
        assert(children[from].height < height);
        let own = split::bucket(children, pending, from);
        let stop = node::end_of(children, from, end);
        let first = walk::routed(store, children[from], own, stop, 0);
        let later = walk::routed_from(store, children, pending, end, 0, height, from + 1);
        read_laws::lemma_rows_join(store, first.items, later.items);
        let a = walk::rows_of(store, first.items).items;
        let b = walk::rows_of(store, later.items).items;
        rows::lemma_total_join(a, b);
        rows::lemma_offset_join(a, b, place);
        assert(a == rows_below(store, children[from], own, stop));
        assert(tallied(store, children[from], own, stop));
        assert(walk::rows_of(
            store,
            walk::routed_from(store, children, pending, end, 0, height, from).items,
        ).items == a + b);
        if place < rows::total(a) {
            assert(leads(store, children, pending, end, a + b, place, from, place));
        } else {
            lemma_entered(
                store,
                children,
                pending,
                end,
                (place - rows::total(a)) as u64,
                height,
                from + 1,
            );
            let next = (place - rows::total(a)) as u64;
            assert(offset::adjusted(children[from], own) == Ok::<u64, Error>(rows::total(a) as u64));
            assert(offset::entered(children, pending, place, from) == offset::entered(
                children,
                pending,
                next,
                from + 1,
            ));
            let (index, left) = offset::entered(children, pending, next, from + 1)->Ok_0;
            assert(leads(store, children, pending, end, b, next, index, left));
            assert(leads(store, children, pending, end, a + b, place, index, left));
        }
    } else {
        assert(rows::total(Seq::<FragmentView>::empty()) == 0);
    }
}

proof fn lemma_located(
    w: World,
    store: StoreView,
    children: Seq<ChildView>,
    pending: Seq<MutationView>,
    end: u64,
    place: u64,
    height: int,
)
    requires
        world::agrees(w, store),
        world::all_sound(w, store),
        children.len() > 0,
        forall|i: int| 0 <= i < children.len() ==> (#[trigger] children[i]).height < height,
        walk::level_fault(children, pending, end) is None,
        walk::routed_from(store, children, pending, end, 0, height, 0).error is None,
        walk::rows_of(
            store,
            walk::routed_from(store, children, pending, end, 0, height, 0).items,
        ).error is None,
        tallied_from(store, children, pending, end, height, 0),
        place < rows::total(
            walk::rows_of(
                store,
                walk::routed_from(store, children, pending, end, 0, height, 0).items,
            ).items,
        ),
    ensures
        offset::located(store, children, pending, end, place, height) == Ok::<
            OffsetView,
            Option<Error>,
        >(
            rows::at_offset(
                walk::rows_of(
                    store,
                    walk::routed_from(store, children, pending, end, 0, height, 0).items,
                ).items,
                place,
            ),
        ),
    decreases height,
{
    lemma_entered(store, children, pending, end, place, height, 0);
    let (index, left) = offset::entered(children, pending, place, 0)->Ok_0;
    let child = children[index];
    let own = split::bucket(children, pending, index);
    let stop = node::end_of(children, index, end);
    assert(child.height < height);
    let found = walk::routed(store, child, own, stop, 0);
    if child.height == 0 {
        let leaf = RoutedLeaf { child, actions: own };
        assert(found.items == seq![leaf]);
        assert(found.items.skip(1) =~= Seq::<RoutedLeaf>::empty());
        assert(found.items[0] == leaf);
        assert(walk::rows_of(store, found.items.skip(1)).items =~= Seq::<FragmentView>::empty());
        let rows = walk::leaf_rows(store, leaf)->Ok_0;
        assert(rows + Seq::<FragmentView>::empty() =~= rows);
        assert(rows_below(store, child, own, stop) == rows);
    } else {
        let (below, buffer) = store::node_read(store, child)->Ok_0;
        steps::lemma_node_shape(store, child);
        steps::lemma_reads_node(w, store, child);
        assert forall|i: int, j: int| 0 <= i < j < below.len() implies (
        #[trigger] below[i]).min_key < (#[trigger] below[j]).min_key by {}
        lemma_first_route(below);
        assert forall|i: int| 0 <= i < below.len() implies (#[trigger] below[i]).height
            < child.height as int by {}
        lemma_located(w, store, below, own + buffer, stop, left, child.height as int);
    }
}

/// Where the row counts a tree carries are those of its records, finding a row
/// by its place reads one path and gives the record that a walk of the whole
/// table reaches at that row.
pub proof fn law_row_offset_agrees_with_the_walk(w: World, t: TreeView, place: u64)
    requires
        t.wf(),
        world::agrees(w, t.store),
        world::all_sound(w, t.store),
        world::sound(w, t.children, t.buffer),
        walk::start_rows(t, 0).error is None,
        tree_tallied(t),
    ensures
        offset::row_at(t, place) == Ok::<OffsetView, Option<Error>>(
            rows::at_offset(walk::start_rows(t, 0).items, place),
        ),
{
    let rows = walk::start_rows(t, 0).items;
    rows::law_offset_counts_visible_rows(rows, place);
    if place < t.visible_rows {
        if t.children.len() == 0 {
            lemma_all_from_zero(
                walk::listed(crate::replay::replayed(Map::empty(), t.buffer, true).0),
            );
        } else {
            let kids = t.children;
            let height = node::max_height(kids) + 1;
            steps::lemma_max_height(kids, kids[0].height as int);
            assert forall|i: int, j: int| 0 <= i < j < kids.len() implies (
            #[trigger] kids[i]).min_key < (#[trigger] kids[j]).min_key by {}
            lemma_first_route(kids);
            let found = walk::start_leaves(t, 0);
            lemma_all_from_zero(walk::rows_of(t.store, found.items).items);
            assert forall|i: int| 0 <= i < kids.len() implies (#[trigger] kids[i]).height
                < height by {}
            lemma_located(
                w,
                t.store,
                kids,
                t.buffer,
                node::ROOT_EXCLUSIVE_END,
                place,
                height,
            );
        }
    }
}

} // verus!
