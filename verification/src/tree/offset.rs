//! Finding the fragment that holds a row by the row's place in the table.

use std::collections::BTreeMap;

use vstd::prelude::*;

use crate::error::{Aggregate, Error, Reason};
use crate::node;
use crate::pb::{clone_children, clone_mutations, ChildView, FragmentMetadataChild,
    FragmentMetadataMutation, MutationView};
use crate::record::Fragment;
use crate::replay;
use crate::rows;
use crate::rows::OffsetView;
use crate::split;
use crate::squash;
use crate::steps;
use crate::store;
use crate::store::{Stop, StoreView};
use crate::tree::reads;
use crate::tree::walk;
use crate::tree::walk::{Found, RoutedLeaf, Subtree};
use crate::tree::{FragmentTree, TreeView};
use crate::views;

verus! {

broadcast use {crate::views::group_views, vstd::std_specs::btree::group_btree_axioms};

/// Where the table's `offset`-th visible row lives.
#[derive(Debug, PartialEq, Eq)]
pub enum OffsetResolution {
    /// The fragment holding the row and the visible-row offset within it.
    Found(Box<Fragment>, u64),
    /// The offset is at or past the table's visible row count.
    BeyondEnd,
}

impl View for OffsetResolution {
    type V = OffsetView;

    open spec fn view(&self) -> OffsetView {
        match self {
            OffsetResolution::Found(fragment, offset) => OffsetView::Found(fragment@, *offset),
            OffsetResolution::BeyondEnd => OffsetView::BeyondEnd,
        }
    }
}

fn walk_fragments(fragments: Vec<Fragment>, offset: u64) -> (r: OffsetResolution)
    ensures
        r@ == rows::at_offset(views::all(fragments@), offset),
{
    let ghost all = views::all(fragments@);
    let mut remaining: u64 = offset;
    let mut i: usize = 0;
    assert(all.skip(0) =~= all);
    while i < fragments.len()
        invariant
            i <= fragments@.len(),
            all == views::all(fragments@),
            rows::at_offset(all, offset) == rows::at_offset(all.skip(i as int), remaining),
        decreases fragments@.len() - i,
    {
        let ghost rest = all.skip(i as int);
        assert(rest[0] == fragments@[i as int]@);
        assert(rest.skip(1) =~= all.skip(i + 1));
        let rows: u64 = match fragments[i].num_rows() {
            Some(rows) => rows as u64,
            None => 0,
        };
        if remaining < rows {
            return OffsetResolution::Found(Box::new(fragments[i].clone()), remaining);
        }
        remaining = remaining - rows;
        i = i + 1;
    }
    OffsetResolution::BeyondEnd
}

/// The visible rows at and below a child once the mutations for it are applied.
pub open spec fn adjusted(child: ChildView, bucket: Seq<MutationView>) -> Result<u64, Error> {
    match node::summed_deltas(squash::visible_deltas(bucket), Aggregate::VisibleRowsDelta) {
        Err(error) => Err(error),
        Ok(delta) => node::changed(child.visible_rows, delta, Aggregate::VisibleRows),
    }
}

fn adjusted_rows(child: &FragmentMetadataChild, bucket: &Vec<FragmentMetadataMutation>) -> (r:
    Result<u64, Error>)
    ensures
        r == adjusted(child@, views::all(bucket@)),
{
    let ghost pending = views::all(bucket@);
    let mut deltas: Vec<i64> = Vec::new();
    let mut i: usize = 0;
    while i < bucket.len()
        invariant
            i <= bucket@.len(),
            pending == views::all(bucket@),
            deltas@ == squash::visible_deltas(pending).take(i as int),
        decreases bucket@.len() - i,
    {
        assert(pending[i as int] == bucket@[i as int]@);
        deltas.push(bucket[i].visible_rows_delta);
        i = i + 1;
        assert(deltas@ =~= squash::visible_deltas(pending).take(i as int));
    }
    assert(deltas@ =~= squash::visible_deltas(pending));
    match node::sum_aggregate_deltas(&deltas, Aggregate::VisibleRowsDelta) {
        Err(error) => Err(error),
        Ok(delta) => node::apply_aggregate_delta(
            child.visible_rows,
            delta,
            Aggregate::VisibleRows,
        ),
    }
}

/// The child of a level that holds a row, counting from one of them on, and
/// the row's place below it.
pub open spec fn entered(
    children: Seq<ChildView>,
    pending: Seq<MutationView>,
    offset: u64,
    from: int,
) -> Result<(int, u64), Error>
    decreases children.len() - from,
{
    if from < 0 || from >= children.len() {
        Err(Error::Internal { reason: Reason::OffsetExhausted { remaining: offset } })
    } else {
        match adjusted(children[from], split::bucket(children, pending, from)) {
            Err(error) => Err(error),
            Ok(rows) => if offset < rows {
                Ok((from, offset))
            } else {
                entered(children, pending, (offset - rows) as u64, from + 1)
            },
        }
    }
}

/// The record of a level that holds a row, reading one path of nodes and the
/// leaf at its end. The children are lower than a height.
pub open spec fn located(
    store: StoreView,
    children: Seq<ChildView>,
    pending: Seq<MutationView>,
    end: u64,
    offset: u64,
    height: int,
) -> Result<OffsetView, Option<Error>>
    decreases height,
{
    if children.len() == 0 {
        let (state, error) = replay::replayed(Map::empty(), pending, true);
        match error {
            Some(error) => Err(Some(error)),
            None => Ok(rows::at_offset(walk::listed(state), offset)),
        }
    } else {
        match walk::level_fault(children, pending, end) {
            Some(reason) => Err(Some(Error::CorruptFile { reason })),
            None => match entered(children, pending, offset, 0) {
                Err(error) => Err(Some(error)),
                Ok((index, left)) => {
                    let child = children[index];
                    let own = split::bucket(children, pending, index);
                    if child.height == 0 {
                        match walk::leaf_rows(store, RoutedLeaf { child, actions: own }) {
                            Err(error) => Err(error),
                            Ok(rows) => Ok(rows::at_offset(rows, left)),
                        }
                    } else if child.height >= height {
                        Err(None)
                    } else {
                        match store::node_read(store, child) {
                            Err(error) => Err(error),
                            Ok((below, buffer)) => located(
                                store,
                                below,
                                own + buffer,
                                node::end_of(children, index, end),
                                left,
                                child.height as int,
                            ),
                        }
                    }
                },
            },
        }
    }
}

/// The record that holds a row of a tree.
pub open spec fn row_at(t: TreeView, offset: u64) -> Result<OffsetView, Option<Error>> {
    if offset >= t.visible_rows {
        Ok(OffsetView::BeyondEnd)
    } else {
        located(
            t.store,
            t.children,
            t.buffer,
            node::ROOT_EXCLUSIVE_END,
            offset,
            node::max_height(t.children) + 1,
        )
    }
}

fn enter(
    children: &Vec<FragmentMetadataChild>,
    buckets: &Vec<Vec<FragmentMetadataMutation>>,
    offset: u64,
    Ghost(pending): Ghost<Seq<MutationView>>,
) -> (r: Result<(usize, u64), Error>)
    requires
        buckets@.len() == children@.len(),
        forall|i: int|
            0 <= i < buckets@.len() ==> views::all((#[trigger] buckets@[i])@) == split::bucket(
                views::all(children@),
                pending,
                i,
            ),
    ensures
        match entered(views::all(children@), pending, offset, 0) {
            Err(error) => r == Err::<(usize, u64), Error>(error),
            Ok((index, left)) => r is Ok && r->Ok_0.0 == index && r->Ok_0.1 == left,
        },
        r matches Ok((index, _)) ==> index < children@.len(),
{
    let ghost kids = views::all(children@);
    let mut remaining: u64 = offset;
    let mut i: usize = 0;
    while i < children.len()
        invariant
            i <= children@.len(),
            kids == views::all(children@),
            buckets@.len() == children@.len(),
            forall|i: int|
                0 <= i < buckets@.len() ==> views::all((#[trigger] buckets@[i])@)
                    == split::bucket(kids, pending, i),
            entered(kids, pending, offset, 0) == entered(kids, pending, remaining, i as int),
        decreases children@.len() - i,
    {
        assert(kids[i as int] == children@[i as int]@);
        let rows: u64 = match adjusted_rows(&children[i], &buckets[i]) {
            Ok(rows) => rows,
            Err(error) => {
                return Err(error);
            },
        };
        if remaining < rows {
            return Ok((i, remaining));
        }
        remaining = remaining - rows;
        i = i + 1;
    }
    Err(Error::Internal { reason: Reason::OffsetExhausted { remaining } })
}

impl FragmentTree {
    /// The fragment that holds the table's `offset`-th visible row, loading
    /// only one root-to-leaf path. Each step skips whole subtrees by their
    /// row counts.
    pub fn fragment_at_row_offset(&self, offset: u64) -> (r: Result<OffsetResolution, Stop>)
        requires
            self@.wf(),
        ensures
            reads::answers(row_at(self@, offset), r),
            r matches Ok(found) ==> row_at(self@, offset) == Ok::<OffsetView, Option<Error>>(
                found@,
            ),
            r matches Err(stop) ==> store::honest(stop, self@.store),
    {
        if offset >= self.visible_rows {
            return Ok(OffsetResolution::BeyondEnd);
        }
        let mut remaining: u64 = offset;
        let mut children = clone_children(&self.children);
        let mut actions = clone_mutations(&self.buffer);
        let mut end: u64 = node::ROOT_EXCLUSIVE_END;
        let ghost mut height: int = node::max_height(self@.children) + 1;
        proof {
            if self@.children.len() > 0 {
                steps::lemma_max_height(self@.children, self@.children[0].height as int);
            }
            assert forall|i: int| 0 <= i < children@.len() implies (
            #[trigger] children@[i])@.height < height by {
                assert(self@.children[i] == views::all(children@)[i]);
            }
        }
        while children.len() > 0
            invariant
                offset < self@.visible_rows,
                row_at(self@, offset) == located(
                    self@.store,
                    views::all(children@),
                    views::all(actions@),
                    end,
                    remaining,
                    height,
                ),
                forall|i: int|
                    0 <= i < children@.len() ==> (#[trigger] children@[i])@.height < height,
                0 <= height,
            decreases height,
        {
            let ghost kids = views::all(children@);
            let ghost pending = views::all(actions@);
            let mut buckets = split::partition_buffer_by_child(&children, actions);
            proof {
                assert(split::bucket_views(buckets@) =~= walk::buckets(kids, pending));
            }
            match split::validate_routed(&children, &buckets, end) {
                Ok(()) => {},
                Err(error) => {
                    return Err(Stop::Fail(error));
                },
            }
            let (index, left) = match enter(&children, &buckets, remaining, Ghost(pending)) {
                Ok(found) => found,
                Err(error) => {
                    return Err(Stop::Fail(error));
                },
            };
            assert(kids[index as int] == children@[index as int]@);
            let child = children[index].clone();
            let own = clone_mutations(&buckets[index]);
            let child_end: u64 = node::exclusive_end(&children, index, end);
            if child.height == 0 {
                let leaf = Subtree { child, actions: own, end: child_end };
                return match walk::read_rows(&self.store, &leaf) {
                    Ok(rows) => Ok(walk_fragments(rows, left)),
                    Err(stop) => Err(stop),
                };
            }
            let node = match self.store.read_internal(&child) {
                Ok(node) => node,
                Err(stop) => {
                    return Err(stop);
                },
            };
            proof {
                steps::lemma_node_shape(self@.store, child@);
                height = child@.height as int;
                let below = views::all(node.children@);
                assert forall|i: int| 0 <= i < node.children@.len() implies (
                #[trigger] node.children@[i])@.height < height by {
                    assert(below[i] == node.children@[i]@);
                }
            }
            let mut next = own;
            let mut held = node.buffer;
            next.append(&mut held);
            actions = next;
            children = node.children;
            end = child_end;
            remaining = left;
        }
        let none: BTreeMap<u64, Fragment> = BTreeMap::new();
        assert(replay::records(none@) =~= Map::empty());
        match walk::list_verified(none, actions) {
            Ok(rows) => Ok(walk_fragments(rows, remaining)),
            Err(stop) => Err(stop),
        }
    }
}

} // verus!
