//! Walking the records of a tree in order of their ids.

use std::collections::BTreeMap;

use vstd::prelude::*;

use crate::drain;
use crate::error::{Error, Reason};
use crate::leaves;
use crate::node;
use crate::pb::{clone_children, clone_mutations, ChildView, FragmentMetadataChild,
    FragmentMetadataMutation, MutationView};
use crate::record::{Fragment, FragmentView};
use crate::replay;
use crate::split;
use crate::steps;
use crate::store;
use crate::store::{NodeStore, Stop, StoreView};
use crate::tree::{FragmentTree, TreeView};
use crate::views;
use crate::world;

verus! {

broadcast use {crate::views::group_views, vstd::std_specs::btree::group_btree_axioms};

/// A leaf with the buffered mutations that are for it.
pub struct BufferedChild {
    pub child: FragmentMetadataChild,
    pub actions: Vec<FragmentMetadataMutation>,
}

pub struct RoutedLeaf {
    pub child: ChildView,
    pub actions: Seq<MutationView>,
}

impl View for BufferedChild {
    type V = RoutedLeaf;

    open spec fn view(&self) -> RoutedLeaf {
        RoutedLeaf { child: self.child@, actions: views::all(self.actions@) }
    }
}

/// What a walk finds up to where it cannot go on, and why it cannot.
pub struct Found<T> {
    pub items: Seq<T>,
    pub error: Option<Option<Error>>,
}

impl<T> Found<T> {
    pub open spec fn nothing() -> Self {
        Found { items: Seq::empty(), error: None }
    }

    pub open spec fn failed(error: Option<Error>) -> Self {
        Found { items: Seq::empty(), error: Some(error) }
    }

    /// One walk after another.
    pub open spec fn then_walk(self, next: Self) -> Self {
        if self.error is Some {
            self
        } else {
            Found { items: self.items + next.items, error: next.error }
        }
    }
}

/// The mutations of a level for each of its children.
pub open spec fn buckets(children: Seq<ChildView>, pending: Seq<MutationView>) -> Seq<
    Seq<MutationView>,
> {
    Seq::new(children.len(), |i: int| split::bucket(children, pending, i))
}

/// Why the mutations of a level cannot have been routed to it.
pub open spec fn level_fault(
    children: Seq<ChildView>,
    pending: Seq<MutationView>,
    end: u64,
) -> Option<Reason> {
    split::routing_fault(children, buckets(children, pending), end, children.len() as int)
}

/// The leaves at and below a child with the mutations for them, skipping what
/// lies before a lower bound. The child's range ends at `end`.
pub open spec fn routed(
    store: StoreView,
    child: ChildView,
    actions: Seq<MutationView>,
    end: u64,
    lower: u64,
) -> Found<RoutedLeaf>
    decreases child.height, 1int, 0int,
{
    if child.height == 0 {
        Found { items: seq![RoutedLeaf { child, actions }], error: None }
    } else {
        match store::node_read(store, child) {
            Err(error) => Found::failed(error),
            Ok((children, buffer)) => {
                let pending = actions + buffer;
                if children.len() == 0 {
                    Found::failed(
                        Some(
                            Error::CorruptFile {
                                reason: Reason::NodeWithoutChildren { min_key: child.min_key },
                            },
                        ),
                    )
                } else {
                    match level_fault(children, pending, end) {
                        Some(reason) => Found::failed(Some(Error::CorruptFile { reason })),
                        None => routed_from(
                            store,
                            children,
                            pending,
                            end,
                            lower,
                            child.height as int,
                            node::route(children, lower),
                        ),
                    }
                }
            },
        }
    }
}

/// The leaves below the children of a level from one of them on. The children
/// are lower than a height.
pub open spec fn routed_from(
    store: StoreView,
    children: Seq<ChildView>,
    pending: Seq<MutationView>,
    end: u64,
    lower: u64,
    height: int,
    from: int,
) -> Found<RoutedLeaf>
    decreases height, 0int, children.len() - from,
{
    if from < 0 || from >= children.len() || children[from].height >= height {
        Found::nothing()
    } else {
        routed(
            store,
            children[from],
            split::bucket(children, pending, from),
            node::end_of(children, from, end),
            lower,
        ).then_walk(routed_from(store, children, pending, end, lower, height, from + 1))
    }
}

/// The records of a map in order of their ids.
pub open spec fn listed(state: Map<u64, FragmentView>) -> Seq<FragmentView> {
    choose|records: Seq<FragmentView>| steps::lists(records, state)
}

pub proof fn lemma_same_found(a: Seq<FragmentView>, b: Seq<FragmentView>)
    requires
        store::ascending(a),
        store::ascending(b),
        forall|key: u64| #[trigger] world::found(a, key) == world::found(b, key),
    ensures
        a == b,
    decreases a.len(),
{
    if a.len() == 0 {
        if b.len() > 0 {
            leaves::lemma_found(b, 0);
            assert(world::found(a, b[0].id) == world::found(b, b[0].id));
        }
        assert(a =~= b);
    } else {
        let n = a.len() - 1;
        let x = a[n];
        leaves::lemma_found(a, n);
        assert(world::found(a, x.id) == world::found(b, x.id));
        let k = leaves::lemma_found_some(b, x.id);
        let m = b.len() - 1;
        if k != m {
            leaves::lemma_found(b, m);
            assert(b[k].id < b[m].id);
            assert(world::found(a, b[m].id) == world::found(b, b[m].id));
            let j = leaves::lemma_found_some(a, b[m].id);
            if j != n {
                assert(a[j].id < a[n].id);
            }
        }
        let p = a.drop_last();
        let q = b.drop_last();
        assert forall|key: u64| #[trigger] world::found(p, key) == world::found(q, key) by {
            lemma_found_prefix(a, key);
            lemma_found_prefix(b, key);
            assert(world::found(a, key) == world::found(b, key));
        }
        lemma_same_found(p, q);
        assert(a =~= p.push(x));
        assert(b =~= q.push(b[m]));
    }
}

proof fn lemma_found_prefix(a: Seq<FragmentView>, key: u64)
    requires
        store::ascending(a),
        a.len() > 0,
    ensures
        world::found(a.drop_last(), key) == if key == a.last().id {
            None
        } else {
            world::found(a, key)
        },
        store::ascending(a.drop_last()),
{
    let p = a.drop_last();
    assert forall|i: int, j: int| 0 <= i < j < p.len() implies (#[trigger] p[i]).id < (
    #[trigger] p[j]).id by {
        assert(a[i].id < a[j].id);
    }
    if world::found(p, key) is Some {
        let i = leaves::lemma_found_some(p, key);
        assert(a[i].id < a[a.len() - 1].id);
        leaves::lemma_found(a, i);
    } else if world::found(a, key) is Some {
        let i = leaves::lemma_found_some(a, key);
        if i < p.len() {
            leaves::lemma_found(p, i);
        }
    }
}

/// A list of a map's records is the list.
pub proof fn lemma_listed(records: Seq<FragmentView>, state: Map<u64, FragmentView>)
    requires
        steps::lists(records, state),
    ensures
        listed(state) == records,
{
    let other = listed(state);
    assert(steps::lists(other, state));
    assert forall|key: u64| #[trigger] world::found(records, key) == world::found(other, key) by {
        assert(world::found(other, key) == replay::lookup(state, key));
    }
    lemma_same_found(records, other);
}

/// The records of a leaf with the mutations for it applied.
pub open spec fn leaf_rows(store: StoreView, leaf: RoutedLeaf) -> Result<
    Seq<FragmentView>,
    Option<Error>,
> {
    match store::leaf_read(store, leaf.child) {
        Err(error) => Err(error),
        Ok(records) => {
            let (state, error) = replay::replayed(steps::indexed(records), leaf.actions, true);
            match error {
                Some(error) => Err(Some(error)),
                None => Ok(listed(state)),
            }
        },
    }
}

/// The records of some leaves, leaf after leaf.
pub open spec fn rows_of(store: StoreView, leaves: Seq<RoutedLeaf>) -> Found<FragmentView>
    decreases leaves.len(),
{
    if leaves.len() == 0 {
        Found::nothing()
    } else {
        match leaf_rows(store, leaves[0]) {
            Err(error) => Found::failed(error),
            Ok(rows) => (Found { items: rows, error: None }).then_walk(
                rows_of(store, leaves.skip(1)),
            ),
        }
    }
}

// The state of a walk.

/// A subtree still to visit, with the buffered actions routed to it and the
/// exclusive end of its range.
pub struct Subtree {
    pub child: FragmentMetadataChild,
    pub actions: Vec<FragmentMetadataMutation>,
    pub end: u64,
}

pub struct SubtreeView {
    pub child: ChildView,
    pub actions: Seq<MutationView>,
    pub end: u64,
}

impl View for Subtree {
    type V = SubtreeView;

    open spec fn view(&self) -> SubtreeView {
        SubtreeView { child: self.child@, actions: views::all(self.actions@), end: self.end }
    }
}

/// State of an in-order fragment walk: subtrees still to visit, the next one
/// last, and fragments ready to yield, the next one last.
pub struct FragmentWalk {
    lower_bound: u64,
    stack: Vec<Subtree>,
    ready: Vec<Fragment>,
    pending_error: Option<Error>,
}

pub struct WalkView {
    pub lower_bound: u64,
    pub stack: Seq<SubtreeView>,
    /// The next record first.
    pub ready: Seq<FragmentView>,
    pub pending_error: Option<Error>,
}

impl View for FragmentWalk {
    type V = WalkView;

    closed spec fn view(&self) -> WalkView {
        WalkView {
            lower_bound: self.lower_bound,
            stack: views::all(self.stack@),
            ready: views::all(self.ready@).reverse(),
            pending_error: self.pending_error,
        }
    }
}

/// The leaves below subtrees still to visit.
pub open spec fn leaves_ahead(store: StoreView, stack: Seq<SubtreeView>, lower: u64) -> Found<
    RoutedLeaf,
>
    decreases stack.len(),
{
    if stack.len() == 0 {
        Found::nothing()
    } else {
        let top = stack.last();
        routed(store, top.child, top.actions, top.end, lower).then_walk(
            leaves_ahead(store, stack.drop_last(), lower),
        )
    }
}

/// The leaves a walk has still to visit.
pub open spec fn leaves_to_come(store: StoreView, walk: WalkView) -> Found<RoutedLeaf> {
    match walk.pending_error {
        Some(error) => Found::failed(Some(error)),
        None => leaves_ahead(store, walk.stack, walk.lower_bound),
    }
}

pub open spec fn from_id(records: Seq<FragmentView>, lower: u64) -> Seq<FragmentView> {
    records.filter(|fragment: FragmentView| fragment.id >= lower)
}

/// The records a walk has still to yield.
pub open spec fn rows_to_come(store: StoreView, walk: WalkView) -> Found<FragmentView> {
    match walk.pending_error {
        Some(error) => Found::failed(Some(error)),
        None => {
            let leaves = leaves_ahead(store, walk.stack, walk.lower_bound);
            let rows = rows_of(store, leaves.items);
            Found {
                items: from_id(walk.ready + rows.items, walk.lower_bound),
                error: if rows.error is Some {
                    rows.error
                } else {
                    leaves.error
                },
            }
        },
    }
}

/// Subtrees of a level put on a stack, the first of them last.
spec fn pushed(
    rest: Seq<SubtreeView>,
    children: Seq<ChildView>,
    pending: Seq<MutationView>,
    end: u64,
    from: int,
) -> Seq<SubtreeView>
    decreases children.len() - from,
{
    if from < 0 || from >= children.len() {
        rest
    } else {
        pushed(rest, children, pending, end, from + 1).push(
            SubtreeView {
                child: children[from],
                actions: split::bucket(children, pending, from),
                end: node::end_of(children, from, end),
            },
        )
    }
}

/// What lies ahead once the subtrees of a level are on the stack.
proof fn lemma_pushed(
    store: StoreView,
    rest: Seq<SubtreeView>,
    children: Seq<ChildView>,
    pending: Seq<MutationView>,
    end: u64,
    lower: u64,
    height: int,
    from: int,
)
    requires
        0 <= from <= children.len(),
        forall|i: int| 0 <= i < children.len() ==> (#[trigger] children[i]).height < height,
    ensures
        leaves_ahead(store, pushed(rest, children, pending, end, from), lower) == routed_from(
            store,
            children,
            pending,
            end,
            lower,
            height,
            from,
        ).then_walk(leaves_ahead(store, rest, lower)),
    decreases children.len() - from,
{
    let stack = pushed(rest, children, pending, end, from);
    let all = routed_from(store, children, pending, end, lower, height, from);
    if from < children.len() {
        lemma_pushed(store, rest, children, pending, end, lower, height, from + 1);
        assert(stack.drop_last() =~= pushed(rest, children, pending, end, from + 1));
        let first = routed(
            store,
            children[from],
            split::bucket(children, pending, from),
            node::end_of(children, from, end),
            lower,
        );
        let later = routed_from(store, children, pending, end, lower, height, from + 1);
        let last = leaves_ahead(store, rest, lower);
        assert(children[from].height < height);
        assert(first.then_walk(later.then_walk(last)).items =~= first.then_walk(later).then_walk(
            last,
        ).items);
    } else {
        assert(all.then_walk(leaves_ahead(store, rest, lower)).items =~= leaves_ahead(
            store,
            rest,
            lower,
        ).items);
    }
}

fn push_children(
    stack: &mut Vec<Subtree>,
    children: Vec<FragmentMetadataChild>,
    held: Vec<Vec<FragmentMetadataMutation>>,
    end: u64,
    from: usize,
    Ghost(pending): Ghost<Seq<MutationView>>,
)
    requires
        held@.len() == children@.len(),
        from < children@.len(),
        forall|i: int|
            0 <= i < held@.len() ==> views::all((#[trigger] held@[i])@) == split::bucket(
                views::all(children@),
                pending,
                i,
            ),
    ensures
        views::all(final(stack)@) == pushed(
            views::all(old(stack)@),
            views::all(children@),
            pending,
            end,
            from as int,
        ),
{
    let ghost kids = views::all(children@);
    let ghost rest = views::all(stack@);
    let mut at: usize = children.len();
    while at > from
        invariant
            from <= at <= children@.len(),
            held@.len() == children@.len(),
            kids == views::all(children@),
            rest == views::all(old(stack)@),
            forall|i: int|
                0 <= i < held@.len() ==> views::all((#[trigger] held@[i])@) == split::bucket(
                    kids,
                    pending,
                    i,
                ),
            views::all(stack@) == pushed(rest, kids, pending, end, at as int),
        decreases at,
    {
        at = at - 1;
        let child_end: u64 = node::exclusive_end(&children, at, end);
        assert(kids[at as int] == children@[at as int]@);
        assert(views::all(held@[at as int]@) == split::bucket(kids, pending, at as int));
        stack.push(
            Subtree {
                child: children[at].clone(),
                actions: clone_mutations(&held[at]),
                end: child_end,
            },
        );
    }
}

impl FragmentWalk {
    /// Open the next subtree until it is a leaf. A subtree that cannot be
    /// read stays where it is.
    fn reach_leaf(&mut self, store: &NodeStore) -> (r: Result<(), Stop>)
        requires
            old(self)@.pending_error is None,
        ensures
            final(self)@.lower_bound == old(self)@.lower_bound,
            final(self)@.ready == old(self)@.ready,
            final(self)@.pending_error is None,
            leaves_ahead(store@, final(self)@.stack, old(self)@.lower_bound) == leaves_ahead(
                store@,
                old(self)@.stack,
                old(self)@.lower_bound,
            ),
            match r {
                Ok(()) => final(self)@.stack.len() > 0 ==> final(self)@.stack.last().child.height == 0,
                Err(stop) => {
                    let ahead = leaves_ahead(store@, old(self)@.stack, old(self)@.lower_bound);
                    &&& ahead.items.len() == 0
                    &&& stop matches Stop::Fail(error) ==> ahead.error == Some(Some(error))
                    &&& stop is Need ==> ahead.error == Some(None::<Error>)
                    &&& stop is Fail || stop is Need
                    &&& store::honest(stop, store@)
                },
            },
    {
        let ghost lower = self.lower_bound;
        let ghost start = leaves_ahead(store@, self@.stack, lower);
        loop
            invariant_except_break
                lower == self.lower_bound,
                lower == old(self)@.lower_bound,
                self@.ready == old(self)@.ready,
                self@.pending_error is None,
                start == leaves_ahead(store@, old(self)@.stack, lower),
                start == leaves_ahead(store@, self@.stack, lower),
            ensures
                lower == self.lower_bound,
                lower == old(self)@.lower_bound,
                self@.ready == old(self)@.ready,
                self@.pending_error is None,
                start == leaves_ahead(store@, old(self)@.stack, lower),
                start == leaves_ahead(store@, self@.stack, lower),
                self@.stack.len() > 0 ==> self@.stack.last().child.height == 0,
            decreases
                    (if self@.stack.len() > 0 {
                        self@.stack.last().child.height as int + 1
                    } else {
                        0
                    }),
        {
            let count: usize = self.stack.len();
            if count == 0 {
                break;
            }
            let ghost before = self@.stack;
            assert(before.last() == self.stack@[count - 1]@);
            if self.stack[count - 1].child.height == 0 {
                break;
            }
            let node = match store.read_internal(&self.stack[count - 1].child) {
                Ok(node) => node,
                Err(stop) => {
                    return Err(stop);
                },
            };
            let ghost child = before.last().child;
            if node.children.len() == 0 {
                return Err(
                    Stop::Fail(
                        Error::CorruptFile {
                            reason: Reason::NodeWithoutChildren {
                                min_key: self.stack[count - 1].child.min_key,
                            },
                        },
                    ),
                );
            }
            let end: u64 = self.stack[count - 1].end;
            let mut actions = clone_mutations(&self.stack[count - 1].actions);
            let mut own = clone_mutations(&node.buffer);
            actions.append(&mut own);
            let ghost pending = views::all(actions@);
            let ghost kids = views::all(node.children@);
            assert(pending == before.last().actions + views::all(node.buffer@));
            let held = split::partition_buffer_by_child(&node.children, actions);
            proof {
                assert(split::bucket_views(held@) =~= buckets(kids, pending));
            }
            match split::validate_routed(&node.children, &held, end) {
                Ok(()) => {},
                Err(error) => {
                    return Err(Stop::Fail(error));
                },
            }
            let from: usize = node::child_index_for(&node.children, self.lower_bound);
            let _top = self.stack.pop();
            let ghost rest = views::all(self.stack@);
            assert(rest =~= before.drop_last());
            push_children(&mut self.stack, node.children, held, end, from, Ghost(pending));
            proof {
                steps::lemma_node_shape(store@, child);
                assert forall|i: int| 0 <= i < kids.len() implies (#[trigger] kids[i]).height
                    < child.height as int by {}
                lemma_pushed(
                    store@,
                    rest,
                    kids,
                    pending,
                    end,
                    lower,
                    child.height as int,
                    from as int,
                );
                let stack = self@.stack;
                assert(stack.last().child == kids[from as int]);
                assert(kids[from as int].height < child.height);
            }
        }
        Ok(())
    }
}

pub(crate) fn read_rows(store: &NodeStore, leaf: &Subtree) -> (r: Result<Vec<Fragment>, Stop>)
    ensures
        ({
            let wanted = leaf_rows(
                store@,
                RoutedLeaf { child: leaf@.child, actions: leaf@.actions },
            );
            &&& crate::tree::reads::answers(wanted, r)
            &&& r matches Ok(rows) ==> wanted == Ok::<Seq<FragmentView>, Option<Error>>(
                views::all(rows@),
            )
        }),
        r matches Err(stop) ==> store::honest(stop, store@),
{
    let records = match store.read_leaf(&leaf.child) {
        Ok(records) => records,
        Err(stop) => {
            return Err(stop);
        },
    };
    let ghost given = views::all(records@);
    proof {
        steps::lemma_leaf_shape(store@, leaf@.child);
    }
    let mut map: BTreeMap<u64, Fragment> = drain::index_records(records);
    let ghost start = replay::records(map@);
    match replay::apply_verified(&mut map, clone_mutations(&leaf.actions)) {
        Ok(()) => {},
        Err(error) => {
            return Err(Stop::Fail(error));
        },
    }
    proof {
        assert forall|key: u64| #[trigger] start.contains_key(key) implies start[key].id
            == key by {
            let k = leaves::lemma_found_some(given, key);
        }
        drain::lemma_replayed_ids(start, leaf@.actions, true);
        let after = replay::records(map@);
        assert forall|key: u64| #[trigger] map@.contains_key(key) implies map@[key]@.id == key by {
            assert(after.contains_key(key));
            assert(after[key] == map@[key]@);
        }
    }
    let rows = drain::list_records(&map);
    proof {
        lemma_listed(views::all(rows@), replay::records(map@));
    }
    Ok(rows)
}

/// Records in the opposite order.
fn reversed(records: Vec<Fragment>) -> (r: Vec<Fragment>)
    ensures
        views::all(r@).reverse() == views::all(records@),
{
    let ghost given = views::all(records@);
    let mut left = records;
    let mut out: Vec<Fragment> = Vec::new();
    assert(views::all(out@).reverse() =~= Seq::<FragmentView>::empty());
    assert(given =~= views::all(left@) + views::all(out@).reverse());
    while left.len() > 0
        invariant
            given == views::all(left@) + views::all(out@).reverse(),
        decreases left@.len(),
    {
        let ghost before = views::all(left@);
        let ghost gone = views::all(out@);
        if let Some(fragment) = left.pop() {
            out.push(fragment);
            proof {
                assert(before =~= views::all(left@).push(fragment@));
                assert(views::all(out@).reverse() =~= seq![fragment@] + gone.reverse());
                assert(given =~= views::all(left@) + views::all(out@).reverse());
            }
        }
    }
    assert(given =~= views::all(out@).reverse());
    out
}

proof fn lemma_from_id_skip(records: Seq<FragmentView>, lower: u64)
    requires
        records.len() > 0,
    ensures
        from_id(records, lower) == if records[0].id >= lower {
            seq![records[0]] + from_id(records.skip(1), lower)
        } else {
            from_id(records.skip(1), lower)
        },
{
    let pred = |fragment: FragmentView| fragment.id >= lower;
    let one = seq![records[0]];
    assert(records =~= one + records.skip(1));
    Seq::filter_distributes_over_add(one, records.skip(1), pred);
    let none = Seq::<FragmentView>::empty();
    assert(one =~= none.push(records[0]));
    none.lemma_filter_push(records[0], pred);
    assert(none.filter(pred) =~= none);
    if records[0].id >= lower {
        assert(one.filter(pred) =~= one);
    } else {
        assert(none + from_id(records.skip(1), lower) =~= from_id(records.skip(1), lower));
    }
}

/// Whether a step of a walk gives the next item and leaves the rest.
pub open spec fn steps_on<T>(before: Found<T>, after: Found<T>, item: Option<T>) -> bool {
    match item {
        Some(item) => before.items.len() > 0 && item == before.items[0] && after == (Found {
            items: before.items.skip(1),
            error: before.error,
        }),
        None => before.items.len() == 0 && before.error is None,
    }
}

/// Whether a walk stops with a stop.
pub open spec fn stops_with<T>(before: Found<T>, stop: Stop) -> bool {
    &&& before.items.len() == 0
    &&& match stop {
        Stop::Fail(error) => before.error == Some(Some(error)),
        Stop::Need(_) => before.error == Some(None::<Error>),
        Stop::Collapsed => false,
    }
}

impl FragmentTree {
    /// Start a walk over the fragments whose ids are not below a lower bound.
    /// A routing error found here surfaces at the first step.
    pub fn start_walk_from(&self, lower_bound: u64) -> (r: FragmentWalk)
        requires
            self@.wf(),
        ensures
            r@.lower_bound == lower_bound,
            leaves_to_come(self@.store, r@) == start_leaves(self@, lower_bound),
            rows_to_come(self@.store, r@) == start_rows(self@, lower_bound),
    {
        let mut walk = FragmentWalk {
            lower_bound,
            stack: Vec::new(),
            ready: Vec::new(),
            pending_error: None,
        };
        let ghost none = Seq::<FragmentView>::empty();
        assert(views::all(walk.ready@).reverse() =~= none);
        assert(views::all(walk.stack@) =~= Seq::<SubtreeView>::empty());
        if self.children.len() == 0 {
            let mut map: BTreeMap<u64, Fragment> = BTreeMap::new();
            assert(replay::records(map@) =~= Map::empty());
            match replay::apply_verified(&mut map, clone_mutations(&self.buffer)) {
                Ok(()) => {
                    proof {
                        drain::lemma_replayed_ids(Map::empty(), self@.buffer, true);
                        let after = replay::records(map@);
                        assert forall|key: u64| #[trigger]
                            map@.contains_key(key) implies map@[key]@.id == key by {
                            assert(after.contains_key(key));
                            assert(after[key] == map@[key]@);
                        }
                    }
                    let rows = drain::list_records(&map);
                    proof {
                        lemma_listed(views::all(rows@), replay::records(map@));
                    }
                    let ghost wanted = views::all(rows@);
                    walk.ready = reversed(rows);
                    assert(walk@.ready + none =~= wanted);
                },
                Err(error) => {
                    walk.pending_error = Some(error);
                },
            }
            return walk;
        }
        let ghost kids = self@.children;
        let held = split::partition_buffer_by_child(
            &self.children,
            clone_mutations(&self.buffer),
        );
        proof {
            assert(split::bucket_views(held@) =~= buckets(kids, self@.buffer));
        }
        match split::validate_routed(&self.children, &held, node::ROOT_EXCLUSIVE_END) {
            Ok(()) => {},
            Err(error) => {
                walk.pending_error = Some(error);
                return walk;
            },
        }
        let from: usize = node::child_index_for(&self.children, lower_bound);
        push_children(
            &mut walk.stack,
            clone_children(&self.children),
            held,
            node::ROOT_EXCLUSIVE_END,
            from,
            Ghost(self@.buffer),
        );
        proof {
            let height = node::max_height(kids) + 1;
            steps::lemma_max_height(kids, kids[0].height as int);
            assert forall|i: int| 0 <= i < kids.len() implies (#[trigger] kids[i]).height
                < height by {}
            let empty = Seq::<SubtreeView>::empty();
            lemma_pushed(
                self@.store,
                empty,
                kids,
                self@.buffer,
                node::ROOT_EXCLUSIVE_END,
                lower_bound,
                height,
                from as int,
            );
            let all = start_leaves(self@, lower_bound);
            assert(all.then_walk(Found::nothing()).items =~= all.items);
            let rows = rows_of(self@.store, all.items);
            assert(none + rows.items =~= rows.items);
        }
        walk
    }

    /// Advance an in-order walk by one fragment, reading one leaf at a time.
    /// Where an object has to be handed over first the walk stays where it is.
    pub fn walk_next(&self, walk: &mut FragmentWalk) -> (r: Result<Option<Fragment>, Stop>)
        ensures
            final(walk)@.lower_bound == old(walk)@.lower_bound,
            match r {
                Ok(fragment) => steps_on(
                    rows_to_come(self@.store, old(walk)@),
                    rows_to_come(self@.store, final(walk)@),
                    views::opt(fragment),
                ),
                Err(stop) => stops_with(rows_to_come(self@.store, old(walk)@), stop) && (old(walk)@.pending_error is None ==> rows_to_come(self@.store, final(walk)@)
                    == rows_to_come(self@.store, old(walk)@)),
            },
            r matches Err(stop) ==> store::honest(stop, self@.store),
    {
        let ghost store = self@.store;
        let ghost start = rows_to_come(store, walk@);
        if let Some(error) = walk.pending_error {
            walk.pending_error = None;
            return Err(Stop::Fail(error));
        }
        let ghost lower = walk.lower_bound;
        loop
            invariant
                store == self@.store,
                lower == walk.lower_bound,
                lower == old(walk)@.lower_bound,
                walk@.pending_error is None,
                old(walk)@.pending_error is None,
                start == rows_to_come(store, old(walk)@),
                start == rows_to_come(store, walk@),
            decreases leaves_ahead(store, walk@.stack, lower).items.len(), walk@.ready.len(),
        {
            let ghost before = walk@;
            let ghost rows = rows_of(store, leaves_ahead(store, before.stack, lower).items);
            if walk.ready.len() > 0 {
                if let Some(fragment) = walk.ready.pop() {
                    proof {
                        let all = before.ready + rows.items;
                        assert(before.ready[0] == fragment@);
                        assert(walk@.ready =~= before.ready.skip(1));
                        assert(all.skip(1) =~= walk@.ready + rows.items);
                        lemma_from_id_skip(all, lower);
                        assert(start.items == from_id(all, lower));
                        if fragment.id >= lower {
                            assert(start.items.skip(1) =~= from_id(all.skip(1), lower));
                        }
                    }
                    if fragment.id < walk.lower_bound {
                        continue;
                    }
                    return Ok(Some(fragment));
                }
                continue;
            }
            match walk.reach_leaf(&self.store) {
                Ok(()) => {},
                Err(stop) => {
                    proof {
                        assert(before.ready + rows.items =~= Seq::<FragmentView>::empty());
                        assert(from_id(Seq::<FragmentView>::empty(), lower) =~= Seq::<
                            FragmentView,
                        >::empty());
                    }
                    return Err(stop);
                },
            }
            let count: usize = walk.stack.len();
            if count == 0 {
                proof {
                    assert(before.ready + rows.items =~= Seq::<FragmentView>::empty());
                    assert(from_id(Seq::<FragmentView>::empty(), lower) =~= Seq::<
                        FragmentView,
                    >::empty());
                }
                return Ok(None);
            }
            let ghost stack = walk@.stack;
            let ghost all = leaves_ahead(store, stack, lower);
            let ghost rest = leaves_ahead(store, stack.drop_last(), lower);
            let ghost leaf = RoutedLeaf {
                child: stack.last().child,
                actions: stack.last().actions,
            };
            proof {
                assert(stack.last() == walk.stack@[count - 1]@);
                assert(all.items[0] == leaf);
                assert(all.items.skip(1) =~= rest.items);
                assert(all.error == rest.error);
            }
            let rows = match read_rows(&self.store, &walk.stack[count - 1]) {
                Ok(rows) => rows,
                Err(stop) => {
                    proof {
                        let none = Seq::<FragmentView>::empty();
                        assert(before.ready + rows_of(store, all.items).items =~= none);
                        assert(from_id(none, lower) =~= none);
                    }
                    return Err(stop);
                },
            };
            let ghost read = views::all(rows@);
            let _leaf = walk.stack.pop();
            walk.ready = reversed(rows);
            proof {
                assert(walk@.stack =~= stack.drop_last());
                assert(walk@.ready == read);
                let later = rows_of(store, rest.items);
                assert(before.ready + rows_of(store, all.items).items =~= read + later.items);
            }
        }
    }

    /// Traverse routing once, yielding leaves and their inherited actions in
    /// order. Leaf I/O can then be prefetched without buffering the full table.
    pub fn walk_next_leaf(&self, walk: &mut FragmentWalk) -> (r: Result<Option<BufferedChild>, Stop>)
        ensures
            final(walk)@.lower_bound == old(walk)@.lower_bound,
            final(walk)@.ready == old(walk)@.ready,
            match r {
                Ok(leaf) => steps_on(
                    leaves_to_come(self@.store, old(walk)@),
                    leaves_to_come(self@.store, final(walk)@),
                    views::opt(leaf),
                ),
                Err(stop) => stops_with(leaves_to_come(self@.store, old(walk)@), stop) && (old(walk)@.pending_error is None ==> leaves_to_come(self@.store, final(walk)@)
                    == leaves_to_come(self@.store, old(walk)@)),
            },
            r matches Err(stop) ==> store::honest(stop, self@.store),
    {
        // The leaf-prefetching streams drive this walk directly, so a routing
        // error found when the walk started must surface here too.
        if let Some(error) = walk.pending_error {
            walk.pending_error = None;
            return Err(Stop::Fail(error));
        }
        let ghost store = self@.store;
        let ghost lower = walk.lower_bound;
        match walk.reach_leaf(&self.store) {
            Ok(()) => {},
            Err(stop) => {
                return Err(stop);
            },
        }
        let ghost stack = walk@.stack;
        match walk.stack.pop() {
            None => Ok(None),
            Some(top) => {
                proof {
                    let rest = leaves_ahead(store, stack.drop_last(), lower);
                    let all = leaves_ahead(store, stack, lower);
                    assert(walk@.stack =~= stack.drop_last());
                    assert(stack.last() == top@);
                    assert(all.items.skip(1) =~= rest.items);
                }
                Ok(Some(BufferedChild { child: top.child, actions: top.actions }))
            },
        }
    }
}

/// The leaves of a tree with the mutations for them, skipping what lies before
/// a lower bound.
pub open spec fn start_leaves(t: TreeView, lower: u64) -> Found<RoutedLeaf> {
    if t.children.len() == 0 {
        match replay::replayed(Map::empty(), t.buffer, true).1 {
            Some(error) => Found::failed(Some(error)),
            None => Found::nothing(),
        }
    } else {
        match level_fault(t.children, t.buffer, node::ROOT_EXCLUSIVE_END) {
            Some(reason) => Found::failed(Some(Error::CorruptFile { reason })),
            None => routed_from(
                t.store,
                t.children,
                t.buffer,
                node::ROOT_EXCLUSIVE_END,
                lower,
                node::max_height(t.children) + 1,
                node::route(t.children, lower),
            ),
        }
    }
}

/// The records of a tree in order of their ids, from a lower bound on.
pub open spec fn start_rows(t: TreeView, lower: u64) -> Found<FragmentView> {
    let leaves = start_leaves(t, lower);
    if t.children.len() == 0 {
        match replay::replayed(Map::empty(), t.buffer, true).1 {
            Some(error) => Found::failed(Some(error)),
            None => Found {
                items: from_id(
                    listed(replay::replayed(Map::empty(), t.buffer, true).0),
                    lower,
                ),
                error: None,
            },
        }
    } else if level_fault(t.children, t.buffer, node::ROOT_EXCLUSIVE_END) is Some {
        Found::failed(leaves.error->0)
    } else {
        let rows = rows_of(t.store, leaves.items);
        Found {
            items: from_id(rows.items, lower),
            error: if rows.error is Some {
                rows.error
            } else {
                leaves.error
            },
        }
    }
}

// The whole table.

/// The records some leaves store, a later one in place of an earlier one.
pub open spec fn merged(store: StoreView, leaves: Seq<RoutedLeaf>) -> Result<
    Map<u64, FragmentView>,
    Option<Error>,
>
    decreases leaves.len(),
{
    if leaves.len() == 0 {
        Ok(Map::empty())
    } else {
        match merged(store, leaves.drop_last()) {
            Err(error) => Err(error),
            Ok(state) => match store::leaf_read(store, leaves.last().child) {
                Err(error) => Err(error),
                Ok(records) => Ok(state.union_prefer_right(steps::indexed(records))),
            },
        }
    }
}

/// The mutations for some leaves, leaf after leaf.
pub open spec fn actions_for(leaves: Seq<RoutedLeaf>) -> Seq<MutationView>
    decreases leaves.len(),
{
    if leaves.len() == 0 {
        Seq::empty()
    } else {
        actions_for(leaves.drop_last()) + leaves.last().actions
    }
}

/// Every record of a tree: what its leaves store with every buffered mutation
/// replayed.
pub open spec fn table(t: TreeView) -> Result<Seq<FragmentView>, Option<Error>> {
    let leaves = start_leaves(t, 0);
    if t.children.len() == 0 {
        let (state, error) = replay::replayed(Map::empty(), t.buffer, true);
        match error {
            Some(error) => Err(Some(error)),
            None => Ok(listed(state)),
        }
    } else if leaves.error is Some {
        Err(leaves.error->0)
    } else {
        match merged(t.store, leaves.items) {
            Err(error) => Err(error),
            Ok(base) => {
                let (state, error) = replay::replayed(base, actions_for(leaves.items), true);
                match error {
                    Some(error) => Err(Some(error)),
                    None => Ok(listed(state)),
                }
            },
        }
    }
}

proof fn lemma_merged_prefix(store: StoreView, leaves: Seq<RoutedLeaf>, n: int)
    requires
        0 <= n <= leaves.len(),
        merged(store, leaves.take(n)) is Err,
    ensures
        merged(store, leaves) == merged(store, leaves.take(n)),
    decreases leaves.len() - n,
{
    if n == leaves.len() {
        assert(leaves.take(n) =~= leaves);
    } else {
        assert(leaves.take(n + 1).drop_last() =~= leaves.take(n));
        lemma_merged_prefix(store, leaves, n + 1);
    }
}

/// Add records to a map.
pub(crate) fn add_records(map: &mut BTreeMap<u64, Fragment>, records: Vec<Fragment>)
    requires
        store::ascending(views::all(records@)),
    ensures
        replay::records(final(map)@) == replay::records(old(map)@).union_prefer_right(
            steps::indexed(views::all(records@)),
        ),
{
    let ghost start = replay::records(map@);
    let ghost all = views::all(records@);
    let mut i: usize = 0;
    proof {
        assert(steps::indexed(all.take(0)) =~= Map::empty());
        assert(start.union_prefer_right(Map::empty()) =~= start);
    }
    while i < records.len()
        invariant
            i <= records@.len(),
            all == views::all(records@),
            store::ascending(all),
            replay::records(map@) == start.union_prefer_right(
                steps::indexed(all.take(i as int)),
            ),
        decreases records@.len() - i,
    {
        let ghost before = map@;
        let record = records[i].clone();
        let ghost x = record@;
        proof {
            assert(x == all[i as int]);
            replay::lemma_records_insert(before, record.id, record);
            lemma_indexed_push(all.take(i as int), x);
            assert(all.take(i + 1) =~= all.take(i as int).push(x));
            assert(start.union_prefer_right(steps::indexed(all.take(i as int))).insert(x.id, x)
                =~= start.union_prefer_right(steps::indexed(all.take(i as int)).insert(x.id, x)));
        }
        map.insert(record.id, record);
        i = i + 1;
    }
    assert(all.take(all.len() as int) =~= all);
}

pub proof fn lemma_indexed_push(records: Seq<FragmentView>, x: FragmentView)
    requires
        store::ascending(records.push(x)),
    ensures
        steps::indexed(records.push(x)) == steps::indexed(records).insert(x.id, x),
{
    let more = records.push(x);
    assert(more.drop_last() =~= records);
    assert forall|key: u64| #![trigger world::found(more, key)]
        world::found(more, key) == if key == x.id {
            Some(x)
        } else {
            world::found(records, key)
        } by {
        lemma_found_prefix(more, key);
        leaves::lemma_found(more, records.len() as int);
    }
    assert(steps::indexed(more) =~= steps::indexed(records).insert(x.id, x));
}

/// Every record a merged map holds is held under its id.
proof fn lemma_merged_ids(store: StoreView, leaves: Seq<RoutedLeaf>)
    requires
        merged(store, leaves) is Ok,
    ensures
        forall|key: u64| #[trigger]
            merged(store, leaves)->Ok_0.contains_key(key) ==> merged(
                store,
                leaves,
            )->Ok_0[key].id == key,
    decreases leaves.len(),
{
    if leaves.len() > 0 {
        lemma_merged_ids(store, leaves.drop_last());
        let base = merged(store, leaves.drop_last())->Ok_0;
        let records = store::leaf_read(store, leaves.last().child)->Ok_0;
        let state = merged(store, leaves)->Ok_0;
        assert forall|key: u64| #[trigger] state.contains_key(key) implies state[key].id
            == key by {
            if steps::indexed(records).contains_key(key) {
                let k = leaves::lemma_found_some(records, key);
            } else {
                assert(base.contains_key(key));
            }
        }
    }
}

pub(crate) fn list_verified(
    map: BTreeMap<u64, Fragment>,
    actions: Vec<FragmentMetadataMutation>,
) -> (r: Result<Vec<Fragment>, Stop>)
    requires
        forall|key: u64| #[trigger]
            replay::records(map@).contains_key(key) ==> replay::records(map@)[key].id == key,
    ensures
        ({
            let (state, error) = replay::replayed(
                replay::records(map@),
                views::all(actions@),
                true,
            );
            match error {
                Some(error) => r == Err::<Vec<Fragment>, Stop>(Stop::Fail(error)),
                None => r is Ok && views::all(r->Ok_0@) == listed(state),
            }
        }),
{
    let ghost start = replay::records(map@);
    let ghost given = views::all(actions@);
    let mut map = map;
    match replay::apply_verified(&mut map, actions) {
        Ok(()) => {},
        Err(error) => {
            return Err(Stop::Fail(error));
        },
    }
    proof {
        drain::lemma_replayed_ids(start, given, true);
        let after = replay::records(map@);
        assert forall|key: u64| #[trigger] map@.contains_key(key) implies map@[key]@.id == key by {
            assert(after.contains_key(key));
            assert(after[key] == map@[key]@);
        }
    }
    let rows = drain::list_records(&map);
    proof {
        lemma_listed(views::all(rows@), replay::records(map@));
    }
    Ok(rows)
}

impl FragmentTree {
    fn collect_leaves(&self) -> (r: Result<Vec<BufferedChild>, Stop>)
        requires
            self@.wf(),
            self@.children.len() > 0,
        ensures
            match r {
                Ok(found) => start_leaves(self@, 0) == (Found {
                    items: views::all(found@),
                    error: None,
                }),
                Err(Stop::Fail(error)) => start_leaves(self@, 0).error == Some(Some(error)),
                Err(Stop::Need(_)) => start_leaves(self@, 0).error == Some(None::<Error>),
                Err(Stop::Collapsed) => false,
            },
            r matches Err(stop) ==> store::honest(stop, self@.store),
    {
        let mut walk = self.start_walk_from(0);
        let mut out: Vec<BufferedChild> = Vec::new();
        let ghost whole = start_leaves(self@, 0);
        assert(views::all(out@) + leaves_to_come(self@.store, walk@).items =~= whole.items);
        loop
            invariant
                whole == start_leaves(self@, 0),
                whole.items == views::all(out@) + leaves_to_come(self@.store, walk@).items,
                whole.error == leaves_to_come(self@.store, walk@).error,
            decreases leaves_to_come(self@.store, walk@).items.len(),
        {
            let ghost before = leaves_to_come(self@.store, walk@);
            let ghost done = views::all(out@);
            match self.walk_next_leaf(&mut walk) {
                Err(stop) => {
                    return Err(stop);
                },
                Ok(None) => {
                    assert(whole.items =~= done);
                    return Ok(out);
                },
                Ok(Some(leaf)) => {
                    out.push(leaf);
                    assert(done + before.items =~= views::all(out@) + before.items.skip(1));
                },
            }
        }
    }

    /// Collect all leaf fragments and replay buffered actions in action
    /// sequence number order.
    pub fn materialize(&self) -> (r: Result<Vec<Fragment>, Stop>)
        requires
            self@.wf(),
        ensures
            crate::tree::reads::answers(table(self@), r),
            r matches Ok(records) ==> table(self@) == Ok::<Seq<FragmentView>, Option<Error>>(
                views::all(records@),
            ),
            r matches Err(stop) ==> store::honest(stop, self@.store),
    {
        let mut map: BTreeMap<u64, Fragment> = BTreeMap::new();
        assert(replay::records(map@) =~= Map::empty());
        if self.children.len() == 0 {
            return list_verified(map, clone_mutations(&self.buffer));
        }
        let found = match self.collect_leaves() {
            Ok(found) => found,
            Err(stop) => {
                return Err(stop);
            },
        };
        let ghost all = views::all(found@);
        let ghost store = self@.store;
        let mut actions: Vec<FragmentMetadataMutation> = Vec::new();
        let mut i: usize = 0;
        while i < found.len()
            invariant
                i <= found@.len(),
                all == views::all(found@),
                store == self@.store,
                start_leaves(self@, 0) == (Found { items: all, error: None }),
                self@.children.len() > 0,
                merged(store, all.take(i as int)) == Ok::<
                    Map<u64, FragmentView>,
                    Option<Error>,
                >(replay::records(map@)),
                views::all(actions@) == actions_for(all.take(i as int)),
            decreases found@.len() - i,
        {
            proof {
                assert(all.take(i + 1).drop_last() =~= all.take(i as int));
                assert(all.take(i + 1).last() == found@[i as int]@);
                if merged(store, all.take(i + 1)) is Err {
                    lemma_merged_prefix(store, all, i + 1);
                }
            }
            let records = match self.store.read_leaf(&found[i].child) {
                Ok(records) => records,
                Err(stop) => {
                    return Err(stop);
                },
            };
            proof {
                steps::lemma_leaf_shape(store, found@[i as int]@.child);
            }
            add_records(&mut map, records);
            let mut more = clone_mutations(&found[i].actions);
            actions.append(&mut more);
            i = i + 1;
        }
        proof {
            assert(all.take(all.len() as int) =~= all);
            lemma_merged_ids(store, all);
        }
        list_verified(map, actions)
    }
}

} // verus!
