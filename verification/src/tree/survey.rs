//! Looking at every object a root reaches: reports on the shape of a tree and
//! checks of what holds of it as a whole.

use std::collections::BTreeSet;

use vstd::prelude::*;

use crate::error::{Error, Reason};
use crate::node;
use crate::pb::{clone_children, clone_mutations, ChildView, FragmentMetadataChild,
    FragmentMetadataMutation, FragmentMetadataRoot, MutationView};
use crate::steps;
use crate::store;
use crate::store::{NodeStore, Stop, StoreView};
use crate::tree::publication;
use crate::tree::{FragmentTree, TreeView};
use crate::views;
use crate::wire;

verus! {

broadcast use {crate::views::group_views, vstd::std_specs::btree::group_btree_axioms};

/// An object that was looked at: the reference to it and, for a node that was
/// read, what it holds.
pub struct Seen {
    pub child: FragmentMetadataChild,
    pub children: Vec<FragmentMetadataChild>,
    pub buffer: Vec<FragmentMetadataMutation>,
}

pub struct Visit {
    pub child: ChildView,
    pub children: Seq<ChildView>,
    pub buffer: Seq<MutationView>,
}

impl View for Seen {
    type V = Visit;

    open spec fn view(&self) -> Visit {
        Visit {
            child: self.child@,
            children: views::all(self.children@),
            buffer: views::all(self.buffer@),
        }
    }
}

/// A reference on its own, with nothing read behind it.
pub open spec fn bare(child: ChildView) -> Visit {
    Visit { child, children: Seq::empty(), buffer: Seq::empty() }
}

/// The objects at and below a reference, a node before what is below it and
/// the last child first, up to the first one that cannot be read. Leaves are
/// read where asked for.
pub open spec fn visit(store: StoreView, child: ChildView, leaves: bool) -> (
    Seq<Visit>,
    Option<Option<Error>>,
)
    decreases child.height, 1int, 0int,
{
    if child.height == 0 {
        (
            seq![bare(child)],
            if leaves && store::leaf_read(store, child) is Err {
                Some(store::leaf_read(store, child)->Err_0)
            } else {
                None
            },
        )
    } else {
        match store::node_read(store, child) {
            Err(error) => (seq![bare(child)], Some(error)),
            Ok((children, buffer)) => {
                let (below, error) = visit_all(store, children, child.height as int, leaves);
                (seq![Visit { child, children, buffer }] + below, error)
            },
        }
    }
}

/// The objects at and below some references, which are all lower than a
/// height.
pub open spec fn visit_all(
    store: StoreView,
    children: Seq<ChildView>,
    height: int,
    leaves: bool,
) -> (Seq<Visit>, Option<Option<Error>>)
    decreases height, 0int, children.len(),
{
    if children.len() == 0 || children.last().height >= height {
        (Seq::empty(), None)
    } else {
        let (first, error) = visit(store, children.last(), leaves);
        if error is Some {
            (first, error)
        } else {
            let (rest, error) = visit_all(store, children.drop_last(), height, leaves);
            (first + rest, error)
        }
    }
}

/// The objects a root reaches.
pub open spec fn reached(t: TreeView, leaves: bool) -> (Seq<Visit>, Option<Option<Error>>) {
    visit_all(t.store, t.children, node::max_height(t.children) + 1, leaves)
}

/// Whether a stop is what a survey ends with.
pub open spec fn stopped(error: Option<Option<Error>>, stop: Option<Stop>) -> bool {
    match error {
        None => stop is None,
        Some(Some(error)) => stop == Some(Stop::Fail(error)),
        Some(None) => stop matches Some(Stop::Need(_)),
    }
}

fn look(
    store: &NodeStore,
    child: &FragmentMetadataChild,
    leaves: bool,
    out: &mut Vec<Seen>,
) -> (r: Option<Stop>)
    ensures
        ({
            let (seen, error) = visit(store@, child@, leaves);
            &&& views::all(final(out)@) == views::all(old(out)@) + seen
            &&& stopped(error, r)
        }),
        r matches Some(stop) ==> store::honest(stop, store@),
    decreases child@.height, 1int, 0int,
{
    let ghost before = views::all(out@);
    if child.height == 0 {
        out.push(Seen { child: child.clone(), children: Vec::new(), buffer: Vec::new() });
        assert(views::all(out@) =~= before + seq![bare(child@)]);
        if leaves {
            return match store.read_leaf(child) {
                Ok(_) => None,
                Err(stop) => Some(stop),
            };
        }
        return None;
    }
    match store.read_internal(child) {
        Err(stop) => {
            out.push(Seen { child: child.clone(), children: Vec::new(), buffer: Vec::new() });
            assert(views::all(out@) =~= before + seq![bare(child@)]);
            Some(stop)
        },
        Ok(node) => {
            let kids = clone_children(&node.children);
            proof {
                steps::lemma_node_shape(store@, child@);
            }
            out.push(
                Seen { child: child.clone(), children: node.children, buffer: node.buffer },
            );
            let ghost middle = views::all(out@);
            assert(middle =~= before + seq![out@[out@.len() - 1]@]);
            let stop = look_at_all(store, &kids, leaves, out, Ghost(child@.height as int));
            assert(views::all(out@) =~= before + visit(store@, child@, leaves).0);
            stop
        },
    }
}

/// References behind others are looked at before them.
proof fn lemma_visit_prefix(
    store: StoreView,
    children: Seq<ChildView>,
    n: int,
    height: int,
    leaves: bool,
)
    requires
        0 < n <= children.len(),
        children[n - 1].height < height,
    ensures
        ({
            let (first, error) = visit(store, children[n - 1], leaves);
            let (rest, later) = visit_all(store, children.take(n - 1), height, leaves);
            visit_all(store, children.take(n), height, leaves) == if error is Some {
                (first, error)
            } else {
                (first + rest, later)
            }
        }),
{
    assert(children.take(n).drop_last() =~= children.take(n - 1));
    assert(children.take(n).last() == children[n - 1]);
}

fn look_at_all(
    store: &NodeStore,
    children: &Vec<FragmentMetadataChild>,
    leaves: bool,
    out: &mut Vec<Seen>,
    Ghost(height): Ghost<int>,
) -> (r: Option<Stop>)
    requires
        forall|i: int|
            0 <= i < children@.len() ==> (#[trigger] views::all(children@)[i]).height < height,
    ensures
        ({
            let (seen, error) = visit_all(store@, views::all(children@), height, leaves);
            &&& views::all(final(out)@) == views::all(old(out)@) + seen
            &&& stopped(error, r)
        }),
        r matches Some(stop) ==> store::honest(stop, store@),
    decreases height, 0int, children@.len(),
{
    let ghost before = views::all(out@);
    let ghost all = views::all(children@);
    let ghost whole = visit_all(store@, all, height, leaves);
    let mut left: usize = children.len();
    assert(all.take(all.len() as int) =~= all);
    assert(views::all(out@) =~= before + Seq::<Visit>::empty());
    let ghost mut done = Seq::<Visit>::empty();
    proof {
        let rest = visit_all(store@, all.take(left as int), height, leaves);
        assert(done + rest.0 =~= rest.0);
    }
    while left > 0
        invariant
            left <= children@.len(),
            all == views::all(children@),
            forall|i: int| 0 <= i < all.len() ==> (#[trigger] all[i]).height < height,
            whole == visit_all(store@, all, height, leaves),
            views::all(out@) == before + done,
            ({
                let (rest, error) = visit_all(store@, all.take(left as int), height, leaves);
                whole == (done + rest, error)
            }),
            before == views::all(old(out)@),
        decreases left,
    {
        let ghost rest = visit_all(store@, all.take(left as int), height, leaves);
        let ghost (first, error) = visit(store@, all[left - 1], leaves);
        let ghost next = visit_all(store@, all.take(left - 1), height, leaves);
        proof {
            assert(all[left - 1].height < height);
            lemma_visit_prefix(store@, all, left as int, height, leaves);
            assert(all[left - 1] == children@[left - 1]@);
        }
        let stop = look(store, &children[left - 1], leaves, out);
        proof {
            assert(views::all(out@) =~= before + (done + first));
            if error is None {
                assert(done + rest.0 =~= (done + first) + next.0);
            }
            done = done + first;
        }
        if stop.is_some() {
            return stop;
        }
        left = left - 1;
    }
    assert(all.take(0) =~= Seq::<ChildView>::empty());
    assert(done + Seq::<Visit>::empty() =~= done);
    None
}

impl FragmentTree {
    pub(crate) fn survey(&self, leaves: bool) -> (r: (Vec<Seen>, Option<Stop>))
        ensures
            views::all(r.0@) == reached(self@, leaves).0,
            stopped(reached(self@, leaves).1, r.1),
            r.1 matches Some(stop) ==> store::honest(stop, self@.store),
    {
        let mut out: Vec<Seen> = Vec::new();
        proof {
            lemma_tallest(self@.children);
        }
        let stop = look_at_all(
            &self.store,
            &self.children,
            leaves,
            &mut out,
            Ghost(node::max_height(self@.children) + 1),
        );
        assert(views::all(out@) =~= reached(self@, leaves).0);
        (out, stop)
    }
}

proof fn lemma_tallest(children: Seq<ChildView>)
    ensures
        forall|i: int|
            0 <= i < children.len() ==> (#[trigger] children[i]).height <= node::max_height(
                children,
            ),
    decreases children.len(),
{
    if children.len() > 0 {
        lemma_tallest(children.drop_last());
        assert forall|i: int| 0 <= i < children.len() implies (#[trigger] children[i]).height
            <= node::max_height(children) by {
            if i < children.len() - 1 {
                assert(children.drop_last()[i] == children[i]);
            }
        }
    }
}

/// What a survey gives: its result, the refusal, or nothing where an object
/// has to be handed over first.
pub open spec fn surveyed<T>(error: Option<Option<Error>>, r: Result<T, Stop>) -> bool {
    match error {
        None => r is Ok,
        Some(Some(error)) => r == Err::<T, Stop>(Stop::Fail(error)),
        Some(None) => r matches Err(Stop::Need(_)),
    }
}

// Buffered keys.

/// Whether a mutation of a fragment is in a buffer.
pub open spec fn names(buffer: Seq<MutationView>, key: u64) -> bool {
    exists|i: int| 0 <= i < buffer.len() && (#[trigger] buffer[i]).key() == key
}

/// Whether a mutation of a fragment is buffered in one of some objects.
pub open spec fn any_names(seen: Seq<Visit>, key: u64) -> bool {
    exists|i: int| 0 <= i < seen.len() && names((#[trigger] seen[i]).buffer, key)
}

fn add_keys(keys: &mut BTreeSet<u64>, buffer: &Vec<FragmentMetadataMutation>)
    ensures
        forall|key: u64| #[trigger]
            final(keys)@.contains(key) == (old(keys)@.contains(key) || names(
                views::all(buffer@),
                key,
            )),
{
    let ghost start = keys@;
    let ghost all = views::all(buffer@);
    let mut i: usize = 0;
    while i < buffer.len()
        invariant
            i <= buffer@.len(),
            all == views::all(buffer@),
            start == old(keys)@,
            forall|key: u64| #[trigger]
                keys@.contains(key) == (start.contains(key) || exists|j: int|
                    0 <= j < i && (#[trigger] all[j]).key() == key),
        decreases buffer@.len() - i,
    {
        let ghost before = keys@;
        let key: u64 = node::action_key(&buffer[i]);
        assert(all[i as int].key() == key);
        keys.insert(key);
        proof {
            assert forall|k: u64| #[trigger]
                keys@.contains(k) == (start.contains(k) || exists|j: int|
                    0 <= j < i + 1 && (#[trigger] all[j]).key() == k) by {
                if k != key {
                    assert(keys@.contains(k) == before.contains(k));
                    if exists|j: int| 0 <= j < i + 1 && (#[trigger] all[j]).key() == k {
                        let j = choose|j: int| 0 <= j < i + 1 && (#[trigger] all[j]).key() == k;
                        assert(j < i);
                    }
                }
            }
        }
        i = i + 1;
    }
}

// Shape.

/// Tree size and occupancy statistics.
#[derive(Debug)]
pub struct ShapeReport {
    /// Root-to-leaf edge count; see [`FragmentTree::height`].
    pub height: u32,
    pub root_bytes: u64,
    pub root_buffer_len: u64,
    pub root_buffer_bytes: u64,
    pub root_fanout: u32,
    /// Encoded leaf object sizes from child references.
    pub leaf_bytes: Vec<u64>,
    /// Actual encoded bytes used for the leaf-size policy.
    pub leaf_object_bytes: Vec<u64>,
    pub leaf_keys: Vec<u64>,
    pub node_bytes: Vec<u64>,
    pub node_fanouts: Vec<u32>,
    pub node_buffer_lens: Vec<u64>,
    pub node_buffer_bytes: Vec<u64>,
}

/// The leaves among some objects.
pub open spec fn leaves_of(seen: Seq<Visit>) -> Seq<Visit> {
    seen.filter(|v: Visit| v.child.height == 0)
}

/// The nodes among some objects.
pub open spec fn nodes_of(seen: Seq<Visit>) -> Seq<Visit> {
    seen.filter(|v: Visit| v.child.height != 0)
}

impl FragmentTree {
    /// Fragment ids that still have a buffered action somewhere in the tree,
    /// root included. Empty means every committed action has reached a leaf.
    pub fn buffered_action_keys(&self) -> (r: Result<BTreeSet<u64>, Stop>)
        ensures
            surveyed(reached(self@, false).1, r),
            r matches Ok(keys) ==> forall|key: u64| #[trigger]
                keys@.contains(key) == (names(self@.buffer, key) || any_names(
                    reached(self@, false).0,
                    key,
                )),
            r matches Err(stop) ==> store::honest(stop, self@.store),
    {
        let (seen, stop) = self.survey(false);
        if let Some(stop) = stop {
            return Err(stop);
        }
        let ghost all = views::all(seen@);
        let mut keys: BTreeSet<u64> = BTreeSet::new();
        add_keys(&mut keys, &self.buffer);
        let mut i: usize = 0;
        while i < seen.len()
            invariant
                i <= seen@.len(),
                all == views::all(seen@),
                forall|key: u64| #[trigger]
                    keys@.contains(key) == (names(self@.buffer, key) || exists|j: int|
                        0 <= j < i && names((#[trigger] all[j]).buffer, key)),
            decreases seen@.len() - i,
        {
            let ghost before = keys@;
            assert(all[i as int].buffer == views::all(seen@[i as int].buffer@));
            add_keys(&mut keys, &seen[i].buffer);
            proof {
                assert forall|key: u64| #[trigger]
                    keys@.contains(key) == (names(self@.buffer, key) || exists|j: int|
                        0 <= j < i + 1 && names((#[trigger] all[j]).buffer, key)) by {
                    assert(before.contains(key) == (names(self@.buffer, key) || exists|j: int|
                        0 <= j < i && names((#[trigger] all[j]).buffer, key)));
                    if exists|j: int| 0 <= j < i + 1 && names((#[trigger] all[j]).buffer, key) {
                        let j = choose|j: int|
                            0 <= j < i + 1 && names((#[trigger] all[j]).buffer, key);
                        if j < i {
                            assert(before.contains(key));
                        }
                    }
                }
            }
            i = i + 1;
        }
        Ok(keys)
    }

    /// Read every node and leaf reachable from this root, proving the
    /// published tree references no missing object. Returns the object count.
    pub fn verify_reachable(&self) -> (r: Result<u64, Stop>)
        ensures
            surveyed(reached(self@, true).1, r),
            r matches Ok(count) ==> count == reached(self@, true).0.len(),
            r matches Err(stop) ==> store::honest(stop, self@.store),
    {
        let (seen, stop) = self.survey(true);
        match stop {
            Some(stop) => Err(stop),
            None => {
                let count: usize = seen.len();
                Ok(count as u64)
            },
        }
    }

    /// Read node occupancy and encoded sizes. Leaf sizes come from child
    /// references.
    pub fn shape_report(&self) -> (r: Result<ShapeReport, Stop>)
        requires
            self@.wf(),
        ensures
            surveyed(reached(self@, false).1, r),
            r matches Ok(report) ==> {
                let leaves = leaves_of(reached(self@, false).0);
                let nodes = nodes_of(reached(self@, false).0);
                &&& report.height == node::max_height(self@.children) + 1
                &&& report.root_bytes == wire::capped(self@.root().encoded_len())
                &&& report.root_buffer_len == self@.buffer.len()
                &&& report.root_buffer_bytes == wire::capped(node::payload_len(self@.buffer))
                &&& report.root_fanout == self@.children.len() as u32
                &&& report.leaf_bytes@ == leaves.map_values(|v: Visit| v.child.object_size)
                &&& report.leaf_object_bytes@ == report.leaf_bytes@
                &&& report.leaf_keys@ == leaves.map_values(|v: Visit| v.child.num_keys)
                &&& report.node_bytes@ == nodes.map_values(|v: Visit| v.child.object_size)
                &&& report.node_fanouts@ == nodes.map_values(
                    |v: Visit| v.children.len() as u32,
                )
                &&& report.node_buffer_lens@ == nodes.map_values(
                    |v: Visit| v.buffer.len() as u64,
                )
                &&& report.node_buffer_bytes@ == nodes.map_values(
                    |v: Visit| wire::capped(node::payload_len(v.buffer)),
                )
            },
            r matches Err(stop) ==> store::honest(stop, self@.store),
    {
        let (seen, stop) = self.survey(false);
        if let Some(stop) = stop {
            return Err(stop);
        }
        let root = FragmentMetadataRoot {
            children: clone_children(&self.children),
            buffer: clone_mutations(&self.buffer),
            next_action_sequence: self.next_action_sequence,
        };
        assert(root@ == self@.root());
        let fanout: usize = self.children.len();
        let pending: usize = self.buffer.len();
        let mut report = ShapeReport {
            height: self.height(),
            root_bytes: publication::root_bytes(&root),
            root_buffer_len: pending as u64,
            root_buffer_bytes: node::buffer_bytes(&self.buffer),
            root_fanout: fanout as u32,
            leaf_bytes: Vec::new(),
            leaf_object_bytes: Vec::new(),
            leaf_keys: Vec::new(),
            node_bytes: Vec::new(),
            node_fanouts: Vec::new(),
            node_buffer_lens: Vec::new(),
            node_buffer_bytes: Vec::new(),
        };
        let ghost all = views::all(seen@);
        let ghost is_leaf = |v: Visit| v.child.height == 0;
        let ghost is_node = |v: Visit| v.child.height != 0;
        proof {
            assert(all.take(0) =~= Seq::<Visit>::empty());
            assert(leaves_of(all.take(0)) =~= Seq::<Visit>::empty());
            assert(nodes_of(all.take(0)) =~= Seq::<Visit>::empty());
        }
        let mut i: usize = 0;
        while i < seen.len()
            invariant
                i <= seen@.len(),
                all == views::all(seen@),
                is_leaf == (|v: Visit| v.child.height == 0),
                is_node == (|v: Visit| v.child.height != 0),
                report.height == node::max_height(self@.children) + 1,
                report.root_bytes == wire::capped(self@.root().encoded_len()),
                report.root_buffer_len == self@.buffer.len(),
                report.root_buffer_bytes == wire::capped(node::payload_len(self@.buffer)),
                report.root_fanout == self@.children.len() as u32,
                report.leaf_bytes@ =~= leaves_of(all.take(i as int)).map_values(
                    |v: Visit| v.child.object_size,
                ),
                report.leaf_object_bytes@ =~= report.leaf_bytes@,
                report.leaf_keys@ =~= leaves_of(all.take(i as int)).map_values(
                    |v: Visit| v.child.num_keys,
                ),
                report.node_bytes@ =~= nodes_of(all.take(i as int)).map_values(
                    |v: Visit| v.child.object_size,
                ),
                report.node_fanouts@ =~= nodes_of(all.take(i as int)).map_values(
                    |v: Visit| v.children.len() as u32,
                ),
                report.node_buffer_lens@ =~= nodes_of(all.take(i as int)).map_values(
                    |v: Visit| v.buffer.len() as u64,
                ),
                report.node_buffer_bytes@ =~= nodes_of(all.take(i as int)).map_values(
                    |v: Visit| wire::capped(node::payload_len(v.buffer)),
                ),
            decreases seen@.len() - i,
        {
            proof {
                assert(all.take(i + 1) =~= all.take(i as int).push(all[i as int]));
                all.take(i as int).lemma_filter_push(all[i as int], is_leaf);
                all.take(i as int).lemma_filter_push(all[i as int], is_node);
                assert(all[i as int] == seen@[i as int]@);
            }
            let object = &seen[i];
            if object.child.height == 0 {
                report.leaf_bytes.push(object.child.object_size);
                report.leaf_object_bytes.push(object.child.object_size);
                report.leaf_keys.push(object.child.num_keys);
            } else {
                let width: usize = object.children.len();
                let held: usize = object.buffer.len();
                report.node_bytes.push(object.child.object_size);
                report.node_fanouts.push(width as u32);
                report.node_buffer_lens.push(held as u64);
                report.node_buffer_bytes.push(node::buffer_bytes(&object.buffer));
            }
            i = i + 1;
        }
        assert(all.take(all.len() as int) =~= all);
        Ok(report)
    }
}

// Node sizes.

/// The heights and sizes of the nodes at and below a reference, a node before
/// what is below it and the first child first.
pub open spec fn sizes(store: StoreView, child: ChildView) -> (
    Seq<(u32, u64)>,
    Option<Option<Error>>,
)
    decreases child.height, 1int, 0int,
{
    if child.height == 0 {
        (Seq::empty(), None)
    } else {
        let own = seq![(child.height, child.object_size)];
        match store::node_read(store, child) {
            Err(error) => (own, Some(error)),
            Ok((children, _)) => {
                let (below, error) = sizes_all(store, children, child.height as int);
                (own + below, error)
            },
        }
    }
}

/// The heights and sizes of the nodes at and below some references, which are
/// all lower than a height.
pub open spec fn sizes_all(store: StoreView, children: Seq<ChildView>, height: int) -> (
    Seq<(u32, u64)>,
    Option<Option<Error>>,
)
    decreases height, 0int, children.len(),
{
    if children.len() == 0 || children.last().height >= height {
        (Seq::empty(), None)
    } else {
        let (before, error) = sizes_all(store, children.drop_last(), height);
        if error is Some {
            (before, error)
        } else {
            let (last, error) = sizes(store, children.last());
            (before + last, error)
        }
    }
}

proof fn lemma_sizes_prefix(store: StoreView, children: Seq<ChildView>, n: int, height: int)
    requires
        0 <= n <= children.len(),
        sizes_all(store, children.take(n), height).1 is Some,
        forall|i: int| 0 <= i < children.len() ==> (#[trigger] children[i]).height < height,
    ensures
        sizes_all(store, children, height) == sizes_all(store, children.take(n), height),
    decreases children.len() - n,
{
    if n == children.len() {
        assert(children.take(n) =~= children);
    } else {
        assert(children.take(n + 1).drop_last() =~= children.take(n));
        assert(children.take(n + 1).last() == children[n]);
        lemma_sizes_prefix(store, children, n + 1, height);
    }
}

fn measure(store: &NodeStore, child: &FragmentMetadataChild, out: &mut Vec<(u32, u64)>) -> (r:
    Option<Stop>)
    ensures
        final(out)@ == old(out)@ + sizes(store@, child@).0,
        stopped(sizes(store@, child@).1, r),
        r matches Some(stop) ==> store::honest(stop, store@),
    decreases child@.height, 1int, 0int,
{
    let ghost before = out@;
    if child.height == 0 {
        assert(out@ =~= before + Seq::<(u32, u64)>::empty());
        return None;
    }
    out.push((child.height, child.object_size));
    assert(out@ =~= before + seq![(child.height, child.object_size)]);
    match store.read_internal(child) {
        Err(stop) => Some(stop),
        Ok(node) => {
            proof {
                steps::lemma_node_shape(store@, child@);
            }
            let stop = measure_all(store, &node.children, out, Ghost(child@.height as int));
            assert(out@ =~= before + sizes(store@, child@).0);
            stop
        },
    }
}

fn measure_all(
    store: &NodeStore,
    children: &Vec<FragmentMetadataChild>,
    out: &mut Vec<(u32, u64)>,
    Ghost(height): Ghost<int>,
) -> (r: Option<Stop>)
    requires
        forall|i: int|
            0 <= i < children@.len() ==> (#[trigger] views::all(children@)[i]).height < height,
    ensures
        final(out)@ == old(out)@ + sizes_all(store@, views::all(children@), height).0,
        stopped(sizes_all(store@, views::all(children@), height).1, r),
        r matches Some(stop) ==> store::honest(stop, store@),
    decreases height, 0int, children@.len(),
{
    let ghost before = out@;
    let ghost all = views::all(children@);
    let mut i: usize = 0;
    assert(all.take(0) =~= Seq::<ChildView>::empty());
    assert(out@ =~= before + Seq::<(u32, u64)>::empty());
    while i < children.len()
        invariant
            i <= children@.len(),
            all == views::all(children@),
            before == old(out)@,
            forall|i: int| 0 <= i < all.len() ==> (#[trigger] all[i]).height < height,
            sizes_all(store@, all.take(i as int), height).1 is None,
            out@ == before + sizes_all(store@, all.take(i as int), height).0,
        decreases children@.len() - i,
    {
        let ghost done = sizes_all(store@, all.take(i as int), height).0;
        proof {
            assert(all[i as int].height < height);
            assert(all.take(i + 1).drop_last() =~= all.take(i as int));
            assert(all.take(i + 1).last() == children@[i as int]@);
        }
        let stop = measure(store, &children[i], out);
        proof {
            assert(out@ =~= before + (done + sizes(store@, all[i as int]).0));
            if sizes(store@, all[i as int]).1 is Some {
                lemma_sizes_prefix(store@, all, i + 1, height);
            }
        }
        if stop.is_some() {
            return stop;
        }
        i = i + 1;
    }
    assert(all.take(all.len() as int) =~= all);
    None
}

impl FragmentTree {
    /// Collect `(height, logical_bytes)` for each internal node, including
    /// the root.
    pub fn internal_node_sizes(&self) -> (r: Result<Vec<(u32, u64)>, Stop>)
        requires
            self@.wf(),
        ensures
            ({
                let height = node::max_height(self@.children) + 1;
                let (below, error) = sizes_all(self@.store, self@.children, height);
                &&& surveyed(error, r)
                &&& r matches Ok(out) ==> out@ == seq![
                    (
                        height as u32,
                        wire::capped(
                            node::children_len(self@.children) + node::buffer_len(self@.buffer),
                        ),
                    ),
                ] + below
            }),
            r matches Err(stop) ==> store::honest(stop, self@.store),
    {
        let mut out: Vec<(u32, u64)> = Vec::new();
        out.push((self.height(), node::internal_logical_bytes(&self.children, &self.buffer)));
        let ghost own = out@;
        proof {
            lemma_tallest(self@.children);
            assert(own =~= seq![own[0]]);
        }
        match measure_all(
            &self.store,
            &self.children,
            &mut out,
            Ghost(node::max_height(self@.children) + 1),
        ) {
            Some(stop) => Err(stop),
            None => Ok(out),
        }
    }
}

// Watermarks.

/// A reference put behind every other one whose fence is not larger.
pub open spec fn placed(children: Seq<ChildView>, x: ChildView) -> Seq<ChildView>
    decreases children.len(),
{
    if children.len() == 0 || children.last().min_key <= x.min_key {
        children.push(x)
    } else {
        placed(children.drop_last(), x).push(children.last())
    }
}

/// References in order of their fences, equals staying in the order they had.
pub open spec fn by_fence(children: Seq<ChildView>) -> Seq<ChildView>
    decreases children.len(),
{
    if children.len() == 0 {
        children
    } else {
        placed(by_fence(children.drop_last()), children.last())
    }
}

proof fn lemma_placed_at(children: Seq<ChildView>, x: ChildView, at: int)
    requires
        0 <= at <= children.len(),
        forall|i: int| at <= i < children.len() ==> (#[trigger] children[i]).min_key > x.min_key,
        at == 0 || children[at - 1].min_key <= x.min_key,
    ensures
        placed(children, x) == children.insert(at, x),
    decreases children.len(),
{
    if children.len() > 0 && children.last().min_key > x.min_key {
        let rest = children.drop_last();
        assert forall|i: int| at <= i < rest.len() implies (#[trigger] rest[i]).min_key
            > x.min_key by {
            assert(rest[i] == children[i]);
        }
        assert(at < children.len());
        lemma_placed_at(rest, x, at);
        assert(placed(children, x) =~= children.insert(at, x));
    } else {
        assert(at == children.len()) by {
            if at < children.len() {
                assert(children[children.len() - 1].min_key > x.min_key);
            }
        }
        assert(placed(children, x) =~= children.insert(at, x));
    }
}

fn sort_by_fence(children: &Vec<FragmentMetadataChild>) -> (r: Vec<FragmentMetadataChild>)
    ensures
        views::all(r@) == by_fence(views::all(children@)),
{
    let ghost all = views::all(children@);
    let mut out: Vec<FragmentMetadataChild> = Vec::new();
    let mut i: usize = 0;
    assert(all.take(0) =~= Seq::<ChildView>::empty());
    while i < children.len()
        invariant
            i <= children@.len(),
            all == views::all(children@),
            views::all(out@) == by_fence(all.take(i as int)),
        decreases children@.len() - i,
    {
        let mut at: usize = out.len();
        while at > 0 && out[at - 1].min_key > children[i].min_key
            invariant
                i < children@.len(),
                at <= out@.len(),
                forall|k: int|
                    at <= k < out@.len() ==> (#[trigger] out@[k])@.min_key
                        > children@[i as int]@.min_key,
            decreases at,
        {
            at = at - 1;
        }
        let ghost before = views::all(out@);
        proof {
            assert(all.take(i + 1).drop_last() =~= all.take(i as int));
            assert(all.take(i + 1).last() == children@[i as int]@);
            assert forall|k: int| at <= k < before.len() implies (#[trigger] before[k]).min_key
                > children@[i as int]@.min_key by {
                assert(before[k] == out@[k]@);
            }
            if at > 0 {
                assert(before[at - 1] == out@[at - 1]@);
            }
            lemma_placed_at(before, children@[i as int]@, at as int);
        }
        out.insert(at, children[i].clone());
        assert(views::all(out@) =~= before.insert(at as int, children@[i as int]@));
        i = i + 1;
    }
    assert(all.take(all.len() as int) =~= all);
    out
}

/// Everything some objects have buffered, object after object.
pub open spec fn pending_in(seen: Seq<Visit>) -> Seq<MutationView>
    decreases seen.len(),
{
    if seen.len() == 0 {
        Seq::empty()
    } else {
        pending_in(seen.drop_last()) + seen.last().buffer
    }
}

/// The references to some leaves.
pub open spec fn leaf_refs(seen: Seq<Visit>) -> Seq<ChildView> {
    leaves_of(seen).map_values(|v: Visit| v.child)
}

/// Why a buffered mutation contradicts the leaf it is for, where it does.
pub open spec fn ahead(leaves: Seq<ChildView>, m: MutationView) -> Option<Reason> {
    let watermark = leaves[node::route(leaves, m.key())].materialized_through_action_sequence;
    if leaves.len() > 0 && m.action_sequence <= watermark {
        Some(
            Reason::LeafAhead { action_sequence: m.action_sequence, key: m.key(), watermark },
        )
    } else {
        None
    }
}

/// The first buffered mutation that contradicts its leaf.
pub open spec fn first_ahead(leaves: Seq<ChildView>, pending: Seq<MutationView>) -> Option<Reason>
    decreases pending.len(),
{
    if pending.len() == 0 {
        None
    } else {
        match first_ahead(leaves, pending.drop_last()) {
            Some(reason) => Some(reason),
            None => ahead(leaves, pending.last()),
        }
    }
}

proof fn lemma_ahead_join(leaves: Seq<ChildView>, a: Seq<MutationView>, b: Seq<MutationView>)
    ensures
        first_ahead(leaves, a + b) == match first_ahead(leaves, a) {
            Some(reason) => Some(reason),
            None => first_ahead(leaves, b),
        },
    decreases b.len(),
{
    if b.len() == 0 {
        assert(a + b =~= a);
    } else {
        lemma_ahead_join(leaves, a, b.drop_last());
        assert((a + b).drop_last() =~= a + b.drop_last());
        assert((a + b).last() == b.last());
    }
}

fn find_ahead(
    leaves: &Vec<FragmentMetadataChild>,
    buffer: &Vec<FragmentMetadataMutation>,
) -> (r: Option<Reason>)
    ensures
        r == first_ahead(views::all(leaves@), views::all(buffer@)),
{
    let ghost all = views::all(buffer@);
    let ghost refs = views::all(leaves@);
    if leaves.len() == 0 {
        proof {
            lemma_none_ahead(refs, all);
        }
        return None;
    }
    let mut i: usize = 0;
    while i < buffer.len()
        invariant
            i <= buffer@.len(),
            all == views::all(buffer@),
            refs == views::all(leaves@),
            leaves@.len() > 0,
            first_ahead(refs, all.take(i as int)) is None,
        decreases buffer@.len() - i,
    {
        let key: u64 = node::action_key(&buffer[i]);
        let at: usize = node::child_index_for(leaves, key);
        let watermark: u64 = leaves[at].materialized_through_action_sequence;
        proof {
            assert(all.take(i + 1).drop_last() =~= all.take(i as int));
            assert(all.take(i + 1).last() == buffer@[i as int]@);
            assert(refs[at as int] == leaves@[at as int]@);
        }
        if buffer[i].action_sequence <= watermark {
            proof {
                assert(all =~= all.take(i + 1) + all.skip(i + 1));
                lemma_ahead_join(refs, all.take(i + 1), all.skip(i + 1));
            }
            return Some(
                Reason::LeafAhead {
                    action_sequence: buffer[i].action_sequence,
                    key,
                    watermark,
                },
            );
        }
        i = i + 1;
    }
    assert(all.take(all.len() as int) =~= all);
    None
}

proof fn lemma_none_ahead(leaves: Seq<ChildView>, pending: Seq<MutationView>)
    requires
        leaves.len() == 0,
    ensures
        first_ahead(leaves, pending) is None,
    decreases pending.len(),
{
    if pending.len() > 0 {
        lemma_none_ahead(leaves, pending.drop_last());
    }
}

impl FragmentTree {
    /// The leaf-watermark invariant: every action still buffered anywhere in
    /// the tree must be newer than the leaf watermark it routes to. A
    /// violation would mean a leaf claims to hold a change it never applied.
    pub fn verify_watermarks(&self) -> (r: Result<(), Stop>)
        ensures
            ({
                let (seen, error) = reached(self@, false);
                let leaves = by_fence(leaf_refs(seen));
                match error {
                    Some(_) => surveyed(error, r),
                    None => r == match first_ahead(leaves, self@.buffer + pending_in(seen)) {
                        Some(reason) => Err::<(), Stop>(
                            Stop::Fail(Error::InvalidInput { reason }),
                        ),
                        None => Ok(()),
                    },
                }
            }),
            r matches Err(stop) ==> store::honest(stop, self@.store),
    {
        let (seen, stop) = self.survey(false);
        if let Some(stop) = stop {
            return Err(stop);
        }
        let ghost all = views::all(seen@);
        let ghost is_leaf = |v: Visit| v.child.height == 0;
        let mut found: Vec<FragmentMetadataChild> = Vec::new();
        let mut i: usize = 0;
        proof {
            assert(all.take(0) =~= Seq::<Visit>::empty());
            assert(leaf_refs(all.take(0)) =~= Seq::<ChildView>::empty());
        }
        while i < seen.len()
            invariant
                i <= seen@.len(),
                all == views::all(seen@),
                is_leaf == (|v: Visit| v.child.height == 0),
                views::all(found@) =~= leaf_refs(all.take(i as int)),
            decreases seen@.len() - i,
        {
            proof {
                assert(all.take(i + 1) =~= all.take(i as int).push(all[i as int]));
                all.take(i as int).lemma_filter_push(all[i as int], is_leaf);
                assert(all[i as int] == seen@[i as int]@);
            }
            if seen[i].child.height == 0 {
                found.push(seen[i].child.clone());
            }
            i = i + 1;
        }
        assert(all.take(all.len() as int) =~= all);
        let leaves = sort_by_fence(&found);
        let ghost refs = views::all(leaves@);
        if let Some(reason) = find_ahead(&leaves, &self.buffer) {
            proof {
                lemma_ahead_join(refs, self@.buffer, pending_in(all));
            }
            return Err(Stop::Fail(Error::InvalidInput { reason }));
        }
        let mut i: usize = 0;
        proof {
            assert(self@.buffer + pending_in(all.take(0)) =~= self@.buffer);
        }
        while i < seen.len()
            invariant
                i <= seen@.len(),
                all == views::all(seen@),
                refs == views::all(leaves@),
                all == reached(self@, false).0,
                reached(self@, false).1 is None,
                refs == by_fence(leaf_refs(all)),
                first_ahead(refs, self@.buffer + pending_in(all.take(i as int))) is None,
            decreases seen@.len() - i,
        {
            proof {
                let so_far = self@.buffer + pending_in(all.take(i as int));
                assert(all.take(i + 1).drop_last() =~= all.take(i as int));
                assert(all.take(i + 1).last() == all[i as int]);
                assert(self@.buffer + pending_in(all.take(i + 1)) =~= so_far
                    + all[i as int].buffer);
                lemma_ahead_join(refs, so_far, all[i as int].buffer);
                assert(all[i as int] == seen@[i as int]@);
            }
            if let Some(reason) = find_ahead(&leaves, &seen[i].buffer) {
                proof {
                    lemma_pending_prefix(all, i + 1);
                    let taken = self@.buffer + pending_in(all.take(i + 1));
                    let rest = pending_in(all.skip(i + 1));
                    assert(self@.buffer + pending_in(all) =~= taken + rest);
                    lemma_ahead_join(refs, taken, rest);
                }
                return Err(Stop::Fail(Error::InvalidInput { reason }));
            }
            i = i + 1;
        }
        assert(all.take(all.len() as int) =~= all);
        Ok(())
    }
}

proof fn lemma_pending_prefix(seen: Seq<Visit>, n: int)
    requires
        0 <= n <= seen.len(),
    ensures
        pending_in(seen) == pending_in(seen.take(n)) + pending_in(seen.skip(n)),
    decreases seen.len(),
{
    if seen.len() == n {
        assert(seen.take(n) =~= seen);
        assert(pending_in(seen.skip(n)) =~= Seq::<MutationView>::empty());
        assert(pending_in(seen) =~= pending_in(seen) + Seq::<MutationView>::empty());
    } else {
        let rest = seen.drop_last();
        lemma_pending_prefix(rest, n);
        assert(rest.take(n) =~= seen.take(n));
        assert(seen.skip(n).drop_last() =~= rest.skip(n));
        assert(seen.skip(n).last() == seen.last());
        assert(pending_in(seen) =~= pending_in(seen.take(n)) + pending_in(seen.skip(n)));
    }
}

// Paths.

/// Whether bytes come before other bytes in dictionary order.
pub open spec fn precedes(a: Seq<u8>, b: Seq<u8>) -> bool
    decreases a.len(),
{
    if b.len() == 0 {
        false
    } else if a.len() == 0 {
        true
    } else if a[0] != b[0] {
        a[0] < b[0]
    } else {
        precedes(a.skip(1), b.skip(1))
    }
}

/// The bytes of a text.
pub open spec fn text_bytes(text: Seq<char>) -> Seq<u8> {
    vstd::utf8::encode_utf8(text)
}

fn comes_before(a: &String, b: &String) -> (r: bool)
    ensures
        r == precedes(text_bytes(a@), text_bytes(b@)),
{
    let x: &[u8] = a.as_str().as_bytes();
    let y: &[u8] = b.as_str().as_bytes();
    let ghost left = x@;
    let ghost right = y@;
    let mut i: usize = 0;
    assert(left.skip(0) =~= left && right.skip(0) =~= right);
    while i < x.len() && i < y.len() && x[i] == y[i]
        invariant
            i <= x@.len(),
            i <= y@.len(),
            left == x@,
            right == y@,
            precedes(left, right) == precedes(left.skip(i as int), right.skip(i as int)),
        decreases x@.len() - i,
    {
        proof {
            let p = left.skip(i as int);
            let q = right.skip(i as int);
            assert(p[0] == left[i as int] && q[0] == right[i as int]);
            assert(p.skip(1) =~= left.skip(i + 1));
            assert(q.skip(1) =~= right.skip(i + 1));
        }
        i = i + 1;
    }
    proof {
        let p = left.skip(i as int);
        let q = right.skip(i as int);
        if i < left.len() {
            assert(p[0] == left[i as int]);
        }
        if i < right.len() {
            assert(q[0] == right[i as int]);
        }
    }
    if i >= y.len() {
        false
    } else if i >= x.len() {
        true
    } else {
        x[i] < y[i]
    }
}

/// Whether no path comes after one that it precedes.
pub open spec fn in_dictionary_order(paths: Seq<Seq<char>>) -> bool {
    forall|i: int, j: int|
        0 <= i < j < paths.len() ==> !precedes(
            text_bytes(#[trigger] paths[j]),
            text_bytes(#[trigger] paths[i]),
        )
}

proof fn lemma_precedes_transitive(a: Seq<u8>, b: Seq<u8>, c: Seq<u8>)
    requires
        !precedes(b, a),
        !precedes(c, b),
    ensures
        !precedes(c, a),
    decreases a.len(),
{
    if a.len() > 0 && b.len() > 0 && c.len() > 0 && a[0] == b[0] && b[0] == c[0] {
        lemma_precedes_transitive(a.skip(1), b.skip(1), c.skip(1));
    }
}

proof fn lemma_precedes_irreflexive(a: Seq<u8>, b: Seq<u8>)
    requires
        precedes(a, b),
    ensures
        !precedes(b, a),
    decreases a.len(),
{
    if a.len() > 0 && a[0] == b[0] {
        lemma_precedes_irreflexive(a.skip(1), b.skip(1));
    }
}

/// Put a path where it belongs among others.
pub(crate) fn insert_path(paths: &mut Vec<String>, path: String)
    requires
        in_dictionary_order(views::all(old(paths)@)),
    ensures
        in_dictionary_order(views::all(final(paths)@)),
        views::all(final(paths)@).to_multiset() == views::all(
            old(paths)@,
        ).to_multiset().insert(path@),
{
    let ghost before = views::all(paths@);
    let mut at: usize = paths.len();
    while at > 0 && comes_before(&path, &paths[at - 1])
        invariant
            at <= paths@.len(),
            before == views::all(paths@),
            forall|k: int|
                at <= k < before.len() ==> precedes(
                    text_bytes(path@),
                    text_bytes(#[trigger] before[k]),
                ),
        decreases at,
    {
        assert(before[at - 1] == paths@[at - 1]@);
        at = at - 1;
    }
    let ghost x = path@;
    proof {
        if at > 0 {
            assert(before[at - 1] == paths@[at - 1]@);
        }
    }
    paths.insert(at, path);
    proof {
        let after = views::all(paths@);
        assert(after =~= before.insert(at as int, x));
        assert forall|i: int, j: int| 0 <= i < j < after.len() implies !precedes(
            text_bytes(#[trigger] after[j]),
            text_bytes(#[trigger] after[i]),
        ) by {
            if j == at {
                let last = before[at - 1];
                if i < at - 1 {
                    assert(after[i] == before[i]);
                    lemma_precedes_transitive(text_bytes(before[i]), text_bytes(last), text_bytes(x));
                }
            } else if i == at {
                assert(after[j] == before[j - 1]);
                lemma_precedes_irreflexive(text_bytes(x), text_bytes(before[j - 1]));
            } else {
                let a = if i < at {
                    i
                } else {
                    i - 1
                };
                let b = if j < at {
                    j
                } else {
                    j - 1
                };
                assert(after[i] == before[a] && after[j] == before[b]);
            }
        }
        vstd::seq_lib::to_multiset_insert(before, at as int, x);
    }
}

} // verus!
