//! The tree objects a session knows, and reading and writing them.
//!
//! Storage lies outside. A session knows the objects it was handed and the
//! ones it wrote; an operation that needs another one stops and says which
//! ([`Stop::Need`]), and is run again once it was handed over. Objects are
//! immutable and every write gets a path of its own, so running an operation
//! again gives the same tree.

use vstd::prelude::*;

use crate::error::{Error, Reason};
use crate::inherit;
use crate::node;
use crate::node::{FragmentMetadataTreeConfig, InternalNode};
use crate::partial::{HeadersPart, RowPart, StoredHeaders, StoredRow};
use crate::paths;
use crate::pb::{ChildView, FragmentMetadataChild, FragmentMetadataMutation, MutationView};
use crate::record;
use crate::record::{Fragment, FragmentView};
use crate::same;
use crate::validation;
use crate::views;
use crate::wire;

verus! {

broadcast use crate::views::group_views;

/// What an object is known by: its path and the dataset that owns it.
pub struct Loc {
    pub path: Seq<char>,
    pub base_id: Option<u32>,
}

impl ChildView {
    /// The object a reference names.
    pub open spec fn loc(self) -> Loc {
        Loc { path: self.path, base_id: self.base_id }
    }
}

/// An internal node as stored.
pub struct StoredNode {
    pub path: String,
    pub base_id: Option<u32>,
    pub object_size: u64,
    pub children: Vec<FragmentMetadataChild>,
    pub buffer: Vec<FragmentMetadataMutation>,
}

pub struct NodeView {
    pub loc: Loc,
    pub object_size: u64,
    pub children: Seq<ChildView>,
    pub buffer: Seq<MutationView>,
}

impl View for StoredNode {
    type V = NodeView;

    open spec fn view(&self) -> NodeView {
        NodeView {
            loc: Loc { path: self.path@, base_id: self.base_id },
            object_size: self.object_size,
            children: views::all(self.children@),
            buffer: views::all(self.buffer@),
        }
    }
}

/// A leaf as stored.
pub struct StoredLeaf {
    pub path: String,
    pub base_id: Option<u32>,
    pub object_size: u64,
    pub fragments: Vec<Fragment>,
}

pub struct LeafView {
    pub loc: Loc,
    pub object_size: u64,
    pub fragments: Seq<FragmentView>,
}

impl View for StoredLeaf {
    type V = LeafView;

    open spec fn view(&self) -> LeafView {
        LeafView {
            loc: Loc { path: self.path@, base_id: self.base_id },
            object_size: self.object_size,
            fragments: views::all(self.fragments@),
        }
    }
}

/// How many bytes some records take as a leaf.
pub struct LeafSize {
    pub fragments: Vec<Fragment>,
    pub bytes: u64,
}

pub struct SizeView {
    pub fragments: Seq<FragmentView>,
    pub bytes: u64,
}

impl View for LeafSize {
    type V = SizeView;

    open spec fn view(&self) -> SizeView {
        SizeView { fragments: views::all(self.fragments@), bytes: self.bytes }
    }
}

/// What an operation needs to be handed before it can go on.
pub enum Request {
    /// The internal node a reference names.
    Node(FragmentMetadataChild),
    /// The leaf a reference names.
    Leaf(FragmentMetadataChild),
    /// The id and header columns of the leaf a reference names.
    Headers(FragmentMetadataChild),
    /// One row of the leaf a reference names.
    Row(FragmentMetadataChild, u64),
    /// The encoded size of a leaf with these records.
    LeafSize(Vec<Fragment>),
}

/// Why an operation did not finish.
pub enum Stop {
    /// Something has to be handed over first.
    Need(Request),
    /// The operation is refused.
    Fail(Error),
    /// A subtree shrank to a chain of single-child interiors, which the
    /// format forbids and no sibling can repair. The tree has to be rebuilt
    /// in bulk.
    Collapsed,
}

/// The tree objects a session knows.
pub struct NodeStore {
    pub nodes: Vec<StoredNode>,
    pub leaves: Vec<StoredLeaf>,
    /// Leaves of which the headers were read.
    pub headers: Vec<StoredHeaders>,
    /// Rows of leaves that were read alone.
    pub rows: Vec<StoredRow>,
    pub sizes: Vec<LeafSize>,
    pub next_action_sequence: u64,
    pub hard_capacity_bytes: u64,
    /// How many objects storage reads and writes at once.
    pub io_parallelism: usize,
}

pub struct StoreView {
    pub nodes: Seq<NodeView>,
    pub leaves: Seq<LeafView>,
    pub headers: Seq<HeadersPart>,
    pub rows: Seq<RowPart>,
    pub sizes: Seq<SizeView>,
    pub next_action_sequence: u64,
    pub hard_capacity_bytes: u64,
    pub io_parallelism: usize,
}

impl View for NodeStore {
    type V = StoreView;

    open spec fn view(&self) -> StoreView {
        StoreView {
            nodes: views::all(self.nodes@),
            leaves: views::all(self.leaves@),
            headers: views::all(self.headers@),
            rows: views::all(self.rows@),
            sizes: views::all(self.sizes@),
            next_action_sequence: self.next_action_sequence,
            hard_capacity_bytes: self.hard_capacity_bytes,
            io_parallelism: self.io_parallelism,
        }
    }
}

/// The position of the first node at a place; the length where there is none.
pub open spec fn node_index(nodes: Seq<NodeView>, loc: Loc) -> int
    decreases nodes.len(),
{
    if nodes.len() == 0 {
        0
    } else {
        let rest = node_index(nodes.drop_last(), loc);
        if rest < nodes.len() - 1 || nodes.last().loc == loc {
            rest
        } else {
            nodes.len() as int
        }
    }
}

/// The position of the first leaf at a place; the length where there is none.
pub open spec fn leaf_index(leaves: Seq<LeafView>, loc: Loc) -> int
    decreases leaves.len(),
{
    if leaves.len() == 0 {
        0
    } else {
        let rest = leaf_index(leaves.drop_last(), loc);
        if rest < leaves.len() - 1 || leaves.last().loc == loc {
            rest
        } else {
            leaves.len() as int
        }
    }
}

/// The position of the first size known for some records.
pub open spec fn size_index(sizes: Seq<SizeView>, fragments: Seq<FragmentView>) -> int
    decreases sizes.len(),
{
    if sizes.len() == 0 {
        0
    } else {
        let rest = size_index(sizes.drop_last(), fragments);
        if rest < sizes.len() - 1 || sizes.last().fragments == fragments {
            rest
        } else {
            sizes.len() as int
        }
    }
}

pub proof fn lemma_node_index(nodes: Seq<NodeView>, loc: Loc)
    ensures
        0 <= node_index(nodes, loc) <= nodes.len(),
        forall|i: int| 0 <= i < node_index(nodes, loc) ==> (#[trigger] nodes[i]).loc != loc,
        node_index(nodes, loc) < nodes.len() ==> nodes[node_index(nodes, loc)].loc == loc,
    decreases nodes.len(),
{
    if nodes.len() > 0 {
        let rest = nodes.drop_last();
        lemma_node_index(rest, loc);
        assert forall|i: int| 0 <= i < node_index(nodes, loc) implies (#[trigger] nodes[i]).loc
            != loc by {
            if i < rest.len() {
                assert(rest[i] == nodes[i]);
            }
        }
        if node_index(rest, loc) < rest.len() {
            assert(rest[node_index(rest, loc)] == nodes[node_index(rest, loc)]);
        }
    }
}

pub proof fn lemma_leaf_index(leaves: Seq<LeafView>, loc: Loc)
    ensures
        0 <= leaf_index(leaves, loc) <= leaves.len(),
        forall|i: int| 0 <= i < leaf_index(leaves, loc) ==> (#[trigger] leaves[i]).loc != loc,
        leaf_index(leaves, loc) < leaves.len() ==> leaves[leaf_index(leaves, loc)].loc == loc,
    decreases leaves.len(),
{
    if leaves.len() > 0 {
        let rest = leaves.drop_last();
        lemma_leaf_index(rest, loc);
        assert forall|i: int| 0 <= i < leaf_index(leaves, loc) implies (#[trigger] leaves[i]).loc
            != loc by {
            if i < rest.len() {
                assert(rest[i] == leaves[i]);
            }
        }
        if leaf_index(rest, loc) < rest.len() {
            assert(rest[leaf_index(rest, loc)] == leaves[leaf_index(rest, loc)]);
        }
    }
}

pub proof fn lemma_size_index(sizes: Seq<SizeView>, fragments: Seq<FragmentView>)
    ensures
        0 <= size_index(sizes, fragments) <= sizes.len(),
        forall|i: int|
            0 <= i < size_index(sizes, fragments) ==> (#[trigger] sizes[i]).fragments
                != fragments,
        size_index(sizes, fragments) < sizes.len() ==> sizes[size_index(
            sizes,
            fragments,
        )].fragments == fragments,
    decreases sizes.len(),
{
    if sizes.len() > 0 {
        let rest = sizes.drop_last();
        lemma_size_index(rest, fragments);
        assert forall|i: int| 0 <= i < size_index(sizes, fragments) implies (
        #[trigger] sizes[i]).fragments != fragments by {
            if i < rest.len() {
                assert(rest[i] == sizes[i]);
            }
        }
        if size_index(rest, fragments) < rest.len() {
            assert(rest[size_index(rest, fragments)] == sizes[size_index(rest, fragments)]);
        }
    }
}

impl StoreView {
    pub open spec fn knows_node(self, loc: Loc) -> bool {
        node_index(self.nodes, loc) < self.nodes.len()
    }

    pub open spec fn knows_leaf(self, loc: Loc) -> bool {
        leaf_index(self.leaves, loc) < self.leaves.len()
    }

    /// The encoded size of a leaf with these records, where it is known.
    pub open spec fn size_of(self, fragments: Seq<FragmentView>) -> Option<u64> {
        let at = size_index(self.sizes, fragments);
        if at < self.sizes.len() {
            Some(self.sizes[at].bytes)
        } else {
            None
        }
    }

    /// Whether no two known objects are at one place.
    pub open spec fn unique(self) -> bool {
        &&& forall|i: int, j: int|
            0 <= i < j < self.nodes.len() ==> (#[trigger] self.nodes[i]).loc != (
            #[trigger] self.nodes[j]).loc
        &&& forall|i: int, j: int|
            0 <= i < j < self.leaves.len() ==> (#[trigger] self.leaves[i]).loc != (
            #[trigger] self.leaves[j]).loc
    }

    /// Whether everything another store knew is still known, in its place.
    pub open spec fn extends(self, before: StoreView) -> bool {
        &&& self.nodes.len() >= before.nodes.len()
        &&& self.leaves.len() >= before.leaves.len()
        &&& self.nodes.take(before.nodes.len() as int) == before.nodes
        &&& self.leaves.take(before.leaves.len() as int) == before.leaves
        &&& self.headers == before.headers
        &&& self.rows == before.rows
        &&& self.sizes == before.sizes
        &&& self.next_action_sequence == before.next_action_sequence
        &&& self.hard_capacity_bytes == before.hard_capacity_bytes
        &&& self.io_parallelism == before.io_parallelism
    }

    /// Whether a request asks for something that is not known.
    pub open spec fn lacks(self, request: Request) -> bool {
        match request {
            Request::Node(child) => !self.knows_node(child@.loc()),
            Request::Leaf(child) => !self.knows_leaf(child@.loc()),
            Request::Headers(child) => !self.knows_leaf(child@.loc()) && !self.knows_headers(
                child@.loc(),
            ),
            Request::Row(child, row) => !self.knows_leaf(child@.loc()) && !self.knows_row(
                child@.loc(),
                row,
            ),
            Request::LeafSize(fragments) => self.size_of(views::all(fragments@)) is None,
        }
    }
}

/// Whether a stop that asks for something asks for what is not known.
pub open spec fn honest(stop: Stop, store: StoreView) -> bool {
    stop matches Stop::Need(request) ==> store.lacks(request)
}

pub proof fn lemma_extends_transitive(a: StoreView, b: StoreView, c: StoreView)
    requires
        b.extends(a),
        c.extends(b),
    ensures
        c.extends(a),
{
    assert(c.nodes.take(a.nodes.len() as int) =~= a.nodes) by {
        assert forall|i: int| 0 <= i < a.nodes.len() implies c.nodes[i] == a.nodes[i] by {
            assert(b.nodes.take(a.nodes.len() as int)[i] == a.nodes[i]);
            assert(c.nodes.take(b.nodes.len() as int)[i] == b.nodes[i]);
        }
    }
    assert(c.leaves.take(a.leaves.len() as int) =~= a.leaves) by {
        assert forall|i: int| 0 <= i < a.leaves.len() implies c.leaves[i] == a.leaves[i] by {
            assert(b.leaves.take(a.leaves.len() as int)[i] == a.leaves[i]);
            assert(c.leaves.take(b.leaves.len() as int)[i] == b.leaves[i]);
        }
    }
}

pub proof fn lemma_extends_self(a: StoreView)
    ensures
        a.extends(a),
{
    assert(a.nodes.take(a.nodes.len() as int) =~= a.nodes);
    assert(a.leaves.take(a.leaves.len() as int) =~= a.leaves);
}

proof fn lemma_leaf_stays(before: StoreView, after: StoreView, loc: Loc)
    requires
        after.extends(before),
        before.knows_leaf(loc),
    ensures
        after.knows_leaf(loc),
{
    lemma_leaf_index(before.leaves, loc);
    lemma_leaf_index(after.leaves, loc);
    let at = leaf_index(before.leaves, loc);
    assert(after.leaves.take(before.leaves.len() as int)[at] == before.leaves[at]);
    assert(after.leaves[at].loc == loc);
}

/// What is known stays known as a store grows.
pub proof fn lemma_extends_lacks(before: StoreView, after: StoreView, stop: Stop)
    requires
        after.extends(before),
        honest(stop, after),
    ensures
        honest(stop, before),
{
    if let Stop::Need(request) = stop {
        match request {
            Request::Node(child) => {
                let loc = child@.loc();
                lemma_node_index(before.nodes, loc);
                lemma_node_index(after.nodes, loc);
                let at = node_index(before.nodes, loc);
                if at < before.nodes.len() {
                    assert(after.nodes.take(before.nodes.len() as int)[at] == before.nodes[at]);
                    assert(after.nodes[at].loc == loc);
                }
            },
            Request::Leaf(child) => {
                if before.knows_leaf(child@.loc()) {
                    lemma_leaf_stays(before, after, child@.loc());
                }
            },
            Request::Headers(child) => {
                if before.knows_leaf(child@.loc()) {
                    lemma_leaf_stays(before, after, child@.loc());
                }
            },
            Request::Row(child, _) => {
                if before.knows_leaf(child@.loc()) {
                    lemma_leaf_stays(before, after, child@.loc());
                }
            },
            Request::LeafSize(_) => {},
        }
    }
}

/// The bytes of some nodes.
pub open spec fn node_bytes(nodes: Seq<NodeView>) -> nat
    decreases nodes.len(),
{
    if nodes.len() == 0 {
        0
    } else {
        node_bytes(nodes.drop_last()) + nodes.last().object_size as nat
    }
}

/// The bytes of some leaves.
pub open spec fn leaf_bytes(leaves: Seq<LeafView>) -> nat
    decreases leaves.len(),
{
    if leaves.len() == 0 {
        0
    } else {
        leaf_bytes(leaves.drop_last()) + leaves.last().object_size as nat
    }
}

impl StoreView {
    /// The bytes of every known object.
    pub open spec fn bytes(self) -> nat {
        node_bytes(self.nodes) + leaf_bytes(self.leaves)
    }
}

/// Whether a count of written bytes is exact, or as large as it can be.
pub open spec fn booked(bytes: u64, before: StoreView, after: StoreView) -> bool {
    &&& after.bytes() >= before.bytes()
    &&& bytes == wire::capped((after.bytes() - before.bytes()) as nat)
}

pub proof fn lemma_booked_join(a: u64, b: u64, s0: StoreView, s1: StoreView, s2: StoreView)
    requires
        booked(a, s0, s1),
        booked(b, s1, s2),
    ensures
        booked(
            if a + b > u64::MAX {
                u64::MAX
            } else {
                (a + b) as u64
            },
            s0,
            s2,
        ),
{
}

/// Writing one more node adds its bytes.
pub proof fn lemma_node_written(before: StoreView, after: StoreView, node: NodeView)
    requires
        after == (StoreView { nodes: before.nodes.push(node), ..before }),
    ensures
        booked(node.object_size, before, after),
        after.extends(before),
{
    assert(after.nodes.drop_last() =~= before.nodes);
    assert(after.nodes.take(before.nodes.len() as int) =~= before.nodes);
    assert(after.leaves.take(before.leaves.len() as int) =~= before.leaves);
}

// Reading.

/// Whether the sums of a node agree with the reference to it.
pub open spec fn derived_match(summary: ChildView, child: ChildView) -> bool {
    &&& summary.num_keys == child.num_keys
    &&& summary.total_rows == child.total_rows
    &&& summary.visible_rows == child.visible_rows
    &&& summary.height == child.height
    &&& summary.num_children == child.num_children
}

/// Why a stored node is not what the reference to it says.
pub open spec fn node_fault(
    stored: NodeView,
    child: ChildView,
    next_action_sequence: u64,
) -> Option<Error> {
    let kids = stored.children;
    let pending = stored.buffer;
    let summary = node::internal_summary(child.path, kids, pending, stored.object_size);
    if stored.object_size != child.object_size {
        Some(
            Error::CorruptFile {
                reason: Reason::NodeSize {
                    declared: child.object_size,
                    found: stored.object_size,
                },
            },
        )
    } else if validation::children_fault(
        kids,
        kids.len() as int,
        next_action_sequence,
        child.min_key,
    ) is Some {
        Some(
            Error::CorruptFile {
                reason: validation::children_fault(
                    kids,
                    kids.len() as int,
                    next_action_sequence,
                    child.min_key,
                )->0,
            },
        )
    } else if validation::buffer_fault(
        pending,
        pending.len() as int,
        1,
        next_action_sequence,
    ) is Some {
        validation::buffer_fault(pending, pending.len() as int, 1, next_action_sequence)
    } else if summary is Err {
        Some(summary->Err_0)
    } else if !derived_match(summary->Ok_0, child) {
        Some(Error::CorruptFile { reason: Reason::NodeContentsDiffer })
    } else if child.base_id is Some && inherit::stampable(pending) < pending.len() {
        pending[inherit::stampable(pending)].stamp_fault()
    } else {
        None
    }
}

/// What reading an internal node gives: its children and buffer, the refusal,
/// or nothing where the node is not known.
pub open spec fn node_read(store: StoreView, child: ChildView) -> Result<
    (Seq<ChildView>, Seq<MutationView>),
    Option<Error>,
> {
    let at = node_index(store.nodes, child.loc());
    if at >= store.nodes.len() {
        Err(None)
    } else {
        let stored = store.nodes[at];
        match node_fault(stored, child, store.next_action_sequence) {
            Some(error) => Err(Some(error)),
            None => Ok(
                (
                    inherit::inherited_children(stored.children, child.base_id),
                    inherit::inherited_buffer(stored.buffer, child.base_id),
                ),
            ),
        }
    }
}

/// The first record out of order, by position.
pub open spec fn misordered(fragments: Seq<FragmentView>, n: int) -> Option<int>
    decreases n,
{
    if n <= 1 {
        None
    } else {
        match misordered(fragments, n - 1) {
            Some(at) => Some(at),
            None => if fragments[n - 2].id >= fragments[n - 1].id {
                Some(n - 1)
            } else {
                None
            },
        }
    }
}

/// Whether records are in increasing order of their ids.
pub open spec fn ascending(fragments: Seq<FragmentView>) -> bool {
    forall|i: int, j: int|
        0 <= i < j < fragments.len() ==> (#[trigger] fragments[i]).id < (
        #[trigger] fragments[j]).id
}

pub proof fn lemma_misordered(fragments: Seq<FragmentView>, n: int)
    requires
        0 <= n <= fragments.len(),
        misordered(fragments, n) is None,
    ensures
        ascending(fragments.take(n)),
    decreases n,
{
    if n > 1 {
        lemma_misordered(fragments, n - 1);
        let shorter = fragments.take(n - 1);
        let taken = fragments.take(n);
        assert forall|i: int, j: int| 0 <= i < j < taken.len() implies (#[trigger] taken[i]).id < (
        #[trigger] taken[j]).id by {
            if j < n - 1 {
                assert(shorter[i] == taken[i] && shorter[j] == taken[j]);
            } else if i < n - 2 {
                assert(shorter[i] == taken[i] && shorter[n - 2] == fragments[n - 2]);
            }
        }
    }
}

/// Why a stored leaf is not what the reference to it says.
pub open spec fn leaf_fault(stored: LeafView, child: ChildView) -> Option<Error> {
    let fragments = stored.fragments;
    let summary = node::leaf_summary(
        child.path,
        fragments,
        child.object_size,
        child.materialized_through_action_sequence,
    );
    if stored.object_size != child.object_size {
        Some(
            Error::CorruptFile {
                reason: Reason::LeafSize {
                    declared: child.object_size,
                    found: stored.object_size,
                },
            },
        )
    } else if misordered(fragments, fragments.len() as int) is Some {
        Some(
            Error::CorruptFile {
                reason: Reason::LeafOrder {
                    id: fragments[misordered(fragments, fragments.len() as int)->0].id,
                },
            },
        )
    } else if summary is Err {
        Some(summary->Err_0)
    } else if child.min_key > summary->Ok_0.min_key {
        Some(
            Error::CorruptFile {
                reason: Reason::LeafFence {
                    fence: child.min_key,
                    first: summary->Ok_0.min_key,
                },
            },
        )
    } else if summary->Ok_0.num_keys != child.num_keys || summary->Ok_0.total_rows
        != child.total_rows || summary->Ok_0.visible_rows != child.visible_rows {
        Some(Error::CorruptFile { reason: Reason::LeafContentsDiffer })
    } else {
        None
    }
}

/// What reading a leaf gives: its records, the refusal, or nothing where the
/// leaf is not known.
pub open spec fn leaf_read(store: StoreView, child: ChildView) -> Result<
    Seq<FragmentView>,
    Option<Error>,
> {
    let at = leaf_index(store.leaves, child.loc());
    if child.object_size > usize::MAX {
        Err(
            Some(
                Error::InvalidInput {
                    reason: Reason::LeafObjectSize { object_size: child.object_size },
                },
            ),
        )
    } else if at >= store.leaves.len() {
        Err(None)
    } else {
        match leaf_fault(store.leaves[at], child) {
            Some(error) => Err(Some(error)),
            None => Ok(inherit::inherited_records(store.leaves[at].fragments, child.base_id)),
        }
    }
}

impl NodeStore {
    /// A store that knows nothing yet.
    pub fn new(io_parallelism: usize) -> (r: Self)
        ensures
            r@ == (StoreView {
                nodes: Seq::empty(),
                leaves: Seq::empty(),
                headers: Seq::empty(),
                rows: Seq::empty(),
                sizes: Seq::empty(),
                next_action_sequence: u64::MAX,
                hard_capacity_bytes: u64::MAX,
                io_parallelism,
            }),
            r@.unique(),
    {
        let r = NodeStore {
            nodes: Vec::new(),
            leaves: Vec::new(),
            headers: Vec::new(),
            rows: Vec::new(),
            sizes: Vec::new(),
            next_action_sequence: u64::MAX,
            hard_capacity_bytes: u64::MAX,
            io_parallelism,
        };
        assert(r@.headers =~= Seq::empty());
        assert(r@.rows =~= Seq::empty());
        assert(r@.nodes =~= Seq::empty());
        assert(r@.leaves =~= Seq::empty());
        assert(r@.sizes =~= Seq::empty());
        r
    }

    fn find_node(&self, path: &String, base_id: Option<u32>) -> (r: usize)
        ensures
            r == node_index(self@.nodes, (Loc { path: path@, base_id })),
            r <= self.nodes@.len(),
    {
        let ghost loc = Loc { path: path@, base_id };
        let ghost all = self@.nodes;
        let mut i: usize = 0;
        proof {
            lemma_node_index(all, loc);
        }
        while i < self.nodes.len() && !same::place(
            &self.nodes[i].path,
            self.nodes[i].base_id,
            path,
            base_id,
        )
            invariant
                i <= self.nodes@.len(),
                all == self@.nodes,
                loc == (Loc { path: path@, base_id }),
                forall|k: int| 0 <= k < i ==> (#[trigger] all[k]).loc != loc,
            decreases self.nodes@.len() - i,
        {
            assert(all[i as int] == self.nodes@[i as int]@);
            i = i + 1;
        }
        proof {
            let at = node_index(all, loc);
            if i < all.len() {
                assert(all[i as int] == self.nodes@[i as int]@);
            }
            if at < i {
                assert(all[at].loc != loc);
            }
            if i < at {
                assert(all[i as int].loc != loc);
            }
        }
        i
    }

    fn find_leaf(&self, path: &String, base_id: Option<u32>) -> (r: usize)
        ensures
            r == leaf_index(self@.leaves, (Loc { path: path@, base_id })),
            r <= self.leaves@.len(),
    {
        let ghost loc = Loc { path: path@, base_id };
        let ghost all = self@.leaves;
        let mut i: usize = 0;
        proof {
            lemma_leaf_index(all, loc);
        }
        while i < self.leaves.len() && !same::place(
            &self.leaves[i].path,
            self.leaves[i].base_id,
            path,
            base_id,
        )
            invariant
                i <= self.leaves@.len(),
                all == self@.leaves,
                loc == (Loc { path: path@, base_id }),
                forall|k: int| 0 <= k < i ==> (#[trigger] all[k]).loc != loc,
            decreases self.leaves@.len() - i,
        {
            assert(all[i as int] == self.leaves@[i as int]@);
            i = i + 1;
        }
        proof {
            let at = leaf_index(all, loc);
            if i < all.len() {
                assert(all[i as int] == self.leaves@[i as int]@);
            }
            if at < i {
                assert(all[at].loc != loc);
            }
            if i < at {
                assert(all[i as int].loc != loc);
            }
        }
        i
    }

    /// Whether a whole leaf is known.
    pub(crate) fn holds_leaf(&self, path: &String, base_id: Option<u32>) -> (r: bool)
        ensures
            r == self@.knows_leaf((Loc { path: path@, base_id })),
    {
        self.find_leaf(path, base_id) < self.leaves.len()
    }

    /// Hand over an internal node. One that is already known is ignored.
    pub fn load_node(&mut self, stored: StoredNode)
        ensures
            final(self)@ == (if old(self)@.knows_node(stored@.loc) {
                old(self)@
            } else {
                StoreView { nodes: old(self)@.nodes.push(stored@), ..old(self)@ }
            }),
            old(self)@.unique() ==> final(self)@.unique(),
    {
        let at: usize = self.find_node(&stored.path, stored.base_id);
        if at == self.nodes.len() {
            proof {
                lemma_node_index(self@.nodes, stored@.loc);
            }
            self.nodes.push(stored);
        }
    }

    /// Hand over a leaf. One that is already known is ignored.
    pub fn load_leaf(&mut self, stored: StoredLeaf)
        ensures
            final(self)@ == (if old(self)@.knows_leaf(stored@.loc) {
                old(self)@
            } else {
                StoreView { leaves: old(self)@.leaves.push(stored@), ..old(self)@ }
            }),
            old(self)@.unique() ==> final(self)@.unique(),
    {
        let at: usize = self.find_leaf(&stored.path, stored.base_id);
        if at == self.leaves.len() {
            proof {
                lemma_leaf_index(self@.leaves, stored@.loc);
            }
            self.leaves.push(stored);
        }
    }

    /// Hand over the encoded size of a leaf.
    pub fn load_size(&mut self, size: LeafSize)
        ensures
            final(self)@ == (StoreView { sizes: old(self)@.sizes.push(size@), ..old(self)@ }),
    {
        self.sizes.push(size);
    }

    /// Forget every object but the first ones.
    pub(crate) fn rewind(&mut self, nodes: usize, leaves: usize)
        requires
            nodes <= old(self)@.nodes.len(),
            leaves <= old(self)@.leaves.len(),
        ensures
            final(self)@ == (StoreView {
                nodes: old(self)@.nodes.take(nodes as int),
                leaves: old(self)@.leaves.take(leaves as int),
                ..old(self)@
            }),
    {
        let ghost before = self@;
        self.nodes.truncate(nodes);
        self.leaves.truncate(leaves);
        assert(self@.nodes =~= before.nodes.take(nodes as int));
        assert(self@.leaves =~= before.leaves.take(leaves as int));
    }

    /// Read an internal node and check it against the reference to it.
    pub fn read_internal(&self, child: &FragmentMetadataChild) -> (r: Result<InternalNode, Stop>)
        ensures
            match node_read(self@, child@) {
                Ok((children, buffer)) => r is Ok && views::all(r->Ok_0.children@) == children
                    && views::all(r->Ok_0.buffer@) == buffer,
                Err(Some(error)) => r == Err::<InternalNode, Stop>(Stop::Fail(error)),
                Err(None) => r matches Err(Stop::Need(Request::Node(wanted))) && wanted@
                    == child@,
            },
            r matches Err(stop) ==> honest(stop, self@),
    {
        let at: usize = self.find_node(&child.path, child.base_id);
        if at == self.nodes.len() {
            return Err(Stop::Need(Request::Node(child.clone())));
        }
        let stored = &self.nodes[at];
        assert(self@.nodes[at as int] == stored@);
        if stored.object_size != child.object_size {
            return Err(
                Stop::Fail(
                    Error::CorruptFile {
                        reason: Reason::NodeSize {
                            declared: child.object_size,
                            found: stored.object_size,
                        },
                    },
                ),
            );
        }
        match validation::children(&stored.children, self.next_action_sequence, child.min_key) {
            Ok(()) => {},
            Err(error) => {
                return Err(Stop::Fail(error));
            },
        }
        match validation::buffer(&stored.buffer, 1, self.next_action_sequence) {
            Ok(()) => {},
            Err(error) => {
                return Err(Stop::Fail(error));
            },
        }
        let summary = match node::internal_ref(
            child.path.clone(),
            &stored.children,
            &stored.buffer,
            stored.object_size,
        ) {
            Ok(summary) => summary,
            Err(error) => {
                return Err(Stop::Fail(error));
            },
        };
        if summary.num_keys != child.num_keys || summary.total_rows != child.total_rows
            || summary.visible_rows != child.visible_rows || summary.height != child.height
            || summary.num_children != child.num_children {
            return Err(Stop::Fail(Error::CorruptFile { reason: Reason::NodeContentsDiffer }));
        }
        let mut buffer = crate::pb::clone_mutations(&stored.buffer);
        // Inherited nodes belong to another dataset. Unset child and file
        // references, including hidden row lineage columns, take that
        // dataset's base_id.
        if let Some(base_id) = child.base_id {
            let ghost pending = stored@.buffer;
            match inherit::preserve_inherited_refs(&mut buffer, base_id) {
                Ok(()) => {
                    proof {
                        inherit::lemma_stampable(pending);
                        assert(pending.take(pending.len() as int) =~= pending);
                        assert(views::all(buffer@) =~= inherit::stamped_buffer(pending, base_id));
                    }
                },
                Err(error) => {
                    proof {
                        inherit::lemma_stampable(pending);
                    }
                    return Err(Stop::Fail(error));
                },
            }
        }
        let children = inherit::inherit_children(
            crate::pb::clone_children(&stored.children),
            child.base_id,
        );
        Ok(InternalNode { children, buffer })
    }

    pub(crate) fn check_order(fragments: &Vec<Fragment>) -> (r: Option<u64>)
        ensures
            r == match misordered(views::all(fragments@), fragments@.len() as int) {
                Some(at) => Some(views::all(fragments@)[at].id),
                None => None::<u64>,
            },
    {
        let ghost all = views::all(fragments@);
        let ghost n = fragments@.len() as int;
        let mut i: usize = 1;
        while i < fragments.len()
            invariant
                1 <= i,
                i <= fragments@.len() || fragments@.len() == 0,
                all == views::all(fragments@),
                n == fragments@.len(),
                misordered(all, i as int) is None,
            decreases fragments@.len() - i,
        {
            assert(all[i - 1] == fragments@[i - 1]@ && all[i as int] == fragments@[i as int]@);
            if fragments[i - 1].id >= fragments[i].id {
                proof {
                    assert(misordered(all, i + 1) == Some(i as int));
                    lemma_misordered_prefix(all, i + 1, n);
                }
                return Some(fragments[i].id);
            }
            i = i + 1;
        }
        None
    }

    /// Read a leaf and check it against the reference to it.
    pub fn read_leaf(&self, child: &FragmentMetadataChild) -> (r: Result<Vec<Fragment>, Stop>)
        ensures
            match leaf_read(self@, child@) {
                Ok(fragments) => r is Ok && views::all(r->Ok_0@) == fragments,
                Err(Some(error)) => r == Err::<Vec<Fragment>, Stop>(Stop::Fail(error)),
                Err(None) => r matches Err(Stop::Need(Request::Leaf(wanted))) && wanted@
                    == child@,
            },
            r matches Err(stop) ==> honest(stop, self@),
    {
        if child.object_size > usize::MAX as u64 {
            return Err(
                Stop::Fail(
                    Error::InvalidInput {
                        reason: Reason::LeafObjectSize { object_size: child.object_size },
                    },
                ),
            );
        }
        let at: usize = self.find_leaf(&child.path, child.base_id);
        if at == self.leaves.len() {
            return Err(Stop::Need(Request::Leaf(child.clone())));
        }
        let stored = &self.leaves[at];
        assert(self@.leaves[at as int] == stored@);
        if stored.object_size != child.object_size {
            return Err(
                Stop::Fail(
                    Error::CorruptFile {
                        reason: Reason::LeafSize {
                            declared: child.object_size,
                            found: stored.object_size,
                        },
                    },
                ),
            );
        }
        if let Some(id) = NodeStore::check_order(&stored.fragments) {
            return Err(
                Stop::Fail(Error::CorruptFile { reason: Reason::LeafOrder { id } }),
            );
        }
        let summary = match node::leaf_ref(
            child.path.clone(),
            &stored.fragments,
            child.object_size,
            child.materialized_through_action_sequence,
        ) {
            Ok(summary) => summary,
            Err(error) => {
                return Err(Stop::Fail(error));
            },
        };
        // The fence comes from the parent and may sit below the first stored key.
        if child.min_key > summary.min_key {
            return Err(
                Stop::Fail(
                    Error::CorruptFile {
                        reason: Reason::LeafFence {
                            fence: child.min_key,
                            first: summary.min_key,
                        },
                    },
                ),
            );
        }
        if summary.num_keys != child.num_keys || summary.total_rows != child.total_rows
            || summary.visible_rows != child.visible_rows {
            return Err(Stop::Fail(Error::CorruptFile { reason: Reason::LeafContentsDiffer }));
        }
        Ok(inherit::inherit_records(record::clone_fragments(&stored.fragments), child.base_id))
    }
}

proof fn lemma_misordered_prefix(fragments: Seq<FragmentView>, n: int, m: int)
    requires
        0 <= n <= m,
        misordered(fragments, n) is Some,
    ensures
        misordered(fragments, m) == misordered(fragments, n),
    decreases m - n,
{
    if n < m {
        lemma_misordered_prefix(fragments, n + 1, m);
    }
}

// Writing.

/// A written object: the reference to it and the bytes it takes in storage.
pub struct Written {
    pub child_ref: FragmentMetadataChild,
    pub io_bytes: u64,
}

/// How leaves are cut when a range of records is halved until each part fits
/// or is a single record: the parts by their bounds.
pub open spec fn halves(
    store: StoreView,
    fragments: Seq<FragmentView>,
    from: int,
    to: int,
    max_leaf_bytes: u64,
) -> Seq<(int, int)>
    decreases to - from,
{
    if from >= to {
        Seq::empty()
    } else if to - from > 1 && (store.size_of(fragments.subrange(from, to)) matches Some(bytes)
        && bytes > max_leaf_bytes) {
        let middle = from + (to - from) / 2;
        halves(store, fragments, from, middle, max_leaf_bytes) + halves(
            store,
            fragments,
            middle,
            to,
            max_leaf_bytes,
        )
    } else {
        seq![(from, to)]
    }
}

/// Whether parts follow one another from one bound to another, none empty.
pub open spec fn tiles(parts: Seq<(int, int)>, from: int, to: int) -> bool {
    &&& forall|i: int| 0 <= i < parts.len() ==> (#[trigger] parts[i]).0 < parts[i].1
    &&& forall|i: int, j: int|
        0 <= i < parts.len() && j == i + 1 && j < parts.len() ==> (#[trigger] parts[i]).1 == (
        #[trigger] parts[j]).0
    &&& parts.len() == 0 ==> from == to
    &&& parts.len() > 0 ==> parts[0].0 == from && parts[parts.len() - 1].1 == to
}

pub proof fn lemma_tiles_join(a: Seq<(int, int)>, b: Seq<(int, int)>, from: int, at: int, to: int)
    requires
        tiles(a, from, at),
        tiles(b, at, to),
    ensures
        tiles(a + b, from, to),
{
    let c = a + b;
    let n = a.len();
    assert forall|i: int| 0 <= i < c.len() implies (#[trigger] c[i]).0 < c[i].1 by {
        if i < n {
            assert(c[i] == a[i]);
        } else {
            assert(c[i] == b[i - n]);
        }
    }
    assert forall|i: int, j: int| 0 <= i < c.len() && j == i + 1 && j < c.len() implies (
    #[trigger] c[i]).1 == (#[trigger] c[j]).0 by {
        if j < n {
            assert(c[i] == a[i] && c[j] == a[j]);
        } else if i < n {
            assert(c[i] == a[n - 1] && c[j] == b[0]);
        } else {
            assert(c[i] == b[i - n] && c[j] == b[j - n]);
        }
    }
    if b.len() > 0 {
        assert(c[c.len() - 1] == b[b.len() - 1]);
    }
    if n > 0 {
        assert(c[0] == a[0]);
    } else if b.len() > 0 {
        assert(c[0] == b[0]);
    }
}

/// Tiles without the last one end where it started.
pub proof fn lemma_tiles_prefix(parts: Seq<(int, int)>, from: int, to: int)
    requires
        tiles(parts, from, to),
        parts.len() > 0,
    ensures
        tiles(parts.drop_last(), from, parts.last().0),
{
    let rest = parts.drop_last();
    assert forall|i: int| 0 <= i < rest.len() implies (#[trigger] rest[i]).0 < rest[i].1 by {
        assert(rest[i] == parts[i]);
    }
    assert forall|i: int, j: int| 0 <= i < rest.len() && j == i + 1 && j < rest.len() implies (
    #[trigger] rest[i]).1 == (#[trigger] rest[j]).0 by {
        assert(rest[i] == parts[i] && rest[j] == parts[j]);
    }
    if rest.len() > 0 {
        let last = rest.len() - 1;
        assert(rest[0] == parts[0]);
        assert(rest[last] == parts[last]);
        assert(parts[last].1 == parts[last + 1].0);
    }
}

/// The bounds of tiles: each lies inside, and they ascend.
pub proof fn lemma_tiles(parts: Seq<(int, int)>, from: int, to: int)
    requires
        tiles(parts, from, to),
    ensures
        from <= to,
        forall|i: int| 0 <= i < parts.len() ==> from <= (#[trigger] parts[i]).0 && parts[i].1 <= to,
        forall|i: int, j: int|
            0 <= i < j < parts.len() ==> (#[trigger] parts[i]).1 <= (#[trigger] parts[j]).0,
    decreases parts.len(),
{
    if parts.len() > 0 {
        let rest = parts.drop_last();
        lemma_tiles_prefix(parts, from, to);
        lemma_tiles(rest, from, parts.last().0);
        assert(parts[parts.len() - 1].0 < parts[parts.len() - 1].1);
        assert forall|i: int| 0 <= i < parts.len() implies from <= (#[trigger] parts[i]).0
            && parts[i].1 <= to by {
            if i < rest.len() {
                assert(rest[i] == parts[i]);
            }
        }
        assert forall|i: int, j: int| 0 <= i < j < parts.len() implies (#[trigger] parts[i]).1 <= (
        #[trigger] parts[j]).0 by {
            assert(rest[i] == parts[i]);
            if j < rest.len() {
                assert(rest[j] == parts[j]);
            }
        }
    }
}

pub proof fn lemma_halves(
    store: StoreView,
    fragments: Seq<FragmentView>,
    from: int,
    to: int,
    max_leaf_bytes: u64,
)
    requires
        0 <= from <= to <= fragments.len(),
    ensures
        tiles(halves(store, fragments, from, to, max_leaf_bytes), from, to),
    decreases to - from,
{
    if from < to {
        let middle = from + (to - from) / 2;
        if to - from > 1 && (store.size_of(fragments.subrange(from, to)) matches Some(bytes)
            && bytes > max_leaf_bytes) {
            lemma_halves(store, fragments, from, middle, max_leaf_bytes);
            lemma_halves(store, fragments, middle, to, max_leaf_bytes);
            lemma_tiles_join(
                halves(store, fragments, from, middle, max_leaf_bytes),
                halves(store, fragments, middle, to, max_leaf_bytes),
                from,
                middle,
                to,
            );
        } else {
            let one = seq![(from, to)];
            assert(one.len() == 1 && one[0] == (from, to));
        }
    }
}

/// Where a group of records ends that starts at a position and takes records
/// until their messages reach the leaf target.
pub open spec fn group_end(
    fragments: Seq<FragmentView>,
    start: int,
    end: int,
    max_leaf_bytes: u64,
) -> int
    decreases fragments.len() - end,
{
    if end < fragments.len() && wire::capped(node::fragments_len(fragments.subrange(start, end)))
        < max_leaf_bytes {
        group_end(fragments, start, end + 1, max_leaf_bytes)
    } else {
        end
    }
}

proof fn lemma_group_end(fragments: Seq<FragmentView>, start: int, end: int, max_leaf_bytes: u64)
    requires
        0 <= start <= end <= fragments.len(),
    ensures
        end <= group_end(fragments, start, end, max_leaf_bytes) <= fragments.len(),
        start == end && end < fragments.len() && max_leaf_bytes > 0 ==> group_end(
            fragments,
            start,
            end,
            max_leaf_bytes,
        ) > start,
    decreases fragments.len() - end,
{
    if end < fragments.len() {
        lemma_group_end(fragments, start, end + 1, max_leaf_bytes);
        if start == end {
            assert(fragments.subrange(start, end).len() == 0);
        }
    }
}

/// The parts that groups of records are cut into, group after group.
pub open spec fn initial_parts(
    store: StoreView,
    fragments: Seq<FragmentView>,
    start: int,
    max_leaf_bytes: u64,
) -> Seq<(int, int)>
    decreases fragments.len() - start,
{
    let end = group_end(fragments, start, start, max_leaf_bytes);
    if start >= fragments.len() || end <= start || end > fragments.len() {
        Seq::empty()
    } else {
        halves(store, fragments, start, end, max_leaf_bytes) + initial_parts(
            store,
            fragments,
            end,
            max_leaf_bytes,
        )
    }
}

/// Whether the sizes and messages of two adjacent parts say they may become
/// one leaf.
pub open spec fn may_join(
    store: StoreView,
    fragments: Seq<FragmentView>,
    a: (int, int),
    b: (int, int),
    max_leaf_bytes: u64,
) -> bool {
    &&& store.size_of(fragments.subrange(a.0, a.1)) matches Some(x) && store.size_of(
        fragments.subrange(b.0, b.1),
    ) matches Some(y) && x + y <= max_leaf_bytes
    &&& wire::capped(node::fragments_len(fragments.subrange(a.0, b.1))) <= max_leaf_bytes * 3
}

/// Whether two adjacent parts become one leaf: they may, and the joined
/// encoding does fit.
pub open spec fn joins(
    store: StoreView,
    fragments: Seq<FragmentView>,
    a: (int, int),
    b: (int, int),
    max_leaf_bytes: u64,
) -> bool {
    &&& may_join(store, fragments, a, b, max_leaf_bytes)
    &&& store.size_of(fragments.subrange(a.0, b.1)) matches Some(bytes) && bytes <= max_leaf_bytes
}

/// Parts with adjacent ones joined from the left where they join.
pub open spec fn joined_parts(
    store: StoreView,
    fragments: Seq<FragmentView>,
    parts: Seq<(int, int)>,
    max_leaf_bytes: u64,
) -> Seq<(int, int)>
    decreases parts.len(),
{
    if parts.len() == 0 {
        parts
    } else {
        let rest = joined_parts(store, fragments, parts.drop_last(), max_leaf_bytes);
        let next = parts.last();
        if rest.len() > 0 && joins(store, fragments, rest.last(), next, max_leaf_bytes) {
            rest.update(rest.len() - 1, (rest.last().0, next.1))
        } else {
            rest.push(next)
        }
    }
}

pub proof fn lemma_joined_parts(
    store: StoreView,
    fragments: Seq<FragmentView>,
    parts: Seq<(int, int)>,
    max_leaf_bytes: u64,
    from: int,
    to: int,
)
    requires
        tiles(parts, from, to),
    ensures
        tiles(joined_parts(store, fragments, parts, max_leaf_bytes), from, to),
    decreases parts.len(),
{
    if parts.len() > 0 {
        let rest_parts = parts.drop_last();
        let next = parts.last();
        assert(next == parts[parts.len() - 1]);
        lemma_tiles_prefix(parts, from, to);
        lemma_joined_parts(store, fragments, rest_parts, max_leaf_bytes, from, next.0);
        let rest = joined_parts(store, fragments, rest_parts, max_leaf_bytes);
        let all = joined_parts(store, fragments, parts, max_leaf_bytes);
        if rest.len() > 0 && joins(store, fragments, rest.last(), next, max_leaf_bytes) {
            let last = rest.len() - 1;
            assert(rest.last() == rest[last]);
            assert forall|i: int| 0 <= i < all.len() implies (#[trigger] all[i]).0 < all[i].1 by {
                assert(rest[i].0 < rest[i].1);
            }
            assert forall|i: int, j: int| 0 <= i < all.len() && j == i + 1 && j < all.len() implies (
            #[trigger] all[i]).1 == (#[trigger] all[j]).0 by {
                assert(all[i] == rest[i]);
                assert(all[j].0 == rest[j].0);
            }
        } else {
            let one = seq![next];
            assert(tiles(one, next.0, to));
            lemma_tiles_join(rest, one, from, next.0, to);
            assert(rest + one =~= all);
        }
    }
}

pub proof fn lemma_initial_parts(
    store: StoreView,
    fragments: Seq<FragmentView>,
    start: int,
    max_leaf_bytes: u64,
)
    requires
        0 <= start <= fragments.len(),
        max_leaf_bytes > 0,
    ensures
        tiles(
            initial_parts(store, fragments, start, max_leaf_bytes),
            start,
            fragments.len() as int,
        ),
    decreases fragments.len() - start,
{
    if start < fragments.len() {
        let end = group_end(fragments, start, start, max_leaf_bytes);
        lemma_group_end(fragments, start, start, max_leaf_bytes);
        lemma_halves(store, fragments, start, end, max_leaf_bytes);
        lemma_initial_parts(store, fragments, end, max_leaf_bytes);
        lemma_tiles_join(
            halves(store, fragments, start, end, max_leaf_bytes),
            initial_parts(store, fragments, end, max_leaf_bytes),
            start,
            end,
            fragments.len() as int,
        );
    }
}

proof fn lemma_fragments_len_push(fragments: Seq<FragmentView>, start: int, end: int)
    requires
        0 <= start <= end < fragments.len(),
    ensures
        node::fragments_len(fragments.subrange(start, end + 1)) == node::fragments_len(
            fragments.subrange(start, end),
        ) + fragments[end].encoded().encoded_len(),
{
    let longer = fragments.subrange(start, end + 1);
    assert(longer.drop_last() =~= fragments.subrange(start, end));
    assert(longer.last() == fragments[end]);
}

/// Whether some references stand for leaves that were written with the given
/// parts of some records, in their order, behind what was known.
pub open spec fn wrote_leaves(
    before: StoreView,
    after: StoreView,
    refs: Seq<ChildView>,
    fragments: Seq<FragmentView>,
    parts: Seq<(int, int)>,
    watermark: u64,
) -> bool {
    let known = before.leaves.len();
    &&& after.extends(before)
    &&& after.nodes == before.nodes
    &&& after.leaves.len() == known + parts.len()
    &&& refs.len() == parts.len()
    &&& forall|i: int|
        0 <= i < parts.len() ==> {
            let part = fragments.subrange((#[trigger] parts[i]).0, parts[i].1);
            let leaf = after.leaves[known + i];
            &&& leaf.loc == refs[i].loc()
            &&& leaf.fragments == part
            &&& before.size_of(part) == Some(leaf.object_size)
            &&& node::leaf_summary(refs[i].path, part, leaf.object_size, watermark) == Ok::<
                ChildView,
                Error,
            >(refs[i])
        }
}

/// The bytes of some references' objects.
pub open spec fn ref_bytes(refs: Seq<ChildView>) -> nat
    decreases refs.len(),
{
    if refs.len() == 0 {
        0
    } else {
        ref_bytes(refs.drop_last()) + refs.last().object_size as nat
    }
}

/// Written leaves add the bytes their references declare.
pub proof fn lemma_leaves_written(
    before: StoreView,
    after: StoreView,
    refs: Seq<ChildView>,
    fragments: Seq<FragmentView>,
    parts: Seq<(int, int)>,
    watermark: u64,
)
    requires
        wrote_leaves(before, after, refs, fragments, parts, watermark),
    ensures
        booked(wire::capped(ref_bytes(refs)), before, after),
{
    let known = before.leaves.len() as int;
    assert forall|i: int| 0 <= i < refs.len() implies (#[trigger] refs[i]).object_size
        == after.leaves[known + i].object_size by {
        assert(parts[i].0 <= parts[i].0);
        let part = fragments.subrange(parts[i].0, parts[i].1);
        assert(after.leaves[known + i].fragments == part);
    }
    lemma_leaf_tail(after.leaves, known, refs);
    assert(after.leaves.take(known) == before.leaves);
}

proof fn lemma_leaf_tail(leaves: Seq<LeafView>, known: int, refs: Seq<ChildView>)
    requires
        0 <= known,
        leaves.len() == known + refs.len(),
        forall|i: int|
            0 <= i < refs.len() ==> (#[trigger] refs[i]).object_size == leaves[known
                + i].object_size,
    ensures
        leaf_bytes(leaves) == leaf_bytes(leaves.take(known)) + ref_bytes(refs),
    decreases refs.len(),
{
    if refs.len() > 0 {
        let rest = refs.drop_last();
        let shorter = leaves.drop_last();
        assert(refs.last() == refs[refs.len() - 1]);
        assert forall|i: int| 0 <= i < rest.len() implies (#[trigger] rest[i]).object_size
            == shorter[known + i].object_size by {
            assert(rest[i] == refs[i]);
        }
        lemma_leaf_tail(shorter, known, rest);
        assert(shorter.take(known) =~= leaves.take(known));
        assert(leaves.last() == leaves[known + refs.len() - 1]);
    } else {
        assert(leaves.take(known) =~= leaves);
    }
}

/// The references of some written objects.
pub open spec fn refs_of(written: Seq<Written>) -> Seq<ChildView> {
    Seq::new(written.len(), |i: int| written[i].child_ref@)
}

/// Whether written objects report the bytes their references declare.
pub open spec fn measured(written: Seq<Written>) -> bool {
    forall|i: int|
        0 <= i < written.len() ==> (#[trigger] written[i]).io_bytes
            == written[i].child_ref@.object_size
}

/// A part of some records.
fn part_of(fragments: &Vec<Fragment>, from: usize, to: usize) -> (r: Vec<Fragment>)
    requires
        from <= to <= fragments@.len(),
    ensures
        views::all(r@) == views::all(fragments@).subrange(from as int, to as int),
{
    let ghost all = views::all(fragments@);
    let mut list: Vec<Fragment> = Vec::new();
    let mut i: usize = from;
    while i < to
        invariant
            from <= i <= to <= fragments@.len(),
            all == views::all(fragments@),
            views::all(list@) == all.subrange(from as int, i as int),
        decreases to - i,
    {
        list.push(fragments[i].clone());
        assert(views::all(list@) =~= all.subrange(from as int, i + 1));
        i = i + 1;
    }
    list
}

/// Parts as positions.
pub open spec fn bounds(parts: Seq<(usize, usize)>) -> Seq<(int, int)> {
    Seq::new(parts.len(), |i: int| (parts[i].0 as int, parts[i].1 as int))
}

// Writing.

/// Why a level is not written as a node, whatever its path.
pub open spec fn node_refusal(
    store: StoreView,
    children: Seq<ChildView>,
    buffer: Seq<MutationView>,
) -> Option<Error> {
    let bytes = wire::capped(node::children_len(children) + node::buffer_len(buffer));
    if bytes > store.hard_capacity_bytes {
        Some(
            Error::InvalidInput {
                reason: Reason::NodeTooLarge {
                    bytes,
                    hard_capacity_bytes: store.hard_capacity_bytes,
                },
            },
        )
    } else {
        match node::internal_summary(Seq::empty(), children, buffer, bytes) {
            Err(error) => Some(error),
            Ok(_) => None,
        }
    }
}

/// Whether a level was written as a node: its reference, and the store that
/// knows it.
pub open spec fn wrote_node(
    before: StoreView,
    after: StoreView,
    children: Seq<ChildView>,
    buffer: Seq<MutationView>,
    child: ChildView,
    io_bytes: u64,
) -> bool {
    let bytes = wire::capped(node::children_len(children) + node::buffer_len(buffer));
    &&& bytes <= before.hard_capacity_bytes
    &&& io_bytes == bytes
    &&& node::internal_summary(child.path, children, buffer, bytes) == Ok::<ChildView, Error>(child)
    &&& !before.knows_node(child.loc())
    &&& after == (StoreView {
        nodes: before.nodes.push(
            NodeView { loc: child.loc(), object_size: bytes, children, buffer },
        ),
        ..before
    })
}

/// Why records are not written as one leaf, whatever its path: their encoded
/// size is not known, or their counts cannot be summed.
pub open spec fn leaf_verdict(store: StoreView, fragments: Seq<FragmentView>) -> Option<
    Option<Error>,
> {
    if store.size_of(fragments) is None {
        Some(None)
    } else {
        match node::leaf_summary(Seq::empty(), fragments, 0, 0) {
            Err(error) => Some(Some(error)),
            Ok(_) => None,
        }
    }
}

/// Whether records were written as one leaf.
pub open spec fn wrote_leaf(
    before: StoreView,
    after: StoreView,
    fragments: Seq<FragmentView>,
    watermark: u64,
    child: ChildView,
    io_bytes: u64,
) -> bool {
    &&& before.size_of(fragments) == Some(io_bytes)
    &&& node::leaf_summary(child.path, fragments, io_bytes, watermark) == Ok::<ChildView, Error>(
        child,
    )
    &&& !before.knows_leaf(child.loc())
    &&& after == (StoreView {
        leaves: before.leaves.push(
            LeafView { loc: child.loc(), object_size: io_bytes, fragments },
        ),
        ..before
    })
}

/// How a range of records is cut into leaves, the size that is not known, or
/// the record that takes too much alone.
pub open spec fn sized(
    store: StoreView,
    fragments: Seq<FragmentView>,
    from: int,
    to: int,
    config: FragmentMetadataTreeConfig,
) -> Result<Seq<(int, int)>, Option<Error>>
    decreases to - from,
{
    if from >= to {
        Ok(Seq::empty())
    } else {
        match store.size_of(fragments.subrange(from, to)) {
            None => Err(None),
            Some(bytes) => if bytes > config.max_leaf_bytes && to - from > 1 {
                let middle = from + (to - from) / 2;
                match sized(store, fragments, from, middle, config) {
                    Err(stop) => Err(stop),
                    Ok(left) => match sized(store, fragments, middle, to, config) {
                        Err(stop) => Err(stop),
                        Ok(right) => Ok(left + right),
                    },
                }
            } else if bytes > config.hard_capacity_bytes {
                Err(
                    Some(
                        Error::InvalidInput {
                            reason: Reason::LeafTooLarge {
                                id: fragments[from].id,
                                bytes,
                                hard_capacity_bytes: config.hard_capacity_bytes,
                            },
                        },
                    ),
                )
            } else {
                Ok(seq![(from, to)])
            },
        }
    }
}

/// Where records can be cut, they are cut in halves until each part fits.
pub proof fn lemma_sized(
    store: StoreView,
    fragments: Seq<FragmentView>,
    from: int,
    to: int,
    config: FragmentMetadataTreeConfig,
)
    ensures
        sized(store, fragments, from, to, config) matches Ok(parts) ==> {
            &&& parts == halves(store, fragments, from, to, config.max_leaf_bytes)
            &&& forall|i: int|
                0 <= i < parts.len() ==> store.size_of(
                    fragments.subrange((#[trigger] parts[i]).0, parts[i].1),
                ) is Some
        },
    decreases to - from,
{
    if from < to {
        let middle = from + (to - from) / 2;
        if to - from > 1 {
            lemma_sized(store, fragments, from, middle, config);
            lemma_sized(store, fragments, middle, to, config);
        }
    }
}

/// The first of some parts whose counts cannot be summed.
pub open spec fn sums_fault(fragments: Seq<FragmentView>, parts: Seq<(int, int)>) -> Option<Error>
    decreases parts.len(),
{
    if parts.len() == 0 {
        None
    } else {
        match sums_fault(fragments, parts.drop_last()) {
            Some(error) => Some(error),
            None => match node::leaf_summary(
                Seq::empty(),
                fragments.subrange(parts.last().0, parts.last().1),
                0,
                0,
            ) {
                Err(error) => Some(error),
                Ok(_) => None,
            },
        }
    }
}

proof fn lemma_sums_fault(fragments: Seq<FragmentView>, parts: Seq<(int, int)>, n: int)
    requires
        0 <= n <= parts.len(),
        sums_fault(fragments, parts.take(n)) is Some,
    ensures
        sums_fault(fragments, parts) == sums_fault(fragments, parts.take(n)),
    decreases parts.len() - n,
{
    if n < parts.len() {
        assert(parts.take(n + 1).drop_last() =~= parts.take(n));
        lemma_sums_fault(fragments, parts, n + 1);
    } else {
        assert(parts.take(n) =~= parts);
    }
}

/// Why records are not written as leaves: `None` where they are.
pub open spec fn leaves_verdict(
    store: StoreView,
    fragments: Seq<FragmentView>,
    config: FragmentMetadataTreeConfig,
) -> Option<Option<Error>> {
    match sized(store, fragments, 0, fragments.len() as int, config) {
        Err(stop) => Some(stop),
        Ok(parts) => match sums_fault(fragments, parts) {
            Some(error) => Some(Some(error)),
            None => None,
        },
    }
}

/// How the groups of a new tree's records from one of them on are cut.
pub open spec fn sized_groups(
    store: StoreView,
    fragments: Seq<FragmentView>,
    start: int,
    config: FragmentMetadataTreeConfig,
) -> Result<Seq<(int, int)>, Option<Error>>
    decreases fragments.len() - start,
{
    let end = group_end(fragments, start, start, config.max_leaf_bytes);
    if start >= fragments.len() || end <= start || end > fragments.len() {
        Ok(Seq::empty())
    } else {
        match sized(store, fragments, start, end, config) {
            Err(stop) => Err(stop),
            Ok(first) => match sized_groups(store, fragments, end, config) {
                Err(stop) => Err(stop),
                Ok(rest) => Ok(first + rest),
            },
        }
    }
}

/// Whether every joined encoding that packing looks at is known.
pub open spec fn joins_known(
    store: StoreView,
    fragments: Seq<FragmentView>,
    parts: Seq<(int, int)>,
    max_leaf_bytes: u64,
) -> bool
    decreases parts.len(),
{
    parts.len() == 0 || {
        let rest = joined_parts(store, fragments, parts.drop_last(), max_leaf_bytes);
        let next = parts.last();
        &&& joins_known(store, fragments, parts.drop_last(), max_leaf_bytes)
        &&& rest.len() > 0 && may_join(store, fragments, rest.last(), next, max_leaf_bytes)
            ==> store.size_of(fragments.subrange(rest.last().0, next.1)) is Some
    }
}

proof fn lemma_joins_known(
    store: StoreView,
    fragments: Seq<FragmentView>,
    parts: Seq<(int, int)>,
    max_leaf_bytes: u64,
    n: int,
)
    requires
        0 <= n <= parts.len(),
        !joins_known(store, fragments, parts.take(n), max_leaf_bytes),
    ensures
        !joins_known(store, fragments, parts, max_leaf_bytes),
    decreases parts.len() - n,
{
    if n < parts.len() {
        assert(parts.take(n + 1).drop_last() =~= parts.take(n));
        lemma_joins_known(store, fragments, parts, max_leaf_bytes, n + 1);
    } else {
        assert(parts.take(n) =~= parts);
    }
}

/// Why the records of a new tree are not written: `None` where they are.
pub open spec fn initial_verdict(
    store: StoreView,
    fragments: Seq<FragmentView>,
    config: FragmentMetadataTreeConfig,
) -> Option<Option<Error>> {
    match sized_groups(store, fragments, 0, config) {
        Err(stop) => Some(stop),
        Ok(parts) => if !joins_known(store, fragments, parts, config.max_leaf_bytes) {
            Some(None)
        } else {
            match sums_fault(
                fragments,
                joined_parts(store, fragments, parts, config.max_leaf_bytes),
            ) {
                Some(error) => Some(Some(error)),
                None => None,
            }
        },
    }
}

/// How an operation ends that does not finish: what a [`Stop`] says, but for
/// the object that is asked for.
pub enum Halt {
    Need,
    Fail(Error),
    Collapsed,
}

impl Stop {
    pub open spec fn halt(self) -> Halt {
        match self {
            Stop::Need(_) => Halt::Need,
            Stop::Fail(error) => Halt::Fail(error),
            Stop::Collapsed => Halt::Collapsed,
        }
    }
}

/// What stops a read or a write: a missing object or an error.
pub open spec fn halted(why: Option<Error>) -> Halt {
    match why {
        None => Halt::Need,
        Some(error) => Halt::Fail(error),
    }
}

/// The paths that objects get, by their position among those that are known.
/// They are drawn; everything else a rewrite does follows from its input and
/// from them.
pub struct Names {
    pub nodes: Seq<Seq<char>>,
    pub leaves: Seq<Seq<char>>,
}

impl Names {
    /// Whether the objects of a store have these paths.
    #[verifier::opaque]
    pub open spec fn fit(self, store: StoreView) -> bool {
        &&& forall|i: int|
            0 <= i < store.nodes.len() ==> (#[trigger] store.nodes[i]).loc.path == self.nodes[i]
        &&& forall|i: int|
            0 <= i < store.leaves.len() ==> (#[trigger] store.leaves[i]).loc.path
                == self.leaves[i]
    }
}

/// Whether a path is that of a node with a drawn identifier.
pub open spec fn is_node_path(path: Seq<char>) -> bool {
    exists|identifier: Seq<u8>|
        identifier.len() == 16 && path == #[trigger] paths::node_path_of(identifier)
}

/// Whether a path is that of a leaf with a drawn identifier.
pub open spec fn is_leaf_path(path: Seq<char>) -> bool {
    exists|identifier: Seq<u8>|
        identifier.len() == 16 && path == #[trigger] paths::leaf_path_of(identifier)
}

impl Names {
    /// Whether the paths of objects that a store does not know yet are made
    /// from identifiers.
    #[verifier::opaque]
    pub open spec fn drawn(self, store: StoreView) -> bool {
        &&& forall|i: int|
            store.nodes.len() <= i < self.nodes.len() ==> is_node_path(#[trigger] self.nodes[i])
        &&& forall|i: int|
            store.leaves.len() <= i < self.leaves.len() ==> is_leaf_path(#[trigger] self.leaves[i])
    }
}

/// Whether the objects that were written since have paths made from
/// identifiers.
#[verifier::opaque]
pub open spec fn drawn(before: StoreView, after: StoreView) -> bool {
    &&& forall|i: int|
        before.nodes.len() <= i < after.nodes.len() ==> is_node_path(
            (#[trigger] after.nodes[i]).loc.path,
        )
    &&& forall|i: int|
        before.leaves.len() <= i < after.leaves.len() ==> is_leaf_path(
            (#[trigger] after.leaves[i]).loc.path,
        )
}

pub broadcast proof fn lemma_drawn_self(store: StoreView)
    ensures
        #[trigger] drawn(store, store),
{
    reveal(drawn);
}

pub broadcast proof fn lemma_drawn_joins(a: StoreView, b: StoreView, c: StoreView)
    requires
        #[trigger] drawn(a, b),
        #[trigger] drawn(b, c),
        c.extends(b),
    ensures
        drawn(a, c),
{
    reveal(drawn);
    assert forall|i: int| a.nodes.len() <= i < c.nodes.len() implies is_node_path(
        (#[trigger] c.nodes[i]).loc.path,
    ) by {
        if i < b.nodes.len() {
            assert(c.nodes.take(b.nodes.len() as int)[i] == b.nodes[i]);
        }
    }
    assert forall|i: int| a.leaves.len() <= i < c.leaves.len() implies is_leaf_path(
        (#[trigger] c.leaves[i]).loc.path,
    ) by {
        if i < b.leaves.len() {
            assert(c.leaves.take(b.leaves.len() as int)[i] == b.leaves[i]);
        }
    }
}

pub broadcast group group_names {
    lemma_names_fit,
    lemma_drawn_self,
    lemma_drawn_joins,
}

/// The paths of the objects of a store fit it.
pub proof fn lemma_names_exist(before: StoreView, store: StoreView) -> (names: Names)
    requires
        drawn(before, store),
    ensures
        names.fit(store),
        names.drawn(before),
{
    reveal(Names::fit);
    reveal(Names::drawn);
    reveal(drawn);
    let names = Names {
        nodes: Seq::new(store.nodes.len(), |i: int| store.nodes[i].loc.path),
        leaves: Seq::new(store.leaves.len(), |i: int| store.leaves[i].loc.path),
    };
    assert forall|i: int| before.nodes.len() <= i < names.nodes.len() implies is_node_path(
        #[trigger] names.nodes[i],
    ) by {
        assert(is_node_path(store.nodes[i].loc.path));
    }
    assert forall|i: int| before.leaves.len() <= i < names.leaves.len() implies is_leaf_path(
        #[trigger] names.leaves[i],
    ) by {
        assert(is_leaf_path(store.leaves[i].loc.path));
    }
    names
}

/// Paths that fit a store fit what it grew from.
pub broadcast proof fn lemma_names_fit(names: Names, before: StoreView, after: StoreView)
    requires
        #[trigger] after.extends(before),
        #[trigger] names.fit(after),
    ensures
        names.fit(before),
{
    reveal(Names::fit);
    assert forall|i: int| 0 <= i < before.nodes.len() implies (
    #[trigger] before.nodes[i]).loc.path == names.nodes[i] by {
        assert(after.nodes.take(before.nodes.len() as int)[i] == after.nodes[i]);
    }
    assert forall|i: int| 0 <= i < before.leaves.len() implies (
    #[trigger] before.leaves[i]).loc.path == names.leaves[i] by {
        assert(after.leaves.take(before.leaves.len() as int)[i] == after.leaves[i]);
    }
}

/// What writing a level as a node gives: the store, the reference and the
/// bytes.
pub open spec fn put_node(
    store: StoreView,
    names: Names,
    children: Seq<ChildView>,
    buffer: Seq<MutationView>,
) -> Result<(StoreView, ChildView, u64), Halt> {
    let bytes = wire::capped(node::children_len(children) + node::buffer_len(buffer));
    match node_refusal(store, children, buffer) {
        Some(error) => Err(Halt::Fail(error)),
        None => {
            let child = node::internal_summary(
                names.nodes[store.nodes.len() as int],
                children,
                buffer,
                bytes,
            )->Ok_0;
            let written = NodeView { loc: child.loc(), object_size: bytes, children, buffer };
            Ok((StoreView { nodes: store.nodes.push(written), ..store }, child, bytes))
        },
    }
}

pub proof fn lemma_put_node(
    before: StoreView,
    after: StoreView,
    names: Names,
    children: Seq<ChildView>,
    buffer: Seq<MutationView>,
    child: ChildView,
    bytes: u64,
)
    requires
        wrote_node(before, after, children, buffer, child, bytes),
        names.fit(after),
        node_refusal(before, children, buffer) is None,
    ensures
        put_node(before, names, children, buffer) == Ok::<(StoreView, ChildView, u64), Halt>(
            (after, child, bytes),
        ),
{
    reveal(Names::fit);
    assert(after.nodes[before.nodes.len() as int].loc.path == names.nodes[before.nodes.len() as int]);
    assert(child.loc().path == child.path);
}

/// The references of records written as leaves, part by part.
pub open spec fn put_refs(
    store: StoreView,
    names: Names,
    fragments: Seq<FragmentView>,
    parts: Seq<(int, int)>,
    watermark: u64,
) -> Seq<ChildView> {
    Seq::new(
        parts.len(),
        |i: int|
            node::leaf_summary(
                names.leaves[store.leaves.len() + i],
                fragments.subrange(parts[i].0, parts[i].1),
                store.size_of(fragments.subrange(parts[i].0, parts[i].1))->0,
                watermark,
            )->Ok_0,
    )
}

/// The store that knows those leaves.
pub open spec fn put_parts(
    store: StoreView,
    names: Names,
    fragments: Seq<FragmentView>,
    parts: Seq<(int, int)>,
    watermark: u64,
) -> StoreView {
    let refs = put_refs(store, names, fragments, parts, watermark);
    StoreView {
        leaves: store.leaves + Seq::new(
            parts.len(),
            |i: int|
                LeafView {
                    loc: refs[i].loc(),
                    object_size: store.size_of(fragments.subrange(parts[i].0, parts[i].1))->0,
                    fragments: fragments.subrange(parts[i].0, parts[i].1),
                },
        ),
        ..store
    }
}

/// What writing records as leaves gives: the store and the references.
pub open spec fn put_leaves(
    store: StoreView,
    names: Names,
    fragments: Seq<FragmentView>,
    watermark: u64,
    config: FragmentMetadataTreeConfig,
) -> Result<(StoreView, Seq<ChildView>), Halt> {
    let parts = halves(store, fragments, 0, fragments.len() as int, config.max_leaf_bytes);
    match leaves_verdict(store, fragments, config) {
        Some(why) => Err(halted(why)),
        None => Ok(
            (
                put_parts(store, names, fragments, parts, watermark),
                put_refs(store, names, fragments, parts, watermark),
            ),
        ),
    }
}

/// What writing the records of a new tree gives.
pub open spec fn put_initial(
    store: StoreView,
    names: Names,
    fragments: Seq<FragmentView>,
    config: FragmentMetadataTreeConfig,
) -> Result<(StoreView, Seq<ChildView>), Halt> {
    let most = config.max_leaf_bytes;
    let parts = joined_parts(store, fragments, initial_parts(store, fragments, 0, most), most);
    match initial_verdict(store, fragments, config) {
        Some(why) => Err(halted(why)),
        None => Ok(
            (
                put_parts(store, names, fragments, parts, 0),
                put_refs(store, names, fragments, parts, 0),
            ),
        ),
    }
}

/// One leaf more.
proof fn lemma_drawn_leaf(before: StoreView, middle: StoreView, after: StoreView)
    requires
        drawn(before, middle),
        middle.leaves.len() < after.leaves.len(),
        after == (StoreView { leaves: middle.leaves.push(after.leaves.last()), ..middle }),
        is_leaf_path(after.leaves.last().loc.path),
    ensures
        drawn(before, after),
{
    reveal(drawn);
    assert forall|i: int| before.leaves.len() <= i < after.leaves.len() implies is_leaf_path(
        (#[trigger] after.leaves[i]).loc.path,
    ) by {
        if i < middle.leaves.len() {
            assert(after.leaves[i] == middle.leaves[i]);
        }
    }
}

/// One node more.
pub proof fn lemma_drawn_node(before: StoreView, after: StoreView)
    requires
        before.nodes.len() < after.nodes.len(),
        after == (StoreView { nodes: before.nodes.push(after.nodes.last()), ..before }),
        is_node_path(after.nodes.last().loc.path),
    ensures
        drawn(before, after),
{
    reveal(drawn);
}

proof fn lemma_put_parts(
    before: StoreView,
    after: StoreView,
    names: Names,
    refs: Seq<ChildView>,
    fragments: Seq<FragmentView>,
    parts: Seq<(int, int)>,
    watermark: u64,
)
    requires
        wrote_leaves(before, after, refs, fragments, parts, watermark),
        names.fit(after),
    ensures
        put_parts(before, names, fragments, parts, watermark) == after,
        put_refs(before, names, fragments, parts, watermark) == refs,
{
    reveal(Names::fit);
    let known = before.leaves.len() as int;
    let put = put_refs(before, names, fragments, parts, watermark);
    assert forall|i: int| 0 <= i < parts.len() implies #[trigger] put[i] == refs[i] by {
        assert(after.leaves[known + i].loc.path == names.leaves[known + i]);
        let (from, to) = parts[i];
        assert(refs[i].loc().path == refs[i].path);
    }
    assert(put =~= refs);
    let made = put_parts(before, names, fragments, parts, watermark);
    assert forall|i: int| 0 <= i < made.leaves.len() implies made.leaves[i]
        == #[trigger] after.leaves[i] by {
        if i < known {
            assert(after.leaves.take(known)[i] == after.leaves[i]);
        } else {
            let part = fragments.subrange(parts[i - known].0, parts[i - known].1);
            assert(after.leaves[known + (i - known)].loc == refs[i - known].loc());
            assert(put[i - known] == refs[i - known]);
        }
    }
    assert(made.leaves =~= after.leaves);
}

/// Whether a result is the one a verdict calls for.
pub open spec fn follows<T>(verdict: Option<Option<Error>>, r: Result<T, Stop>) -> bool {
    match verdict {
        None => r is Ok,
        Some(None) => r matches Err(Stop::Need(_)),
        Some(Some(error)) => r == Err::<T, Stop>(Stop::Fail(error)),
    }
}

impl NodeStore {
    /// A path no known node has, from an identifier that is drawn. Where the
    /// drawn one is taken, one that shares its first half is not.
    fn free_node_path(&self) -> (r: String)
        ensures
            !self@.knows_node(Loc { path: r@, base_id: None }),
            is_node_path(r@),
    {
        let drawn = paths::new_identifier();
        let ghost base = drawn@;
        let first = paths::node_path(&drawn);
        let n: usize = self.nodes.len();
        if self.find_node(&first, None) == n {
            return first;
        }
        let ghost all = self@.nodes;
        let ghost place = |k: int|
            node_index(
                all,
                Loc { path: paths::node_path_of(paths::numbered(base, k as nat)), base_id: None },
            );
        let mut k: usize = 0;
        while k < n
            invariant
                k <= n,
                n == all.len(),
                all == self@.nodes,
                base == drawn@,
                base.len() == 16,
                place == (|k: int|
                    node_index(
                        all,
                        Loc {
                            path: paths::node_path_of(paths::numbered(base, k as nat)),
                            base_id: None,
                        },
                    )),
                forall|i: int| 0 <= i < k ==> #[trigger] place(i) < n,
            decreases n - k,
        {
            let path = paths::node_path(&paths::number_identifier(&drawn, k as u64));
            if self.find_node(&path, None) == n {
                return path;
            }
            assert(place(k as int) < n);
            k = k + 1;
        }
        let path = paths::node_path(&paths::number_identifier(&drawn, n as u64));
        proof {
            if place(n as int) < n {
                let places = Seq::new((n + 1) as nat, |i: int| place(i));
                assert forall|i: int| 0 <= i < places.len() implies 0 <= #[trigger] places[i]
                    < n by {
                    lemma_node_index(
                        all,
                        Loc {
                            path: paths::node_path_of(paths::numbered(base, i as nat)),
                            base_id: None,
                        },
                    );
                    assert(place(i) < n);
                }
                assert forall|i: int, j: int| 0 <= i < j < places.len() implies
                    #[trigger] places[i] != #[trigger] places[j] by {
                    let a = Loc {
                        path: paths::node_path_of(paths::numbered(base, i as nat)),
                        base_id: None,
                    };
                    let b = Loc {
                        path: paths::node_path_of(paths::numbered(base, j as nat)),
                        base_id: None,
                    };
                    lemma_node_index(all, a);
                    lemma_node_index(all, b);
                    assert(place(i) < n && place(j) < n);
                    if places[i] == places[j] {
                        assert(a == b);
                        paths::lemma_numbered_paths(base, i as nat, j as nat);
                    }
                }
                paths::lemma_crowded(places, n as nat);
            }
        }
        path
    }

    /// A path no known leaf has, from an identifier that is drawn. Where the
    /// drawn one is taken, one that shares its first half is not.
    fn free_leaf_path(&self) -> (r: String)
        ensures
            !self@.knows_leaf(Loc { path: r@, base_id: None }),
            is_leaf_path(r@),
    {
        let drawn = paths::new_identifier();
        let ghost base = drawn@;
        let first = paths::leaf_path(&drawn);
        let n: usize = self.leaves.len();
        if self.find_leaf(&first, None) == n {
            return first;
        }
        let ghost all = self@.leaves;
        let ghost place = |k: int|
            leaf_index(
                all,
                Loc { path: paths::leaf_path_of(paths::numbered(base, k as nat)), base_id: None },
            );
        let mut k: usize = 0;
        while k < n
            invariant
                k <= n,
                n == all.len(),
                all == self@.leaves,
                base == drawn@,
                base.len() == 16,
                place == (|k: int|
                    leaf_index(
                        all,
                        Loc {
                            path: paths::leaf_path_of(paths::numbered(base, k as nat)),
                            base_id: None,
                        },
                    )),
                forall|i: int| 0 <= i < k ==> #[trigger] place(i) < n,
            decreases n - k,
        {
            let path = paths::leaf_path(&paths::number_identifier(&drawn, k as u64));
            if self.find_leaf(&path, None) == n {
                return path;
            }
            assert(place(k as int) < n);
            k = k + 1;
        }
        let path = paths::leaf_path(&paths::number_identifier(&drawn, n as u64));
        proof {
            if place(n as int) < n {
                let places = Seq::new((n + 1) as nat, |i: int| place(i));
                assert forall|i: int| 0 <= i < places.len() implies 0 <= #[trigger] places[i]
                    < n by {
                    lemma_leaf_index(
                        all,
                        Loc {
                            path: paths::leaf_path_of(paths::numbered(base, i as nat)),
                            base_id: None,
                        },
                    );
                    assert(place(i) < n);
                }
                assert forall|i: int, j: int| 0 <= i < j < places.len() implies
                    #[trigger] places[i] != #[trigger] places[j] by {
                    let a = Loc {
                        path: paths::leaf_path_of(paths::numbered(base, i as nat)),
                        base_id: None,
                    };
                    let b = Loc {
                        path: paths::leaf_path_of(paths::numbered(base, j as nat)),
                        base_id: None,
                    };
                    lemma_leaf_index(all, a);
                    lemma_leaf_index(all, b);
                    assert(place(i) < n && place(j) < n);
                    if places[i] == places[j] {
                        assert(a == b);
                        paths::lemma_numbered_paths(base, i as nat, j as nat);
                    }
                }
                paths::lemma_crowded(places, n as nat);
            }
        }
        path
    }

    /// Write an internal node at a path. Objects are written once, so a path
    /// that is taken is refused.
    pub fn write_internal_at(
        &mut self,
        path: String,
        children: Vec<FragmentMetadataChild>,
        buffer: Vec<FragmentMetadataMutation>,
    ) -> (r: Result<Written, Stop>)
        ensures
            ({
                let before = old(self)@;
                let kids = views::all(children@);
                let pending = views::all(buffer@);
                match node_refusal(before, kids, pending) {
                    Some(error) => r == Err::<Written, Stop>(Stop::Fail(error)) && final(self)@
                        == before,
                    None => if before.knows_node((Loc { path: path@, base_id: None })) {
                        &&& r == Err::<Written, Stop>(
                            Stop::Fail(Error::Internal { reason: Reason::PathTaken }),
                        )
                        &&& final(self)@ == before
                    } else {
                        &&& r matches Ok(written)
                        &&& written.child_ref@.path == path@
                        &&& wrote_node(
                            before,
                            final(self)@,
                            kids,
                            pending,
                            written.child_ref@,
                            written.io_bytes,
                        )
                    },
                }
            }),
            old(self)@.unique() ==> final(self)@.unique(),
    {
        let io_bytes: u64 = node::internal_logical_bytes(&children, &buffer);
        if io_bytes > self.hard_capacity_bytes {
            return Err(
                Stop::Fail(
                    Error::InvalidInput {
                        reason: Reason::NodeTooLarge {
                            bytes: io_bytes,
                            hard_capacity_bytes: self.hard_capacity_bytes,
                        },
                    },
                ),
            );
        }
        let child_ref = match node::internal_ref(path.clone(), &children, &buffer, io_bytes) {
            Ok(child_ref) => child_ref,
            Err(error) => {
                return Err(Stop::Fail(error));
            },
        };
        let at: usize = self.find_node(&path, None);
        if at < self.nodes.len() {
            return Err(Stop::Fail(Error::Internal { reason: Reason::PathTaken }));
        }
        proof {
            lemma_node_index(self@.nodes, child_ref@.loc());
        }
        self.nodes.push(
            StoredNode { path, base_id: None, object_size: io_bytes, children, buffer },
        );
        Ok(Written { child_ref, io_bytes })
    }

    /// Write an internal node at a new path.
    pub fn write_internal(
        &mut self,
        children: Vec<FragmentMetadataChild>,
        buffer: Vec<FragmentMetadataMutation>,
    ) -> (r: Result<Written, Stop>)
        ensures
            ({
                let before = old(self)@;
                let kids = views::all(children@);
                let pending = views::all(buffer@);
                match node_refusal(before, kids, pending) {
                    Some(error) => r == Err::<Written, Stop>(Stop::Fail(error)) && final(self)@
                        == before,
                    None => {
                        &&& r matches Ok(written)
                        &&& wrote_node(
                            before,
                            final(self)@,
                            kids,
                            pending,
                            written.child_ref@,
                            written.io_bytes,
                        )
                        &&& is_node_path(written.child_ref@.path)
                    },
                }
            }),
            old(self)@.unique() ==> final(self)@.unique(),
    {
        let path = self.free_node_path();
        self.write_internal_at(path, children, buffer)
    }

    /// The encoded size of a leaf with these records.
    pub fn leaf_size(&self, fragments: &Vec<Fragment>) -> (r: Result<u64, Stop>)
        ensures
            match self@.size_of(views::all(fragments@)) {
                Some(bytes) => r == Ok::<u64, Stop>(bytes),
                None => r matches Err(Stop::Need(Request::LeafSize(wanted))) && views::all(wanted@)
                    == views::all(fragments@),
            },
            r matches Err(stop) ==> honest(stop, self@),
    {
        let ghost all = self@.sizes;
        let ghost wanted = views::all(fragments@);
        proof {
            lemma_size_index(all, wanted);
        }
        let mut i: usize = 0;
        while i < self.sizes.len()
            invariant
                i <= self.sizes@.len(),
                all == self@.sizes,
                wanted == views::all(fragments@),
                0 <= size_index(all, wanted) <= all.len(),
                size_index(all, wanted) < all.len() ==> all[size_index(all, wanted)].fragments
                    == wanted,
                forall|k: int|
                    0 <= k < size_index(all, wanted) ==> (#[trigger] all[k]).fragments != wanted,
                i <= size_index(all, wanted),
            decreases self.sizes@.len() - i,
        {
            assert(all[i as int] == self.sizes@[i as int]@);
            if same::fragments(&self.sizes[i].fragments, fragments) {
                return Ok(self.sizes[i].bytes);
            }
            i = i + 1;
        }
        Err(Stop::Need(Request::LeafSize(record::clone_fragments(fragments))))
    }

    /// Write sorted records as one leaf at a path. Objects are written once, so
    /// a path that is taken is refused.
    pub fn write_leaf_at(
        &mut self,
        path: String,
        fragments: &Vec<Fragment>,
        materialized_through_action_sequence: u64,
    ) -> (r: Result<Written, Stop>)
        ensures
            ({
                let before = old(self)@;
                let all = views::all(fragments@);
                if leaf_verdict(before, all) is Some {
                    follows(leaf_verdict(before, all), r) && final(self)@ == before
                } else if before.knows_leaf((Loc { path: path@, base_id: None })) {
                    &&& r == Err::<Written, Stop>(
                        Stop::Fail(Error::Internal { reason: Reason::PathTaken }),
                    )
                    &&& final(self)@ == before
                } else {
                    &&& r matches Ok(written)
                    &&& written.child_ref@.path == path@
                    &&& wrote_leaf(
                        before,
                        final(self)@,
                        all,
                        materialized_through_action_sequence,
                        written.child_ref@,
                        written.io_bytes,
                    )
                }
            }),
            r matches Err(stop) ==> honest(stop, old(self)@),
            old(self)@.unique() ==> final(self)@.unique(),
    {
        let bytes: u64 = match self.leaf_size(fragments) {
            Ok(bytes) => bytes,
            Err(stop) => {
                return Err(stop);
            },
        };
        let child_ref = match node::leaf_ref(
            path.clone(),
            fragments,
            bytes,
            materialized_through_action_sequence,
        ) {
            Ok(child_ref) => child_ref,
            Err(error) => {
                return Err(Stop::Fail(error));
            },
        };
        let at: usize = self.find_leaf(&path, None);
        if at < self.leaves.len() {
            return Err(Stop::Fail(Error::Internal { reason: Reason::PathTaken }));
        }
        proof {
            lemma_leaf_index(self@.leaves, child_ref@.loc());
        }
        self.leaves.push(
            StoredLeaf {
                path,
                base_id: None,
                object_size: bytes,
                fragments: record::clone_fragments(fragments),
            },
        );
        Ok(Written { child_ref, io_bytes: bytes })
    }

    /// Write sorted records as one leaf at a new path.
    pub fn write_leaf(
        &mut self,
        fragments: &Vec<Fragment>,
        materialized_through_action_sequence: u64,
    ) -> (r: Result<Written, Stop>)
        ensures
            follows(leaf_verdict(old(self)@, views::all(fragments@)), r),
            match r {
                Ok(written) => wrote_leaf(
                    old(self)@,
                    final(self)@,
                    views::all(fragments@),
                    materialized_through_action_sequence,
                    written.child_ref@,
                    written.io_bytes,
                ) && is_leaf_path(written.child_ref@.path),
                Err(stop) => final(self)@ == old(self)@ && honest(stop, old(self)@),
            },
            old(self)@.unique() ==> final(self)@.unique(),
    {
        let path = self.free_leaf_path();
        self.write_leaf_at(path, fragments, materialized_through_action_sequence)
    }

    /// How a range of records is cut into leaves: split only when the actual
    /// encoding exceeds the target. A single record may exceed the target,
    /// but never the hard object limit.
    fn encoded_leaves(
        &self,
        fragments: &Vec<Fragment>,
        from: usize,
        to: usize,
        config: &FragmentMetadataTreeConfig,
    ) -> (r: Result<Vec<(usize, usize)>, Stop>)
        requires
            from <= to <= fragments@.len(),
        ensures
            ({
                let all = views::all(fragments@);
                let parts = halves(self@, all, from as int, to as int, config.max_leaf_bytes);
                match sized(self@, all, from as int, to as int, *config) {
                    Ok(list) => {
                        &&& list == parts
                        &&& r matches Ok(list)
                        &&& bounds(list@) == parts
                        &&& forall|i: int|
                            0 <= i < parts.len() ==> (self@.size_of(
                                all.subrange((#[trigger] parts[i]).0, parts[i].1),
                            ) matches Some(bytes) && bytes <= config.hard_capacity_bytes)
                    },
                    Err(None) => r matches Err(Stop::Need(_)),
                    Err(Some(error)) => r == Err::<Vec<(usize, usize)>, Stop>(Stop::Fail(error)),
                }
            }),
            r matches Err(stop) ==> honest(stop, self@),
        decreases to - from,
    {
        let ghost all = views::all(fragments@);
        let ghost parts = halves(self@, all, from as int, to as int, config.max_leaf_bytes);
        let mut list: Vec<(usize, usize)> = Vec::new();
        if from == to {
            assert(bounds(list@) =~= parts);
            return Ok(list);
        }
        let piece = part_of(fragments, from, to);
        let bytes: u64 = match self.leaf_size(&piece) {
            Ok(bytes) => bytes,
            Err(stop) => {
                return Err(stop);
            },
        };
        if bytes > config.max_leaf_bytes && to - from > 1 {
            let middle: usize = from + (to - from) / 2;
            let ghost left_parts = halves(
                self@,
                all,
                from as int,
                middle as int,
                config.max_leaf_bytes,
            );
            let ghost right_parts = halves(
                self@,
                all,
                middle as int,
                to as int,
                config.max_leaf_bytes,
            );
            assert(parts == left_parts + right_parts);
            let left = match self.encoded_leaves(fragments, from, middle, config) {
                Ok(left) => left,
                Err(stop) => {
                    return Err(stop);
                },
            };
            let mut right = match self.encoded_leaves(fragments, middle, to, config) {
                Ok(right) => right,
                Err(stop) => {
                    return Err(stop);
                },
            };
            list = left;
            proof {
                assert forall|i: int| 0 <= i < parts.len() implies (self@.size_of(
                    all.subrange((#[trigger] parts[i]).0, parts[i].1),
                ) matches Some(bytes) && bytes <= config.hard_capacity_bytes) by {
                    if i < left_parts.len() {
                        assert(parts[i] == left_parts[i]);
                    } else {
                        assert(parts[i] == right_parts[i - left_parts.len()]);
                    }
                }
            }
            list.append(&mut right);
            assert(bounds(list@) =~= parts);
            return Ok(list);
        }
        assert(parts == seq![(from as int, to as int)]);
        assert(parts[0] == (from as int, to as int));
        if bytes > config.hard_capacity_bytes {
            return Err(
                Stop::Fail(
                    Error::InvalidInput {
                        reason: Reason::LeafTooLarge {
                            id: fragments[from].id,
                            bytes,
                            hard_capacity_bytes: config.hard_capacity_bytes,
                        },
                    },
                ),
            );
        }
        list.push((from, to));
        assert(bounds(list@) =~= parts);
        Ok(list)
    }

    fn write_parts(
        &mut self,
        fragments: &Vec<Fragment>,
        parts: &Vec<(usize, usize)>,
        watermark: u64,
    ) -> (r: Result<Vec<Written>, Stop>)
        requires
            tiles(bounds(parts@), 0, fragments@.len() as int),
            forall|i: int|
                0 <= i < parts@.len() ==> old(self)@.size_of(
                    views::all(fragments@).subrange(
                        (#[trigger] bounds(parts@)[i]).0,
                        bounds(parts@)[i].1,
                    ),
                ) is Some,
        ensures
            r matches Ok(written) ==> wrote_leaves(
                old(self)@,
                final(self)@,
                refs_of(written@),
                views::all(fragments@),
                bounds(parts@),
                watermark,
            ),
            r matches Ok(written) ==> measured(written@),
            match sums_fault(views::all(fragments@), bounds(parts@)) {
                Some(error) => r == Err::<Vec<Written>, Stop>(Stop::Fail(error)),
                None => r is Ok,
            },
            final(self)@.extends(old(self)@),
            drawn(old(self)@, final(self)@),
            old(self)@.unique() ==> final(self)@.unique(),
    {
        broadcast use {lemma_drawn_self, lemma_drawn_joins};

        let ghost all = views::all(fragments@);
        let ghost cut = bounds(parts@);
        let ghost before = self@;
        let ghost known = before.leaves.len();
        proof {
            lemma_tiles(cut, 0, fragments@.len() as int);
            lemma_extends_self(before);
        }
        let mut output: Vec<Written> = Vec::new();
        let mut i: usize = 0;
        while i < parts.len()
            invariant
                i <= parts@.len(),
                all == views::all(fragments@),
                cut == bounds(parts@),
                before == old(self)@,
                known == before.leaves.len(),
                forall|k: int|
                    0 <= k < cut.len() ==> 0 <= (#[trigger] cut[k]).0 && cut[k].0 < cut[k].1
                        && cut[k].1 <= fragments@.len(),
                forall|k: int|
                    0 <= k < cut.len() ==> before.size_of(
                        all.subrange((#[trigger] cut[k]).0, cut[k].1),
                    ) is Some,
                wrote_leaves(before, self@, refs_of(output@), all, cut.take(i as int), watermark),
                measured(output@),
                sums_fault(all, cut.take(i as int)) is None,
                drawn(before, self@),
                before.unique() ==> self@.unique(),
            decreases parts@.len() - i,
        {
            let (from, to) = parts[i];
            assert(cut[i as int] == (from as int, to as int));
            let piece = part_of(fragments, from, to);
            let ghost middle = self@;
            let ghost shorter = cut.take(i as int);
            let ghost longer = cut.take(i + 1);
            assert(middle.size_of(all.subrange(from as int, to as int)) == before.size_of(
                all.subrange(from as int, to as int),
            ));
            assert(longer.drop_last() =~= shorter);
            assert(longer.last() == (from as int, to as int));
            match self.write_leaf(&piece, watermark) {
                Ok(written) => {
                    let ghost refs = refs_of(output@);
                    output.push(written);
                    proof {
                        lemma_drawn_leaf(before, middle, self@);
                        assert(refs_of(output@) =~= refs.push(written.child_ref@));
                        assert(self@.nodes.take(before.nodes.len() as int) =~= before.nodes);
                        assert(self@.leaves.take(known as int) =~= before.leaves) by {
                            assert(middle.leaves.take(known as int) == before.leaves);
                            assert forall|k: int| 0 <= k < known implies self@.leaves[k]
                                == before.leaves[k] by {
                                assert(middle.leaves.take(known as int)[k] == before.leaves[k]);
                            }
                        }
                        assert forall|k: int| 0 <= k < longer.len() implies {
                            let part = all.subrange((#[trigger] longer[k]).0, longer[k].1);
                            let leaf = self@.leaves[known + k];
                            &&& leaf.loc == refs_of(output@)[k].loc()
                            &&& leaf.fragments == part
                            &&& before.size_of(part) == Some(leaf.object_size)
                            &&& node::leaf_summary(
                                refs_of(output@)[k].path,
                                part,
                                leaf.object_size,
                                watermark,
                            ) == Ok::<ChildView, Error>(refs_of(output@)[k])
                        } by {
                            if k < i {
                                assert(longer[k] == shorter[k]);
                                assert(self@.leaves[known + k] == middle.leaves[known + k]);
                                assert(refs_of(output@)[k] == refs[k]);
                            } else {
                                assert(longer[k] == (from as int, to as int));
                            }
                        }
                    }
                },
                Err(stop) => {
                    proof {
                        lemma_sums_fault(all, cut, i + 1);
                    }
                    return Err(stop);
                },
            }
            i = i + 1;
        }
        assert(cut.take(cut.len() as int) =~= cut);
        Ok(output)
    }

    /// Write sorted records as leaves. Encode before publishing, splitting
    /// only when actual bytes exceed the target. A single record may exceed
    /// the target, but never the hard object limit.
    pub fn write_leaves(
        &mut self,
        fragments: &Vec<Fragment>,
        watermark: u64,
        config: &FragmentMetadataTreeConfig,
    ) -> (r: Result<Vec<Written>, Stop>)
        ensures
            r matches Ok(written) ==> wrote_leaves(
                old(self)@,
                final(self)@,
                refs_of(written@),
                views::all(fragments@),
                halves(
                    old(self)@,
                    views::all(fragments@),
                    0,
                    fragments@.len() as int,
                    config.max_leaf_bytes,
                ),
                watermark,
            ),
            r matches Ok(written) ==> measured(written@),
            follows(leaves_verdict(old(self)@, views::all(fragments@), *config), r),
            forall|names: Names| #[trigger]
                names.fit(final(self)@) ==> put_leaves(
                    old(self)@,
                    names,
                    views::all(fragments@),
                    watermark,
                    *config,
                ) == match r {
                    Ok(written) => Ok((final(self)@, refs_of(written@))),
                    Err(stop) => Err(stop.halt()),
                },
            r matches Err(stop) ==> honest(stop, old(self)@) && !(stop is Collapsed),
            final(self)@.extends(old(self)@),
            drawn(old(self)@, final(self)@),
            old(self)@.unique() ==> final(self)@.unique(),
    {
        broadcast use lemma_drawn_self;

        proof {
            lemma_extends_self(self@);
            lemma_halves(
                self@,
                views::all(fragments@),
                0,
                fragments@.len() as int,
                config.max_leaf_bytes,
            );
        }
        let parts = match self.encoded_leaves(fragments, 0, fragments.len(), config) {
            Ok(parts) => parts,
            Err(stop) => {
                return Err(stop);
            },
        };
        let ghost before = self@;
        let r = self.write_parts(fragments, &parts, watermark);
        proof {
            let all = views::all(fragments@);
            if let Ok(written) = &r {
                assert forall|names: Names| #[trigger] names.fit(self@) implies put_leaves(
                    before,
                    names,
                    all,
                    watermark,
                    *config,
                ) == Ok::<(StoreView, Seq<ChildView>), Halt>((self@, refs_of(written@))) by {
                    lemma_put_parts(
                        before,
                        self@,
                        names,
                        refs_of(written@),
                        all,
                        halves(before, all, 0, all.len() as int, config.max_leaf_bytes),
                        watermark,
                    );
                }
            }
        }
        r
    }

    /// Write the leaves of a new tree. Adjacent parts are packed when their
    /// combined encoding fits, with at most three targets of logical metadata
    /// in a candidate. The sizes only choose a candidate; its actual encoding
    /// decides admission.
    pub fn write_initial_leaves(
        &mut self,
        fragments: &Vec<Fragment>,
        config: &FragmentMetadataTreeConfig,
    ) -> (r: Result<Vec<Written>, Stop>)
        requires
            config.valid(),
        ensures
            r matches Ok(written) ==> wrote_leaves(
                old(self)@,
                final(self)@,
                refs_of(written@),
                views::all(fragments@),
                joined_parts(
                    old(self)@,
                    views::all(fragments@),
                    initial_parts(old(self)@, views::all(fragments@), 0, config.max_leaf_bytes),
                    config.max_leaf_bytes,
                ),
                0,
            ),
            r matches Ok(written) ==> measured(written@),
            follows(initial_verdict(old(self)@, views::all(fragments@), *config), r),
            forall|names: Names| #[trigger]
                names.fit(final(self)@) ==> put_initial(
                    old(self)@,
                    names,
                    views::all(fragments@),
                    *config,
                ) == match r {
                    Ok(written) => Ok((final(self)@, refs_of(written@))),
                    Err(stop) => Err(stop.halt()),
                },
            r matches Err(stop) ==> honest(stop, old(self)@) && !(stop is Collapsed),
            final(self)@.extends(old(self)@),
            drawn(old(self)@, final(self)@),
            old(self)@.unique() ==> final(self)@.unique(),
    {
        broadcast use lemma_drawn_self;

        let ghost all = views::all(fragments@);
        let ghost n = fragments@.len() as int;
        let ghost most = config.max_leaf_bytes;
        proof {
            lemma_extends_self(self@);
            lemma_initial_parts(self@, all, 0, most);
            let none = Seq::<(int, int)>::empty();
            if let Ok(rest) = sized_groups(self@, all, 0, *config) {
                assert(none + rest =~= rest);
            }
        }
        let mut parts: Vec<(usize, usize)> = Vec::new();
        let mut start: usize = 0;
        while start < fragments.len()
            invariant
                start <= fragments@.len(),
                all == views::all(fragments@),
                n == fragments@.len(),
                most == config.max_leaf_bytes,
                config.valid(),
                self@ == old(self)@,
                self@.extends(old(self)@),
                drawn(old(self)@, self@),
                initial_parts(self@, all, 0, most) == bounds(parts@) + initial_parts(
                    self@,
                    all,
                    start as int,
                    most,
                ),
                match sized_groups(self@, all, start as int, *config) {
                    Err(stop) => sized_groups(self@, all, 0, *config) == Err::<
                        Seq<(int, int)>,
                        Option<Error>,
                    >(stop),
                    Ok(rest) => sized_groups(self@, all, 0, *config) == Ok::<
                        Seq<(int, int)>,
                        Option<Error>,
                    >(bounds(parts@) + rest),
                },
                forall|k: int|
                    0 <= k < parts@.len() ==> self@.size_of(
                        all.subrange((#[trigger] bounds(parts@)[k]).0, bounds(parts@)[k].1),
                    ) is Some,
            decreases fragments@.len() - start,
        {
            let end: usize = NodeStore::group_of(fragments, start, config.max_leaf_bytes);
            proof {
                lemma_group_end(all, start as int, start as int, most);
            }
            let ghost group_parts = halves(self@, all, start as int, end as int, most);
            let ghost earlier = bounds(parts@);
            let mut group = match self.encoded_leaves(fragments, start, end, config) {
                Ok(group) => group,
                Err(stop) => {
                    return Err(stop);
                },
            };
            parts.append(&mut group);
            proof {
                assert(bounds(parts@) =~= earlier + group_parts);
                let later = initial_parts(self@, all, end as int, most);
                assert(earlier + (group_parts + later) =~= (earlier + group_parts) + later);
                if let Ok(rest) = sized_groups(self@, all, end as int, *config) {
                    assert(earlier + (group_parts + rest) =~= (earlier + group_parts) + rest);
                }
                assert forall|k: int| 0 <= k < parts@.len() implies self@.size_of(
                    all.subrange((#[trigger] bounds(parts@)[k]).0, bounds(parts@)[k].1),
                ) is Some by {
                    if k < earlier.len() {
                        assert(bounds(parts@)[k] == earlier[k]);
                    } else {
                        assert(bounds(parts@)[k] == group_parts[k - earlier.len()]);
                    }
                }
            }
            start = end;
        }
        proof {
            assert(initial_parts(self@, all, n, most) =~= Seq::empty());
            assert(bounds(parts@) =~= initial_parts(self@, all, 0, most));
            assert(bounds(parts@) + Seq::<(int, int)>::empty() =~= bounds(parts@));
            lemma_joined_parts(self@, all, bounds(parts@), most, 0, n);
        }
        let joined = match self.join_parts(fragments, &parts, config) {
            Ok(joined) => joined,
            Err(stop) => {
                return Err(stop);
            },
        };
        let ghost before = self@;
        let r = self.write_parts(fragments, &joined, 0);
        proof {
            if let Ok(written) = &r {
                assert forall|names: Names| #[trigger] names.fit(self@) implies put_initial(
                    before,
                    names,
                    all,
                    *config,
                ) == Ok::<(StoreView, Seq<ChildView>), Halt>((self@, refs_of(written@))) by {
                    lemma_put_parts(
                        before,
                        self@,
                        names,
                        refs_of(written@),
                        all,
                        joined_parts(before, all, initial_parts(before, all, 0, most), most),
                        0,
                    );
                }
            }
        }
        r
    }

    fn group_of(fragments: &Vec<Fragment>, start: usize, max_leaf_bytes: u64) -> (r: usize)
        requires
            start < fragments@.len(),
            max_leaf_bytes > 0,
        ensures
            r == group_end(views::all(fragments@), start as int, start as int, max_leaf_bytes),
            start < r <= fragments@.len(),
    {
        let ghost all = views::all(fragments@);
        let mut end: usize = start;
        let mut logical_bytes: u64 = 0;
        proof {
            lemma_group_end(all, start as int, start as int, max_leaf_bytes);
            assert(all.subrange(start as int, start as int).len() == 0);
        }
        while end < fragments.len() && logical_bytes < max_leaf_bytes
            invariant
                start <= end <= fragments@.len(),
                all == views::all(fragments@),
                logical_bytes == wire::capped(
                    node::fragments_len(all.subrange(start as int, end as int)),
                ),
                group_end(all, start as int, start as int, max_leaf_bytes) == group_end(
                    all,
                    start as int,
                    end as int,
                    max_leaf_bytes,
                ),
            decreases fragments@.len() - end,
        {
            proof {
                lemma_fragments_len_push(all, start as int, end as int);
            }
            logical_bytes = logical_bytes.saturating_add(
                node::fragment_logical_bytes(&fragments[end]),
            );
            end = end + 1;
        }
        end
    }

    #[verifier::rlimit(60)]
    fn join_parts(
        &self,
        fragments: &Vec<Fragment>,
        parts: &Vec<(usize, usize)>,
        config: &FragmentMetadataTreeConfig,
    ) -> (r: Result<Vec<(usize, usize)>, Stop>)
        requires
            config.valid(),
            tiles(bounds(parts@), 0, fragments@.len() as int),
            forall|k: int|
                0 <= k < parts@.len() ==> self@.size_of(
                    views::all(fragments@).subrange(
                        (#[trigger] bounds(parts@)[k]).0,
                        bounds(parts@)[k].1,
                    ),
                ) is Some,
        ensures
            r matches Ok(list) ==> {
                let all = views::all(fragments@);
                let joined = joined_parts(self@, all, bounds(parts@), config.max_leaf_bytes);
                &&& bounds(list@) == joined
                &&& forall|k: int|
                    0 <= k < list@.len() ==> self@.size_of(
                        all.subrange((#[trigger] bounds(list@)[k]).0, bounds(list@)[k].1),
                    ) is Some
            },
            r matches Err(stop) ==> honest(stop, self@) && stop is Need,
            r is Ok == joins_known(
                self@,
                views::all(fragments@),
                bounds(parts@),
                config.max_leaf_bytes,
            ),
    {
        let ghost all = views::all(fragments@);
        let ghost cut = bounds(parts@);
        let ghost most = config.max_leaf_bytes;
        proof {
            lemma_tiles(cut, 0, fragments@.len() as int);
        }
        let mut output: Vec<(usize, usize)> = Vec::new();
        let mut i: usize = 0;
        while i < parts.len()
            invariant
                i <= parts@.len(),
                all == views::all(fragments@),
                cut == bounds(parts@),
                most == config.max_leaf_bytes,
                config.valid(),
                forall|k: int|
                    0 <= k < cut.len() ==> 0 <= (#[trigger] cut[k]).0 && cut[k].0 < cut[k].1
                        && cut[k].1 <= fragments@.len(),
                forall|k: int|
                    0 <= k < cut.len() ==> self@.size_of(
                        all.subrange((#[trigger] cut[k]).0, cut[k].1),
                    ) is Some,
                forall|a: int, b: int|
                    0 <= a < b < cut.len() ==> (#[trigger] cut[a]).1 <= (#[trigger] cut[b]).0,
                bounds(output@) == joined_parts(self@, all, cut.take(i as int), most),
                joins_known(self@, all, cut.take(i as int), most),
                i > 0 ==> output@.len() > 0 && output@[output@.len() - 1].1 == cut[i - 1].1,
                forall|k: int|
                    0 <= k < output@.len() ==> (#[trigger] bounds(output@)[k]).0 <= bounds(
                        output@,
                    )[k].1 <= fragments@.len() && self@.size_of(
                        all.subrange(bounds(output@)[k].0, bounds(output@)[k].1),
                    ) is Some,
            decreases parts@.len() - i,
        {
            let (from, to) = parts[i];
            let ghost before = bounds(output@);
            proof {
                assert(cut[i as int] == (from as int, to as int));
                assert(cut.take(i + 1).drop_last() =~= cut.take(i as int));
                assert(cut.take(i + 1).last() == (from as int, to as int));
            }
            let mut join = false;
            if output.len() > 0 {
                let (a, b) = output[output.len() - 1];
                proof {
                    assert(before[output@.len() - 1] == (a as int, b as int));
                    assert(cut[i - 1].1 <= cut[i as int].0);
                }
                let previous = part_of(fragments, a, b);
                let next = part_of(fragments, from, to);
                let joined = part_of(fragments, a, to);
                let x: u64 = match self.leaf_size(&previous) {
                    Ok(bytes) => bytes,
                    Err(stop) => {
                        return Err(stop);
                    },
                };
                let y: u64 = match self.leaf_size(&next) {
                    Ok(bytes) => bytes,
                    Err(stop) => {
                        return Err(stop);
                    },
                };
                let fits = match x.checked_add(y) {
                    Some(sum) => sum <= config.max_leaf_bytes,
                    None => false,
                };
                if fits && node::leaf_logical_bytes(&joined) <= config.max_leaf_bytes * 3 {
                    let bytes: u64 = match self.leaf_size(&joined) {
                        Ok(bytes) => bytes,
                        Err(stop) => {
                            proof {
                                assert(may_join(
                                    self@,
                                    all,
                                    (a as int, b as int),
                                    (from as int, to as int),
                                    most,
                                ));
                                lemma_joins_known(self@, all, cut, most, i + 1);
                            }
                            return Err(stop);
                        },
                    };
                    join = bytes <= config.max_leaf_bytes;
                }
                assert(join == joins(
                    self@,
                    all,
                    (a as int, b as int),
                    (from as int, to as int),
                    most,
                ));
            }
            if join {
                let last: usize = output.len() - 1;
                let a: usize = output[last].0;
                output.set(last, (a, to));
                assert(bounds(output@) =~= before.update(last as int, (a as int, to as int)));
            } else {
                output.push((from, to));
                assert(bounds(output@) =~= before.push((from as int, to as int)));
            }
            proof {
                assert forall|k: int| 0 <= k < output@.len() implies (
                #[trigger] bounds(output@)[k]).0 <= bounds(output@)[k].1 <= fragments@.len()
                    && self@.size_of(
                    all.subrange(bounds(output@)[k].0, bounds(output@)[k].1),
                ) is Some by {
                    if k < output@.len() - 1 {
                        assert(bounds(output@)[k] == before[k]);
                    }
                }
            }
            i = i + 1;
        }
        assert(cut.take(cut.len() as int) =~= cut);
        Ok(output)
    }
}

} // verus!
