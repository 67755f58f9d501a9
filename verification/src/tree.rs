//! Immutable routing with buffered fragment changes.
//!
//! Pressure drains the children whose pending bytes amortize a rewrite.
//! Splits and coalesces transfer messages with their ranges. The version
//! manifest publishes the prepared root after every dependency has been
//! written.

use std::collections::BTreeMap;

use vstd::prelude::*;

pub mod acceptance_laws;
pub mod access_laws;
pub mod commit_laws;
pub mod exact_laws;
pub mod lookup;
pub mod lookup_laws;
pub mod offset;
pub mod offset_laws;
pub mod opening_laws;
pub mod ownership;
pub mod publication;
pub mod read_laws;
pub mod reads;
pub mod snapshot_laws;
pub mod stage_laws;
pub mod survey;
pub mod survey_laws;
pub mod total_laws;
pub mod walk;
pub mod work_laws;

use crate::bulk;
use crate::drain;
use crate::error::{Error, Reason};
use crate::levels;
use crate::merge;
use crate::merge::WriteAcc;
use crate::node;
use crate::node::{FragmentMetadataTreeConfig, InternalNode};
use crate::partial::{StoredHeaders, StoredRow};
use crate::pb;
use crate::pb::{clone_mutations, ChildView, FragmentMetadataChild, FragmentMetadataMutation,
    MutationView};
use crate::record::Fragment;
use crate::replay;
use crate::split;
use crate::steps;
use crate::store;
use crate::store::{Halt, LeafSize, Names, NodeStore, Stop, StoreView, StoredLeaf, StoredNode};
use crate::views;
use crate::wire;
use crate::world;

verus! {

broadcast use {crate::store::group_names, crate::views::group_views, vstd::std_specs::btree::group_btree_axioms};

/// Bytes and structure written while bootstrapping.
#[derive(Debug, Clone, Copy)]
pub struct BootstrapStats {
    pub io_write_bytes: u64,
    pub num_leaves: u64,
    /// Root-to-leaf edge count; see [`FragmentTree::height`].
    pub height: u32,
}

/// Result of one commit.
#[derive(Debug, Clone, Copy)]
pub struct CommitStats {
    /// Compacted root, internal-node, and leaf bytes written by this commit.
    pub tree_write_bytes: u64,
    /// Inline or external roots prepared by this commit.
    pub checkpoints: u64,
    pub flushes: u64,
    pub splits: u64,
    pub merges: u64,
    /// Root-to-leaf edge count; see [`FragmentTree::height`].
    pub height: u32,
    /// Deepest level flushed this commit (0 = root buffer only; one or more =
    /// cascaded into internal nodes).
    pub max_flush_depth: u32,
    /// Actions this commit staged into the root buffer.
    pub messages_in: u64,
    /// Actions that reached a leaf this commit (any commit's actions).
    pub messages_materialized: u64,
    /// Actions removed by same-key squashing this commit.
    pub messages_squashed: u64,
    /// Root buffer occupancy after the commit.
    pub root_buffer_len: u64,
}

/// A writer session over a fragment metadata tree. Holds the root (child
/// references, buffer, and aggregates). Interior and leaf nodes are read on
/// demand.
pub struct FragmentTree {
    pub(crate) store: NodeStore,
    pub(crate) config: FragmentMetadataTreeConfig,
    pub(crate) version: u64,
    pub(crate) children: Vec<FragmentMetadataChild>,
    pub(crate) buffer: Vec<FragmentMetadataMutation>,
    pub(crate) next_action_sequence: u64,
    pub(crate) total_fragments: u64,
    pub(crate) total_rows: u64,
    /// The next fragment id an append allocates; see `next_fragment_id`.
    pub(crate) next_fragment_id: u64,
    pub(crate) visible_rows: u64,
    /// Exact descriptor this writer opened or prepared; derived, never
    /// persisted.
    pub(crate) snapshot: Option<pb::FragmentMetadataTree>,
}

pub struct TreeView {
    pub store: StoreView,
    pub config: FragmentMetadataTreeConfig,
    pub version: u64,
    pub children: Seq<ChildView>,
    pub buffer: Seq<MutationView>,
    pub next_action_sequence: u64,
    pub total_fragments: u64,
    pub total_rows: u64,
    pub next_fragment_id: u64,
    pub visible_rows: u64,
    pub snapshot: Option<pb::TreeDescriptor>,
}

impl View for FragmentTree {
    type V = TreeView;

    closed spec fn view(&self) -> TreeView {
        TreeView {
            store: self.store@,
            config: self.config,
            version: self.version,
            children: views::all(self.children@),
            buffer: views::all(self.buffer@),
            next_action_sequence: self.next_action_sequence,
            total_fragments: self.total_fragments,
            total_rows: self.total_rows,
            next_fragment_id: self.next_fragment_id,
            visible_rows: self.visible_rows,
            snapshot: match self.snapshot {
                Some(snapshot) => Some(snapshot@),
                None => None,
            },
        }
    }
}

/// Whether a list is one a root may hold.
pub open spec fn rooted(children: Seq<ChildView>) -> bool {
    children.len() > 0 ==> steps::shaped(children, children[0].height as int, 0)
        && children[0].min_key == 0
}

impl TreeView {
    /// Whether a session is in a state its operations keep.
    pub open spec fn wf(self) -> bool {
        &&& self.config.valid()
        &&& rooted(self.children)
        &&& node::max_height(self.children) < u32::MAX
        &&& self.store.hard_capacity_bytes == self.config.hard_capacity_bytes
        &&& self.store.next_action_sequence == self.next_action_sequence
    }
}

/// The tallest child.
pub(crate) fn tallest(children: &Vec<FragmentMetadataChild>) -> (r: u32)
    ensures
        r == node::max_height(views::all(children@)),
{
    let ghost all = views::all(children@);
    let mut r: u32 = 0;
    let mut i: usize = 0;
    while i < children.len()
        invariant
            i <= children@.len(),
            all == views::all(children@),
            r == node::max_height(all.take(i as int)),
        decreases children@.len() - i,
    {
        proof {
            assert(all.take(i + 1).drop_last() =~= all.take(i as int));
            assert(all.take(i + 1).last() == children@[i as int]@);
        }
        if children[i].height > r {
            r = children[i].height;
        }
        i = i + 1;
    }
    assert(all.take(all.len() as int) =~= all);
    r
}

impl FragmentTree {
    /// Root-to-leaf edge count: one for a root over leaves, two with an
    /// intervening routing level. An empty tree also reports one.
    pub fn height(&self) -> (r: u32)
        requires
            self@.wf(),
        ensures
            r == node::max_height(self@.children) + 1,
    {
        tallest(&self.children) + 1
    }

    /// Latest atomically published version held by this session.
    pub fn version(&self) -> (r: u64)
        ensures
            r == self@.version,
    {
        self.version
    }

    /// Number of logical fragments, including buffered adds and removes.
    ///
    /// This reads root metadata only and performs no object-store IO.
    pub fn count_fragments(&self) -> (r: u64)
        ensures
            r == self@.total_fragments,
    {
        self.total_fragments
    }

    /// Sum of physical rows across logical fragments.
    ///
    /// Admitted fragments have known counts. This reads root metadata only
    /// and performs no object-store IO.
    pub fn count_rows(&self) -> (r: u64)
        ensures
            r == self@.total_rows,
    {
        self.total_rows
    }

    /// Visible rows (physical minus deleted) across the table. Exact by the
    /// writer invariant on known counts. Root metadata only, no IO.
    pub fn count_visible_rows(&self) -> (r: u64)
        ensures
            r == self@.visible_rows,
    {
        self.visible_rows
    }

    /// The next fragment id an append may allocate: zero on an empty table,
    /// otherwise one above the largest id ever assigned, buffered adds
    /// included.
    pub fn next_fragment_id(&self) -> (r: u64)
        ensures
            r == self@.next_fragment_id,
    {
        self.next_fragment_id
    }

    /// Number of actions currently buffered directly in the in-memory root.
    pub fn root_buffer_len(&self) -> (r: usize)
        ensures
            r == self@.buffer.len(),
    {
        self.buffer.len()
    }

    /// Whether `bytes` more of buffered actions keep the root under its
    /// semantic budget, so a commit of that size can stay buffered instead
    /// of draining in the same commit.
    pub fn can_buffer(&self, bytes: u64) -> (r: bool)
        ensures
            r == (wire::capped(node::payload_len(self@.buffer)) + bytes
                < self@.config.semantic_buffer_bytes),
    {
        let held: u64 = node::buffer_bytes(&self.buffer);
        match held.checked_add(bytes) {
            Some(total) => total < self.config.semantic_buffer_bytes,
            None => false,
        }
    }

    /// Number of direct child references currently held by the in-memory root.
    pub fn root_child_count(&self) -> (r: usize)
        ensures
            r == self@.children.len(),
    {
        self.children.len()
    }

    /// Encoded leaf sizes when the root points directly to leaves. Gives an
    /// empty list when there is an intervening routing level.
    pub fn leaf_object_sizes(&self) -> (r: Vec<u64>)
        ensures
            r@ == leaf_sizes(self@.children),
    {
        let ghost all = self@.children;
        let mut sizes: Vec<u64> = Vec::new();
        let mut i: usize = 0;
        while i < self.children.len()
            invariant
                i <= self.children@.len(),
                all == views::all(self.children@),
                sizes@ == leaf_sizes(all.take(i as int)),
            decreases self.children@.len() - i,
        {
            proof {
                assert(all.take(i + 1).drop_last() =~= all.take(i as int));
                assert(all.take(i + 1).last() == self.children@[i as int]@);
            }
            if self.children[i].height == 0 {
                sizes.push(self.children[i].object_size);
            }
            i = i + 1;
        }
        assert(all.take(all.len() as int) =~= all);
        sizes
    }

    /// The objects this session knows.
    pub fn objects(&self) -> (r: &NodeStore)
        ensures
            r@ == self@.store,
    {
        &self.store
    }

    /// Hand over an internal node. One that is already known is ignored.
    pub fn load_node(&mut self, stored: StoredNode)
        ensures
            final(self)@ == (TreeView {
                store: if old(self)@.store.knows_node(stored@.loc) {
                    old(self)@.store
                } else {
                    StoreView { nodes: old(self)@.store.nodes.push(stored@), ..old(self)@.store }
                },
                ..old(self)@
            }),
            old(self)@.wf() ==> final(self)@.wf(),
    {
        self.store.load_node(stored);
    }

    /// Hand over a leaf. One that is already known is ignored.
    pub fn load_leaf(&mut self, stored: StoredLeaf)
        ensures
            final(self)@ == (TreeView {
                store: if old(self)@.store.knows_leaf(stored@.loc) {
                    old(self)@.store
                } else {
                    StoreView {
                        leaves: old(self)@.store.leaves.push(stored@),
                        ..old(self)@.store
                    }
                },
                ..old(self)@
            }),
            old(self)@.wf() ==> final(self)@.wf(),
    {
        self.store.load_leaf(stored);
    }

    /// Hand over the headers of a leaf. Headers that are already known are
    /// ignored.
    pub fn load_headers(&mut self, stored: StoredHeaders)
        ensures
            final(self)@ == (TreeView {
                store: if old(self)@.store.knows_headers(stored@.loc) {
                    old(self)@.store
                } else {
                    StoreView {
                        headers: old(self)@.store.headers.push(stored@),
                        ..old(self)@.store
                    }
                },
                ..old(self)@
            }),
            old(self)@.wf() ==> final(self)@.wf(),
    {
        self.store.load_headers(stored);
    }

    /// Hand over one row of a leaf. A row that is already known is ignored.
    pub fn load_row(&mut self, stored: StoredRow)
        ensures
            final(self)@ == (TreeView {
                store: if old(self)@.store.knows_row(stored@.loc, stored@.row) {
                    old(self)@.store
                } else {
                    StoreView { rows: old(self)@.store.rows.push(stored@), ..old(self)@.store }
                },
                ..old(self)@
            }),
            old(self)@.wf() ==> final(self)@.wf(),
    {
        self.store.load_row(stored);
    }

    /// Hand over the encoded size of a leaf.
    pub fn load_size(&mut self, size: LeafSize)
        ensures
            final(self)@ == (TreeView {
                store: StoreView {
                    sizes: old(self)@.store.sizes.push(size@),
                    ..old(self)@.store
                },
                ..old(self)@
            }),
            old(self)@.wf() ==> final(self)@.wf(),
    {
        self.store.load_size(size);
    }
}

/// The sizes of the leaves among some children.
pub open spec fn leaf_sizes(children: Seq<ChildView>) -> Seq<u64>
    decreases children.len(),
{
    if children.len() == 0 {
        Seq::empty()
    } else {
        let rest = leaf_sizes(children.drop_last());
        if children.last().height == 0 {
            rest.push(children.last().object_size)
        } else {
            rest
        }
    }
}

// Rewriting the root.

/// A root on its way through a rewrite.
pub struct Level {
    pub children: Vec<FragmentMetadataChild>,
    pub buffer: Vec<FragmentMetadataMutation>,
}

/// Whether a root became another one that holds the same.
pub open spec fn rewritten(
    before: StoreView,
    after: StoreView,
    children: Seq<ChildView>,
    buffer: Seq<MutationView>,
    children2: Seq<ChildView>,
    buffer2: Seq<MutationView>,
) -> bool {
    &&& merge::grown(before, after)
    &&& world::faithful(
        before,
        after,
        children,
        buffer,
        children2,
        buffer2,
        drain::ceiling(before) as int,
    )
    &&& rooted(children2)
}

proof fn lemma_rewritten_join(
    s0: StoreView,
    s1: StoreView,
    s2: StoreView,
    a: Seq<ChildView>,
    x: Seq<MutationView>,
    b: Seq<ChildView>,
    y: Seq<MutationView>,
    c: Seq<ChildView>,
    z: Seq<MutationView>,
)
    requires
        rewritten(s0, s1, a, x, b, y),
        rewritten(s1, s2, b, y, c, z),
    ensures
        rewritten(s0, s2, a, x, c, z),
{
    let cap = drain::ceiling(s0) as int;
    store::lemma_extends_transitive(s0, s1, s2);
    world::lemma_faithful_transitive(s0, s1, s2, a, x, b, y, c, z, cap, cap);
}

proof fn lemma_rewritten_step(
    before: StoreView,
    after: StoreView,
    a: Seq<ChildView>,
    x: Seq<MutationView>,
    b: Seq<ChildView>,
    y: Seq<MutationView>,
)
    requires
        merge::grown(before, after),
        world::faithful(before, after, a, x, b, y, -1),
        rooted(b),
    ensures
        rewritten(before, after, a, x, b, y),
{
    drain::lemma_faithful_weaken(before, after, a, x, b, y, drain::ceiling(before) as int);
}

proof fn lemma_rewritten_self(store: StoreView, a: Seq<ChildView>, x: Seq<MutationView>)
    requires
        rooted(a),
    ensures
        rewritten(store, store, a, x, a, x),
{
    store::lemma_extends_self(store);
    world::lemma_faithful_self(store, a, x);
    lemma_rewritten_step(store, store, a, x, a, x);
}

/// What a rewrite of a root gives.
pub open spec fn told_level(r: Result<(Level, WriteAcc), Stop>, after: StoreView) -> Result<
    (StoreView, Seq<ChildView>, Seq<MutationView>, WriteAcc),
    Halt,
> {
    match r {
        Ok((level, acc)) => Ok(
            (after, views::all(level.children@), views::all(level.buffer@), acc),
        ),
        Err(stop) => Err(stop.halt()),
    }
}

/// The height of a root's children.
pub open spec fn child_height(children: Seq<ChildView>) -> nat {
    if children.len() > 0 {
        children[0].height as nat
    } else {
        0
    }
}

/// What turning a buffer into leaves gives.
#[verifier::opaque]
pub open spec fn leaves_made(
    store: StoreView,
    names: Names,
    buffer: Seq<MutationView>,
    config: FragmentMetadataTreeConfig,
) -> Result<(StoreView, Seq<ChildView>, Seq<MutationView>, WriteAcc), Halt> {
    let (after, error) = replay::replayed(Map::empty(), buffer, true);
    match error {
        Some(error) => Err(Halt::Fail(error)),
        None => match store::put_leaves(
            store,
            names,
            drain::listing(after),
            drain::ceiling(store),
            config,
        ) {
            Err(halt) => Err(halt),
            Ok((grown, refs)) => Ok(
                (
                    grown,
                    node::fenced(refs, 0),
                    levels::no_mutations(),
                    WriteAcc {
                        io_bytes: wire::capped(store::ref_bytes(refs)),
                        ..WriteAcc::nothing()
                    },
                ),
            ),
        },
    }
}

/// What merging the small children of a root gives.
#[verifier::opaque]
pub open spec fn root_merged(
    store: StoreView,
    names: Names,
    children: Seq<ChildView>,
    buffer: Seq<MutationView>,
    config: FragmentMetadataTreeConfig,
) -> Result<(StoreView, Seq<ChildView>, Seq<MutationView>, WriteAcc), Halt> {
    match merge::merged(store, names, children, config, child_height(children)) {
        Err(halt) => Err(halt),
        Ok((after, merged, acc)) => Ok((after, merged, buffer, acc)),
    }
}

/// What lifting routing gives until a root fits its budget: its pieces become
/// the children, where they are fewer and none has a single child.
#[verifier::opaque]
pub open spec fn root_lifted(
    store: StoreView,
    names: Names,
    children: Seq<ChildView>,
    buffer: Seq<MutationView>,
    config: FragmentMetadataTreeConfig,
    acc: WriteAcc,
) -> Result<(StoreView, Seq<ChildView>, Seq<MutationView>, WriteAcc), Halt>
    decreases children.len(),
{
    let budget = (config.max_node_bytes / 2) as u64;
    let most = config.max_children_per_node;
    if !node::overflows(children, buffer, config) {
        Ok((store, children, buffer, acc))
    } else if children.len() == 0 || split::cut(children, buffer, budget, most).len()
        >= children.len() || !merge::pairs_up(children, buffer, budget, most) {
        Err(
            Halt::Fail(
                Error::InvalidInput {
                    reason: Reason::RootCannotShrink {
                        max_node_bytes: config.max_node_bytes,
                        width: children.len() as u64,
                    },
                },
            ),
        )
    } else {
        match merge::put_split(store, names, children, buffer, budget, most) {
            Err(halt) => Err(halt),
            Ok((after, refs, bytes)) => if refs.len() < children.len() {
                root_lifted(
                    after,
                    names,
                    refs,
                    levels::no_mutations(),
                    config,
                    WriteAcc {
                        io_bytes: merge::summed(acc.io_bytes, bytes),
                        splits: merge::summed(acc.splits, 1),
                        ..acc
                    },
                )
            } else {
                Err(Halt::Need)
            },
        }
    }
}

/// Turn the buffer of a childless root into its first leaves.
fn first_leaves(
    store: &mut NodeStore,
    buffer: Vec<FragmentMetadataMutation>,
    config: &FragmentMetadataTreeConfig,
) -> (r: Result<(Level, WriteAcc), Stop>)
    requires
        config.valid(),
    ensures
        match r {
            Ok((level, acc)) => {
                &&& rewritten(
                    old(store)@,
                    final(store)@,
                    merge::no_children(),
                    views::all(buffer@),
                    views::all(level.children@),
                    views::all(level.buffer@),
                )
                &&& level.buffer@.len() == 0
                &&& level.children@.len() > 0 ==> level.children@[0].height == 0
                &&& store::booked(acc.io_bytes, old(store)@, final(store)@)
            },
            Err(stop) => store::honest(stop, old(store)@) && !(stop is Collapsed),
        },
        merge::grown(old(store)@, final(store)@),
        forall|names: Names| #[trigger]
            names.fit(final(store)@) ==> leaves_made(
                old(store)@,
                names,
                views::all(buffer@),
                *config,
            ) == told_level(r, final(store)@),
{
    let ghost before = store@;
    let ghost pending = views::all(buffer@);
    let mut acc = WriteAcc::new();
    let mut map: BTreeMap<u64, Fragment> = BTreeMap::new();
    proof {
        reveal(leaves_made);
        store::lemma_extends_self(before);
        assert(replay::records(map@) =~= Map::empty());
    }
    match replay::apply_verified(&mut map, buffer) {
        Err(error) => {
            return Err(Stop::Fail(error));
        },
        Ok(()) => {},
    }
    proof {
        drain::lemma_replayed_ids(Map::empty(), pending, true);
        let after = replay::replayed(Map::empty(), pending, true).0;
        assert forall|key: u64| #[trigger] map@.contains_key(key) implies map@[key]@.id == key by {
            assert(after.contains_key(key));
            assert(after[key] == map@[key]@);
        }
    }
    let records = drain::list_records(&map);
    let ghost listed = views::all(records@);
    proof {
        drain::lemma_listing(listed, replay::replayed(Map::empty(), pending, true).0);
    }
    let watermark: u64 = store.next_action_sequence.saturating_sub(1);
    let count: usize = records.len();
    let ghost parts = store::halves(before, listed, 0, listed.len() as int, config.max_leaf_bytes);
    let written = match store.write_leaves(&records, watermark, config) {
        Err(stop) => {
            return Err(stop);
        },
        Ok(written) => written,
    };
    let ghost refs = store::refs_of(written@);
    let (mut out, bytes) = merge::take_refs(written);
    acc.io_bytes = bytes;
    // The split that follows stores these leaves inside interior nodes, and a
    // reader checks each node's first stored fence against the entry that
    // points at it. The first leaf must already own the root's range, not
    // start at the lowest live id.
    node::fence(&mut out, 0);
    let level = Level { children: out, buffer: Vec::new() };
    proof {
        store::lemma_halves(before, listed, 0, listed.len() as int, config.max_leaf_bytes);
        store::lemma_leaves_written(before, store@, refs, listed, parts, watermark);
        steps::lemma_leaf_refs(before, store@, refs, listed, parts, watermark);
        steps::step_root_leaves(before, store@, pending, listed, parts, refs, watermark);
        let fenced = views::all(level.children@);
        assert(views::all(level.buffer@) =~= levels::no_mutations());
        assert forall|i: int| 0 <= i < fenced.len() implies (#[trigger] fenced[i]).height == 0
            && fenced[i].min_key >= 0 && fenced[i].num_keys > 0 by {
            assert(refs[i].height == 0);
        }
    }
    Ok((level, acc))
}

/// Merge the small children of a root.
fn merge_root(
    store: &mut NodeStore,
    level: Level,
    config: &FragmentMetadataTreeConfig,
) -> (r: Result<(Level, WriteAcc), Stop>)
    requires
        config.valid(),
        rooted(views::all(level.children@)),
    ensures
        match r {
            Ok((out, acc)) => {
                &&& rewritten(
                    old(store)@,
                    final(store)@,
                    views::all(level.children@),
                    views::all(level.buffer@),
                    views::all(out.children@),
                    views::all(out.buffer@),
                )
                &&& views::all(out.buffer@) == views::all(level.buffer@)
                &&& (out.children@.len() == 0) == (level.children@.len() == 0)
                &&& merge::populous(views::all(out.children@))
                &&& store::booked(acc.io_bytes, old(store)@, final(store)@)
            },
            Err(stop) => store::honest(stop, old(store)@) && !(stop is Collapsed),
        },
        merge::grown(old(store)@, final(store)@),
        forall|names: Names| #[trigger]
            names.fit(final(store)@) ==> root_merged(
                old(store)@,
                names,
                views::all(level.children@),
                views::all(level.buffer@),
                *config,
            ) == told_level(r, final(store)@),
{
    let ghost before = store@;
    let Level { children, buffer } = level;
    let ghost given = views::all(children@);
    let ghost pending = views::all(buffer@);
    let ghost height = if given.len() > 0 {
        given[0].height as int
    } else {
        0
    };
    proof {
        reveal(root_merged);
    }
    let (out, acc) = match merge::merge_small_children(
        store,
        children,
        config,
        Ghost(height),
        Ghost(0),
    ) {
        Err(stop) => {
            return Err(stop);
        },
        Ok(done) => done,
    };
    proof {
        let merged = views::all(out@);
        if given.len() > 0 {
            let x = merge::no_children();
            steps::step_splice(before, store@, x, given, x, pending, merged);
            assert(x + given + x =~= given);
            assert(x + merged + x =~= merged);
        } else {
            assert(merged =~= given);
            drain::lemma_childless(before, store@, given, pending);
        }
        lemma_rewritten_step(before, store@, given, pending, merged, pending);
    }
    Ok((Level { children: out, buffer }, acc))
}

/// Pieces with at least two children each.
proof fn lemma_pieces_pair(
    children: Seq<ChildView>,
    buffer: Seq<MutationView>,
    budget: u64,
    most: u32,
    pieces: Seq<(Vec<FragmentMetadataChild>, Vec<FragmentMetadataMutation>)>,
)
    requires
        ({
            let c = split::cut(children, buffer, budget, most);
            &&& pieces.len() == c.len()
            &&& forall|i: int|
                0 <= i < pieces.len() ==> views::all((#[trigger] pieces[i]).0@)
                    == children.subrange(split::taken(c, i), split::taken(c, i + 1))
        }),
    ensures
        merge::pairs_up(children, buffer, budget, most) == (forall|i: int|
            0 <= i < pieces.len() ==> (#[trigger] pieces[i]).0@.len() >= 2),
{
    let cuts = merge::cut_children(children, buffer, budget, most);
    assert forall|i: int| 0 <= i < cuts.len() implies (#[trigger] cuts[i]).len()
        == pieces[i].0@.len() by {
        assert(views::all(pieces[i].0@) == cuts[i]);
    }
    if merge::pairs_up(children, buffer, budget, most) {
        assert forall|i: int| 0 <= i < pieces.len() implies (#[trigger] pieces[i]).0@.len()
            >= 2 by {
            assert(cuts[i].len() >= 2);
        }
    } else {
        let i = choose|i: int| 0 <= i < cuts.len() && (#[trigger] cuts[i]).len() < 2;
        assert(pieces[i].0@.len() < 2);
    }
}

/// Lift routing until a root fits its budget.
pub(crate) fn lift_root(
    store: &mut NodeStore,
    level: Level,
    config: &FragmentMetadataTreeConfig,
) -> (r: Result<(Level, WriteAcc), Stop>)
    requires
        config.valid(),
        rooted(views::all(level.children@)),
    ensures
        match r {
            Ok((out, acc)) => {
                &&& rewritten(
                    old(store)@,
                    final(store)@,
                    views::all(level.children@),
                    views::all(level.buffer@),
                    views::all(out.children@),
                    views::all(out.buffer@),
                )
                &&& !node::overflows(views::all(out.children@), views::all(out.buffer@), *config)
                &&& level.buffer@.len() == 0 ==> out.buffer@.len() == 0
                &&& final(store)@.leaves == old(store)@.leaves
                &&& store::booked(acc.io_bytes, old(store)@, final(store)@)
            },
            Err(stop) => store::honest(stop, old(store)@) && stop is Fail,
        },
        merge::grown(old(store)@, final(store)@),
        forall|names: Names| #[trigger]
            names.fit(final(store)@) ==> root_lifted(
                old(store)@,
                names,
                views::all(level.children@),
                views::all(level.buffer@),
                *config,
                WriteAcc::nothing(),
            ) == told_level(r, final(store)@),
{
    let ghost before = store@;
    let ghost given = views::all(level.children@);
    let ghost given_buffer = views::all(level.buffer@);
    let Level { children, buffer } = level;
    let mut children = children;
    let mut buffer = buffer;
    let mut acc = WriteAcc::new();
    proof {
        lemma_rewritten_self(before, given, given_buffer);
    }
    // A broad transaction can cross several heights at once. Keep lifting
    // routing until the new root itself fits, not just its first children.
    while node::internal_overflows(&children, &buffer, config)
        invariant
            forall|names: Names| #[trigger]
                names.fit(store@) ==> root_lifted(
                    before,
                    names,
                    given,
                    given_buffer,
                    *config,
                    WriteAcc::nothing(),
                ) == root_lifted(
                    store@,
                    names,
                    views::all(children@),
                    views::all(buffer@),
                    *config,
                    acc,
                ),
            config.valid(),
            before == old(store)@,
            given == views::all(level.children@),
            given_buffer == views::all(level.buffer@),
            rewritten(
                before,
                store@,
                given,
                given_buffer,
                views::all(children@),
                views::all(buffer@),
            ),
            store::booked(acc.io_bytes, before, store@),
            merge::grown(before, store@),
            store@.leaves == before.leaves,
            level.buffer@.len() == 0 ==> buffer@.len() == 0,
        decreases children@.len(),
    {
        let previous_width: usize = children.len();
        let ghost kids = views::all(children@);
        let ghost pending = views::all(buffer@);
        let ghost middle = store@;
        let pieces = split::split_internal(
            children,
            buffer,
            config.split_piece_bytes(),
            config.max_children_per_node,
        );
        let ghost acc0 = acc;
        let ghost budget = (config.max_node_bytes / 2) as u64;
        let ghost most = config.max_children_per_node;
        proof {
            if kids.len() > 0 {
                lemma_pieces_pair(kids, pending, budget, most, pieces@);
            }
        }
        if pieces.len() >= previous_width || !merge::no_single(&pieces) {
            proof {
                let why = Error::InvalidInput {
                    reason: Reason::RootCannotShrink {
                        max_node_bytes: config.max_node_bytes,
                        width: previous_width as u64,
                    },
                };
                assert forall|names: Names| #[trigger] names.fit(store@) implies root_lifted(
                    before,
                    names,
                    given,
                    given_buffer,
                    *config,
                    WriteAcc::nothing(),
                )
                    == Err::<(StoreView, Seq<ChildView>, Seq<MutationView>, WriteAcc), Halt>(
                        Halt::Fail(why),
                    ) by {
                    reveal(root_lifted);
                }
            }
            return Err(
                Stop::Fail(
                    Error::InvalidInput {
                        reason: Reason::RootCannotShrink {
                            max_node_bytes: config.max_node_bytes,
                            width: previous_width as u64,
                        },
                    },
                ),
            );
        }
        let (refs, bytes) = match merge::write_split(
            store,
            pieces,
            Ghost(kids),
            Ghost(pending),
            Ghost((config.max_node_bytes / 2) as u64),
            Ghost(config.max_children_per_node),
            Ghost(kids[0].height as int),
            Ghost(0),
        ) {
            Err(stop) => {
                proof {
                    store::lemma_extends_transitive(before, middle, store@);
                }
                proof {
                    assert forall|names: Names| #[trigger] names.fit(store@) implies root_lifted(
                        before,
                        names,
                        given,
                        given_buffer,
                        *config,
                        WriteAcc::nothing(),
                    )
                        == Err::<(StoreView, Seq<ChildView>, Seq<MutationView>, WriteAcc), Halt>(stop.halt()) by {
                        reveal(root_lifted);
                    }
                }
                return Err(stop);
            },
            Ok(done) => done,
        };
        children = refs;
        buffer = Vec::new();
        proof {
            let lifted = views::all(children@);
            let none = levels::no_mutations();
            assert(views::all(buffer@) =~= none);
            lemma_rewritten_step(middle, store@, kids, pending, lifted, none);
            lemma_rewritten_join(
                before,
                middle,
                store@,
                given,
                given_buffer,
                kids,
                pending,
                lifted,
                none,
            );
            store::lemma_booked_join(acc.io_bytes, bytes, before, middle, store@);
        }
        acc.io_bytes = acc.io_bytes.saturating_add(bytes);
        acc.splits = acc.splits.saturating_add(1);
        proof {
            assert forall|names: Names| #[trigger] names.fit(store@) implies root_lifted(
                before,
                names,
                given,
                given_buffer,
                *config,
                WriteAcc::nothing(),
            ) == root_lifted(
                store@,
                names,
                views::all(children@),
                views::all(buffer@),
                *config,
                acc,
            ) by {
                reveal_with_fuel(root_lifted, 2);
            }
        }
    }
    proof {
        assert forall|names: Names| #[trigger] names.fit(store@) implies root_lifted(
            before,
            names,
            given,
            given_buffer,
            *config,
            WriteAcc::nothing(),
        ) == Ok::<(StoreView, Seq<ChildView>, Seq<MutationView>, WriteAcc), Halt>(
            (store@, views::all(children@), views::all(buffer@), acc),
        ) by {
            reveal(root_lifted);
        }
    }
    Ok((Level { children, buffer }, acc))
}

/// The sum of some children's fanouts.
pub open spec fn fanout(children: Seq<ChildView>) -> nat
    decreases children.len(),
{
    if children.len() == 0 {
        0
    } else {
        fanout(children.drop_last()) + children.last().num_children as nat
    }
}

/// Whether the children of a root may hold what joins into the root: a single
/// child always; several when neither fanout nor the coalesce ceiling is
/// exceeded.
pub open spec fn may_join(
    children: Seq<ChildView>,
    buffer: Seq<MutationView>,
    config: FragmentMetadataTreeConfig,
) -> bool {
    children.len() <= 1 || (fanout(children) <= config.max_children_per_node && wire::capped(
        node::buffer_len(buffer),
    ) + store::ref_bytes(children) <= config.max_node_bytes * 3 / 5)
}

fn may_join_root(
    children: &Vec<FragmentMetadataChild>,
    buffer: &Vec<FragmentMetadataMutation>,
    config: &FragmentMetadataTreeConfig,
) -> (r: bool)
    requires
        config.valid(),
    ensures
        r == may_join(views::all(children@), views::all(buffer@), *config),
{
    let ghost all = views::all(children@);
    if children.len() <= 1 {
        return true;
    }
    let none: Vec<FragmentMetadataChild> = Vec::new();
    let held: u64 = node::internal_logical_bytes(&none, buffer);
    proof {
        assert(views::all(none@) =~= merge::no_children());
        assert(node::children_len(views::all(none@)) == 0);
    }
    let mut fan: u128 = 0;
    let mut bytes: u128 = held as u128;
    let mut i: usize = 0;
    while i < children.len()
        invariant
            i <= children@.len(),
            all == views::all(children@),
            fan == fanout(all.take(i as int)),
            bytes == held + store::ref_bytes(all.take(i as int)),
            fan <= u32::MAX * i,
            bytes <= u64::MAX * (i + 1),
            held <= u64::MAX,
        decreases children@.len() - i,
    {
        proof {
            assert(all.take(i + 1).drop_last() =~= all.take(i as int));
            assert(all.take(i + 1).last() == children@[i as int]@);
            assert(fan + children@[i as int].num_children <= u32::MAX * (i + 1))
                by (nonlinear_arith)
                requires
                    fan <= u32::MAX * i,
                    children@[i as int].num_children <= u32::MAX,
            ;
            assert(bytes + children@[i as int].object_size <= u64::MAX * (i + 2))
                by (nonlinear_arith)
                requires
                    bytes <= u64::MAX * (i + 1),
                    children@[i as int].object_size <= u64::MAX,
            ;
            assert(u64::MAX * (i + 2) <= u128::MAX && u32::MAX * (i + 1) <= u128::MAX)
                by (nonlinear_arith)
                requires
                    i < usize::MAX,
                    usize::MAX <= u64::MAX,
            ;
        }
        fan = fan + children[i].num_children as u128;
        bytes = bytes + children[i].object_size as u128;
        i = i + 1;
    }
    assert(all.take(all.len() as int) =~= all);
    fan <= config.max_children_per_node as u128 && bytes <= config.coalesce_ceiling() as u128
}

/// What removing routing levels gives that a root's contents fit without.
#[verifier::opaque]
pub open spec fn root_shrunk(
    store: StoreView,
    children: Seq<ChildView>,
    buffer: Seq<MutationView>,
    config: FragmentMetadataTreeConfig,
    height: nat,
) -> Result<(Seq<ChildView>, Seq<MutationView>), Halt>
    decreases height,
{
    if children.len() == 0 || height == 0 || !may_join(children, buffer, config) {
        Ok((children, buffer))
    } else {
        match merge::opened_all(store, children) {
            Err(halt) => Err(halt),
            Ok((more, below)) => if node::overflows(more, buffer + below, config) {
                Ok((children, buffer))
            } else {
                root_shrunk(
                    store,
                    node::fenced(more, 0),
                    buffer + below,
                    config,
                    (height - 1) as nat,
                )
            },
        }
    }
}

/// Remove a routing level when its contents fit in the root. Multiple
/// children use the coalesce ceiling so growth and shrinkage have hysteresis.
fn maybe_shrink_root(
    store: &mut NodeStore,
    level: Level,
    config: &FragmentMetadataTreeConfig,
) -> (r: Result<Level, Stop>)
    requires
        config.valid(),
        rooted(views::all(level.children@)),
    ensures
        final(store)@ == old(store)@,
        match r {
            Ok(out) => {
                let kids = views::all(out.children@);
                &&& rewritten(
                    old(store)@,
                    old(store)@,
                    views::all(level.children@),
                    views::all(level.buffer@),
                    kids,
                    views::all(out.buffer@),
                )
                &&& kids.len() == 0 || kids[0].height == 0 || !may_join(
                    kids,
                    views::all(out.buffer@),
                    *config,
                ) || (steps::gathered(old(store)@, kids) matches Some((more, pending))
                    && node::overflows(more, views::all(out.buffer@) + pending, *config))
            },
            Err(stop) => store::honest(stop, old(store)@) && !(stop is Collapsed),
        },
        root_shrunk(
            old(store)@,
            views::all(level.children@),
            views::all(level.buffer@),
            *config,
            child_height(views::all(level.children@)),
        ) == match r {
            Ok(out) => Ok((views::all(out.children@), views::all(out.buffer@))),
            Err(stop) => Err(stop.halt()),
        },
{
    let ghost before = store@;
    let ghost given = views::all(level.children@);
    let ghost given_buffer = views::all(level.buffer@);
    let Level { children, buffer } = level;
    let mut children = children;
    let mut buffer = buffer;
    proof {
        lemma_rewritten_self(before, given, given_buffer);
    }
    loop
        invariant_except_break
            root_shrunk(before, given, given_buffer, *config, child_height(given)) == root_shrunk(
                before,
                views::all(children@),
                views::all(buffer@),
                *config,
                child_height(views::all(children@)),
            ),
            config.valid(),
            store@ == before,
            before == old(store)@,
            given == views::all(level.children@),
            given_buffer == views::all(level.buffer@),
            rewritten(
                before,
                before,
                given,
                given_buffer,
                views::all(children@),
                views::all(buffer@),
            ),
        ensures
            root_shrunk(before, given, given_buffer, *config, child_height(given)) == Ok::<
                (Seq<ChildView>, Seq<MutationView>),
                Halt,
            >(
                (views::all(children@), views::all(buffer@)),
            ),
            store@ == before,
            rewritten(
                before,
                before,
                given,
                given_buffer,
                views::all(children@),
                views::all(buffer@),
            ),
            children@.len() == 0 || children@[0]@.height == 0 || !may_join(
                views::all(children@),
                views::all(buffer@),
                *config,
            ) || (steps::gathered(before, views::all(children@)) matches Some((more, pending))
                && node::overflows(more, views::all(buffer@) + pending, *config)),
        decreases
                (if children@.len() > 0 {
                    children@[0].height as int + 1
                } else {
                    0
                }),
    {
        proof {
            reveal_with_fuel(root_shrunk, 2);
            if children@.len() > 0 {
                assert(views::all(children@)[0] == children@[0]@);
            }
        }
        if children.is_empty() || children[0].height == 0 {
            break;
        }
        let ghost kids = views::all(children@);
        let ghost pending = views::all(buffer@);
        assert(kids[0] == children@[0]@);
        if !may_join_root(&children, &buffer, config) {
            break;
        }
        let node = match merge::gather(store, &children) {
            Err(stop) => {
                return Err(stop);
            },
            Ok(node) => node,
        };
        let InternalNode { children: mut more, buffer: mut below } = node;
        let ghost raw = views::all(more@);
        let ghost held = views::all(below@);
        let mut joined = clone_mutations(&buffer);
        joined.append(&mut below);
        let ghost all = views::all(joined@);
        assert(all =~= pending + held);
        if node::internal_overflows(&more, &joined, config) {
            break;
        }
        proof {
            steps::lemma_gathered_shape(before, kids, kids[0].height as int, 0);
            steps::lemma_gathered_first(before, kids);
            steps::step_unfold(before, kids, pending, all);
            assert(raw[0] == more@[0]@);
        }
        node::fence(&mut more, 0);
        proof {
            let fenced = views::all(more@);
            assert(fenced =~= raw);
            store::lemma_extends_self(before);
            lemma_rewritten_step(before, before, kids, pending, fenced, all);
            lemma_rewritten_join(
                before,
                before,
                before,
                given,
                given_buffer,
                kids,
                pending,
                fenced,
                all,
            );
            assert(fenced[0].height == kids[0].height - 1);
            assert(fenced[0] == more@[0]@);
        }
        children = more;
        buffer = joined;
    }
    Ok(Level { children, buffer })
}

/// Whether a root has no routing level left that its contents would fit
/// without.
pub open spec fn shrunk(
    store: StoreView,
    children: Seq<ChildView>,
    buffer: Seq<MutationView>,
    config: FragmentMetadataTreeConfig,
) -> bool {
    children.len() == 0 || children[0].height == 0 || !may_join(children, buffer, config) || (
    steps::gathered(store, children) matches Some((more, pending)) && node::overflows(
        more,
        buffer + pending,
        config,
    ))
}

/// What materializing a whole tree gives.
#[verifier::opaque]
pub open spec fn root_materialized(
    store: StoreView,
    names: Names,
    children: Seq<ChildView>,
    buffer: Seq<MutationView>,
    config: FragmentMetadataTreeConfig,
) -> Result<(StoreView, Seq<ChildView>, Seq<MutationView>, WriteAcc), Halt> {
    if children.len() == 0 {
        match leaves_made(store, names, buffer, config) {
            Err(halt) => Err(halt),
            Ok((after, refs, rest, acc)) => Ok(
                (after, refs, rest, WriteAcc { materialized: buffer.len() as u64, ..acc }),
            ),
        }
    } else {
        match bulk::materialized(store, names, children, buffer, config) {
            Err(halt) => Err(halt),
            Ok((after, refs, acc)) => Ok(
                (after, node::fenced(refs, 0), levels::no_mutations(), acc),
            ),
        }
    }
}

/// What draining the buffer of a root gives: a childless root turns it into
/// leaves.
#[verifier::opaque]
pub open spec fn root_flushed(
    store: StoreView,
    names: Names,
    children: Seq<ChildView>,
    buffer: Seq<MutationView>,
    config: FragmentMetadataTreeConfig,
) -> Result<(StoreView, Seq<ChildView>, Seq<MutationView>, WriteAcc), Halt> {
    match drain::flushed_out(
        store,
        names,
        children,
        buffer,
        0,
        0,
        node::ROOT_EXCLUSIVE_END,
        config,
        child_height(children),
    ) {
        Err(halt) => Err(halt),
        Ok((middle, kids, rest, acc)) => {
            let fenced = node::fenced(kids, 0);
            if fenced.len() == 0 && (node::overflows(fenced, rest, config) || node::pressured(
                rest,
                config,
            )) {
                match leaves_made(middle, names, rest, config) {
                    Err(halt) => Err(halt),
                    Ok((after, refs, left, more)) => Ok((after, refs, left, acc.with(more))),
                }
            } else {
                Ok((middle, fenced, rest, acc))
            }
        },
    }
}

/// What merging the children of a root gives, but for a tree that is
/// materialized.
pub open spec fn merged_unless(
    bulk: bool,
    store: StoreView,
    names: Names,
    children: Seq<ChildView>,
    buffer: Seq<MutationView>,
    config: FragmentMetadataTreeConfig,
    acc: WriteAcc,
) -> Result<(StoreView, Seq<ChildView>, Seq<MutationView>, WriteAcc), Halt> {
    if bulk {
        Ok((store, children, buffer, acc))
    } else {
        match root_merged(store, names, children, buffer, config) {
            Err(halt) => Err(halt),
            Ok((after, kids, rest, more)) => Ok((after, kids, rest, acc.with(more))),
        }
    }
}

/// What rewriting a tree gives: its root is flushed or materialized, its
/// children merged, routing lifted, the children merged again, and routing
/// levels removed that are not needed.
#[verifier::opaque]
pub open spec fn tree_rewritten(
    store: StoreView,
    names: Names,
    children: Seq<ChildView>,
    buffer: Seq<MutationView>,
    config: FragmentMetadataTreeConfig,
    bulk: bool,
) -> Result<(StoreView, Seq<ChildView>, Seq<MutationView>, WriteAcc), Halt> {
    let started = if bulk {
        root_materialized(store, names, children, buffer, config)
    } else {
        root_flushed(store, names, children, buffer, config)
    };
    match started {
        Err(halt) => Err(halt),
        Ok((s1, c1, b1, acc)) => match merged_unless(bulk, s1, names, c1, b1, config, acc) {
            Err(halt) => Err(halt),
            Ok((s2, c2, b2, acc)) => match root_lifted(
                s2,
                names,
                c2,
                b2,
                config,
                WriteAcc::nothing(),
            ) {
                Err(halt) => Err(halt),
                Ok((s3, c3, b3, more)) => match merged_unless(
                    bulk,
                    s3,
                    names,
                    c3,
                    b3,
                    config,
                    acc.with(more),
                ) {
                    Err(halt) => Err(halt),
                    Ok((s4, c4, b4, acc)) => match root_shrunk(
                        s4,
                        c4,
                        b4,
                        config,
                        child_height(c4),
                    ) {
                        Err(halt) => Err(halt),
                        Ok((kids, rest)) => Ok((s4, kids, rest, acc)),
                    },
                },
            },
        },
    }
}

/// Materialize a whole tree: every buffered action reaches a leaf.
fn materialize_root(
    store: &mut NodeStore,
    level: Level,
    config: &FragmentMetadataTreeConfig,
) -> (r: Result<(Level, WriteAcc), Stop>)
    requires
        config.valid(),
        rooted(views::all(level.children@)),
    ensures
        match r {
            Ok((out, acc)) => {
                &&& rewritten(
                    old(store)@,
                    final(store)@,
                    views::all(level.children@),
                    views::all(level.buffer@),
                    views::all(out.children@),
                    views::all(out.buffer@),
                )
                &&& out.buffer@.len() == 0
                &&& out.children@.len() > 0 ==> out.children@[0].height == 0
                &&& store::booked(acc.io_bytes, old(store)@, final(store)@)
            },
            Err(stop) => store::honest(stop, old(store)@) && !(stop is Collapsed),
        },
        merge::grown(old(store)@, final(store)@),
        forall|names: Names| #[trigger]
            names.fit(final(store)@) ==> root_materialized(
                old(store)@,
                names,
                views::all(level.children@),
                views::all(level.buffer@),
                *config,
            ) == told_level(r, final(store)@),
{
    let ghost before = store@;
    let ghost given = views::all(level.children@);
    let ghost given_buffer = views::all(level.buffer@);
    let Level { children, buffer } = level;
    proof {
        reveal(root_materialized);
    }
    if children.len() == 0 {
        assert(given =~= merge::no_children());
        let count: usize = buffer.len();
        return match first_leaves(store, buffer, config) {
            Err(stop) => Err(stop),
            Ok((out, mut acc)) => {
                acc.materialized = count as u64;
                Ok((out, acc))
            },
        };
    }
    let (mut out, acc) = match bulk::materialize(store, config, children, buffer) {
        Err(stop) => {
            return Err(stop);
        },
        Ok(done) => done,
    };
    let ghost leaves = views::all(out@);
    node::fence(&mut out, 0);
    let level = Level { children: out, buffer: Vec::new() };
    proof {
        let none = levels::no_mutations();
        let fenced = views::all(level.children@);
        assert(views::all(level.buffer@) =~= none);
        steps::step_refence(store@, leaves, none, 0);
        let cap = drain::ceiling(before) as int;
        store::lemma_extends_self(store@);
        world::lemma_faithful_transitive(
            before,
            store@,
            store@,
            given,
            given_buffer,
            leaves,
            none,
            fenced,
            none,
            cap,
            -1,
        );
    }
    Ok((level, acc))
}

/// Drain the buffer of a root as far as it goes. A childless root (an empty
/// table grown by appends) cannot flush anywhere: its buffer becomes the
/// first leaves instead of a childless internal node.
fn flush_root(
    store: &mut NodeStore,
    level: Level,
    config: &FragmentMetadataTreeConfig,
) -> (r: Result<(Level, WriteAcc), Stop>)
    requires
        config.valid(),
        rooted(views::all(level.children@)),
    ensures
        match r {
            Ok((out, acc)) => {
                &&& rewritten(
                    old(store)@,
                    final(store)@,
                    views::all(level.children@),
                    views::all(level.buffer@),
                    views::all(out.children@),
                    views::all(out.buffer@),
                )
                &&& out.children@.len() == 0 ==> !node::overflows(
                    views::all(out.children@),
                    views::all(out.buffer@),
                    *config,
                ) && !node::pressured(views::all(out.buffer@), *config) || out.buffer@.len() == 0
                &&& store::booked(acc.io_bytes, old(store)@, final(store)@)
            },
            Err(stop) => store::honest(stop, old(store)@),
        },
        merge::grown(old(store)@, final(store)@),
        forall|names: Names| #[trigger]
            names.fit(final(store)@) ==> root_flushed(
                old(store)@,
                names,
                views::all(level.children@),
                views::all(level.buffer@),
                *config,
            ) == told_level(r, final(store)@),
{
    let ghost before = store@;
    let ghost given = views::all(level.children@);
    let ghost given_buffer = views::all(level.buffer@);
    let ghost height: int = if given.len() > 0 {
        given[0].height as int
    } else {
        0
    };
    let Level { children, buffer } = level;
    proof {
        reveal(root_flushed);
    }
    let (mut children, buffer, mut acc) = match drain::flush_internal(
        store,
        children,
        buffer,
        0,
        0,
        node::ROOT_EXCLUSIVE_END,
        config,
        Ghost(height),
    ) {
        Err(stop) => {
            return Err(stop);
        },
        Ok(done) => done,
    };
    let ghost kids = views::all(children@);
    node::fence(&mut children, 0);
    proof {
        assert(views::all(children@) =~= kids);
        assert(rooted(kids));
    }
    let ghost middle = store@;
    let ghost pending = views::all(buffer@);
    if children.len() == 0 && (node::internal_overflows(&children, &buffer, config)
        || node::buffer_pressured(&buffer, config)) {
        assert(kids =~= merge::no_children());
        let (out, more) = match first_leaves(store, buffer, config) {
            Err(stop) => {
                proof {
                    store::lemma_extends_lacks(before, middle, stop);
                    store::lemma_extends_transitive(before, middle, store@);
                }
                return Err(stop);
            },
            Ok(done) => done,
        };
        proof {
            lemma_rewritten_join(
                before,
                middle,
                store@,
                given,
                given_buffer,
                kids,
                pending,
                views::all(out.children@),
                views::all(out.buffer@),
            );
            store::lemma_booked_join(acc.io_bytes, more.io_bytes, before, middle, store@);
        }
        acc.add(more);
        return Ok((out, acc));
    }
    Ok((Level { children, buffer }, acc))
}

/// Flush a root's buffer as far as it goes, then split, coalesce, and shrink
/// the root. Every touched node is copy-on-write, so nothing here is visible
/// until the root is published. With `bulk` every buffered action reaches a
/// leaf and routing is built anew over the leaves.
#[verifier::rlimit(60)]
pub(crate) fn rewrite_tree(
    store: &mut NodeStore,
    level: Level,
    config: &FragmentMetadataTreeConfig,
    bulk: bool,
) -> (r: Result<(Level, WriteAcc), Stop>)
    requires
        config.valid(),
        rooted(views::all(level.children@)),
    ensures
        match r {
            Ok((out, acc)) => {
                &&& rewritten(
                    old(store)@,
                    final(store)@,
                    views::all(level.children@),
                    views::all(level.buffer@),
                    views::all(out.children@),
                    views::all(out.buffer@),
                )
                &&& shrunk(
                    final(store)@,
                    views::all(out.children@),
                    views::all(out.buffer@),
                    *config,
                )
                &&& store::booked(acc.io_bytes, old(store)@, final(store)@)
            },
            Err(stop) => store::honest(stop, old(store)@) && (bulk ==> !(stop is Collapsed)),
        },
        merge::grown(old(store)@, final(store)@),
        forall|names: Names| #[trigger]
            names.fit(final(store)@) ==> tree_rewritten(
                old(store)@,
                names,
                views::all(level.children@),
                views::all(level.buffer@),
                *config,
                bulk,
            ) == told_level(r, final(store)@),
{
    let ghost s0 = store@;
    let ghost a = views::all(level.children@);
    let ghost x = views::all(level.buffer@);
    proof {
        reveal(tree_rewritten);
    }
    let started = if bulk {
        materialize_root(store, level, config)
    } else {
        flush_root(store, level, config)
    };
    let (level, mut acc) = match started {
        Err(stop) => {
            return Err(stop);
        },
        Ok(done) => done,
    };
    // Repair children that drains left underfull or single-child before
    // routing is split, as ingest does below the root, so no split piece
    // persists a single-child interior.
    let ghost s1 = store@;
    let ghost b = views::all(level.children@);
    let ghost y = views::all(level.buffer@);
    let level = if bulk {
        level
    } else {
        match merge_root(store, level, config) {
            Err(stop) => {
                proof {
                    store::lemma_extends_lacks(s0, s1, stop);
                    store::lemma_extends_transitive(s0, s1, store@);
                }
                return Err(stop);
            },
            Ok((out, more)) => {
                proof {
                    lemma_rewritten_join(
                        s0,
                        s1,
                        store@,
                        a,
                        x,
                        b,
                        y,
                        views::all(out.children@),
                        views::all(out.buffer@),
                    );
                    store::lemma_booked_join(acc.io_bytes, more.io_bytes, s0, s1, store@);
                }
                acc.add(more);
                out
            },
        }
    };
    let ghost s2 = store@;
    let ghost b = views::all(level.children@);
    let ghost y = views::all(level.buffer@);
    let level = match lift_root(store, level, config) {
        Err(stop) => {
            proof {
                store::lemma_extends_lacks(s0, s2, stop);
                store::lemma_extends_transitive(s0, s2, store@);
            }
            return Err(stop);
        },
        Ok((out, more)) => {
            proof {
                lemma_rewritten_join(
                    s0,
                    s2,
                    store@,
                    a,
                    x,
                    b,
                    y,
                    views::all(out.children@),
                    views::all(out.buffer@),
                );
                store::lemma_booked_join(acc.io_bytes, more.io_bytes, s0, s2, store@);
            }
            acc.add(more);
            out
        },
    };
    let ghost s3 = store@;
    let ghost b = views::all(level.children@);
    let ghost y = views::all(level.buffer@);
    let level = if bulk {
        level
    } else {
        match merge_root(store, level, config) {
            Err(stop) => {
                proof {
                    store::lemma_extends_lacks(s0, s3, stop);
                    store::lemma_extends_transitive(s0, s3, store@);
                }
                return Err(stop);
            },
            Ok((out, more)) => {
                proof {
                    lemma_rewritten_join(
                        s0,
                        s3,
                        store@,
                        a,
                        x,
                        b,
                        y,
                        views::all(out.children@),
                        views::all(out.buffer@),
                    );
                    store::lemma_booked_join(acc.io_bytes, more.io_bytes, s0, s3, store@);
                }
                acc.add(more);
                out
            },
        }
    };
    let ghost s4 = store@;
    let ghost b = views::all(level.children@);
    let ghost y = views::all(level.buffer@);
    match maybe_shrink_root(store, level, config) {
        Err(stop) => {
            proof {
                store::lemma_extends_lacks(s0, s4, stop);
            }
            Err(stop)
        },
        Ok(out) => {
            proof {
                lemma_rewritten_join(
                    s0,
                    s4,
                    store@,
                    a,
                    x,
                    b,
                    y,
                    views::all(out.children@),
                    views::all(out.buffer@),
                );
            }
            Ok((out, acc))
        },
    }
}

} // verus!
