//! Prepare immutable tree objects for publication by an authoritative manifest.
//! This path never writes a version-numbered root or races a second commit CAS.

use vstd::prelude::*;

use crate::commit;
use crate::commit::{ActionDeltas, TouchedFragments, ValidatedCommit};
use crate::error::{Aggregate, Error, Reason};
use crate::leaves;
use crate::levels;
use crate::merge;
use crate::merge::WriteAcc;
use crate::node;
use crate::node::FragmentMetadataTreeConfig;
use crate::paths;
use crate::pb;
use crate::pb::{clone_children, clone_mutations, Action, ActionView, ChildView,
    FragmentMetadataChild, FragmentMetadataMutation, FragmentMetadataRoot, MutationView, Root, RootBase, RootView,
    TreeDescriptor};
use crate::record::{Fragment, FragmentView};
use crate::squash;
use crate::squash_laws;
use crate::steps;
use crate::store;
use crate::store::{Halt, Names, NodeStore, Stop, StoreView};
use crate::tree;
use crate::tree::stage_laws;
use crate::tree::{BootstrapStats, CommitStats, FragmentTree, Level, TreeView};
use crate::validation;
use crate::views;
use crate::wire;
use crate::world;
use crate::world::World;

verus! {

broadcast use {crate::store::group_names, crate::views::group_views};

/// The writer session, under the name the manifest field has.
pub type FragmentMetadataTree = FragmentTree;

pub const DEFAULT_INLINE_ROOT_BYTES: usize = 65_536;

pub const DEFAULT_MAX_SUFFIX_BYTES: usize = 32_768;

/// Publication byte budgets, independent of leaf and semantic-buffer budgets.
#[derive(Debug, Clone, Copy)]
pub struct SnapshotPolicy {
    /// Embed root and descriptor only when their complete encoded contribution
    /// to the Version Manifest fits this size. Zero disables embedding.
    pub inline_root_bytes: usize,
    /// Maximum encoded cumulative suffix. Zero writes an external root every commit.
    pub max_suffix_bytes: usize,
}

impl Default for SnapshotPolicy {
    fn default() -> (r: Self)
        ensures
            r.inline_root_bytes == DEFAULT_INLINE_ROOT_BYTES,
            r.max_suffix_bytes == DEFAULT_MAX_SUFFIX_BYTES,
    {
        SnapshotPolicy {
            inline_root_bytes: DEFAULT_INLINE_ROOT_BYTES,
            max_suffix_bytes: DEFAULT_MAX_SUFFIX_BYTES,
        }
    }
}

// Encoded sizes.

impl RootView {
    pub open spec fn encoded_len(self) -> nat {
        node::children_len(self.children) + node::buffer_len(self.buffer) + wire::uint_len(
            self.next_action_sequence as nat,
        )
    }
}

impl TreeDescriptor {
    pub open spec fn encoded_len(self) -> nat {
        let root = match self.root {
            Some(RootBase::InlineRoot(root)) => wire::delimited_len(root.encoded_len()),
            Some(RootBase::RootUuid(bytes)) => wire::delimited_len(bytes.len()),
            None => 0,
        };
        root + node::buffer_len(self.mutations_since_root) + wire::uint_len(
            self.next_action_sequence as nat,
        )
    }
}

/// Encoded bytes of a root.
pub fn root_bytes(root: &FragmentMetadataRoot) -> (r: u64)
    ensures
        r == wire::capped(root@.encoded_len()),
{
    node::internal_logical_bytes(&root.children, &root.buffer).saturating_add(
        wire::uint_bytes(root.next_action_sequence),
    )
}

/// Encoded bytes of a descriptor.
pub fn descriptor_bytes(tree: &pb::FragmentMetadataTree) -> (r: u64)
    ensures
        r == wire::capped(tree@.encoded_len()),
{
    let none: Vec<crate::pb::FragmentMetadataChild> = Vec::new();
    let root: u64 = match &tree.root {
        Some(Root::InlineRoot(root)) => wire::delimited_bytes(
            root_bytes(root),
            Ghost(root@.encoded_len()),
        ),
        Some(Root::RootUuid(bytes)) => {
            let count: usize = bytes.len();
            wire::delimited_bytes(count as u64, Ghost(bytes@.len()))
        },
        None => 0,
    };
    root.saturating_add(node::internal_logical_bytes(&none, &tree.mutations_since_root)).saturating_add(
        wire::uint_bytes(tree.next_action_sequence),
    )
}

// Staging.

/// What a commit makes of the parts of a session that are not its tree.
pub struct Staging {
    pub version: u64,
    pub next_action_sequence: u64,
    pub total_fragments: u64,
    pub total_rows: u64,
    pub visible_rows: u64,
    pub next_fragment_id: u64,
}

/// The actions of a commit as they are buffered.
pub open spec fn tagged(
    actions: Seq<Option<ActionView>>,
    deltas: Seq<ActionDeltas>,
    first_action_sequence: u64,
) -> Seq<MutationView> {
    Seq::new(
        actions.len(),
        |i: int|
            MutationView {
                action_sequence: (first_action_sequence + i) as u64,
                action: Some(actions[i]),
                fragment_count_delta: deltas[i].fragment_count,
                total_rows_delta: deltas[i].physical_rows,
                visible_rows_delta: deltas[i].visible_rows,
            },
    )
}

/// The ID frontier after the fragments a commit adds.
pub open spec fn allocated(next: u64, actions: Seq<Option<ActionView>>) -> int
    decreases actions.len(),
{
    if actions.len() == 0 {
        next as int
    } else {
        let rest = allocated(next, actions.drop_last());
        match actions.last() {
            Some(ActionView::AddFragment(fragment)) => if fragment.id + 1 > rest {
                fragment.id + 1
            } else {
                rest
            },
            _ => rest,
        }
    }
}

/// One past the largest fragment id.
pub const FRAGMENT_ID_END: u64 = 0x1_0000_0000;

pub open spec fn fragment_counts(deltas: Seq<ActionDeltas>) -> Seq<i64> {
    deltas.map_values(|d: ActionDeltas| d.fragment_count)
}

pub open spec fn physical_counts(deltas: Seq<ActionDeltas>) -> Seq<i64> {
    deltas.map_values(|d: ActionDeltas| d.physical_rows)
}

pub open spec fn visible_counts(deltas: Seq<ActionDeltas>) -> Seq<i64> {
    deltas.map_values(|d: ActionDeltas| d.visible_rows)
}

/// What a commit makes of a session's version, aggregates and allocator.
pub open spec fn staging(
    t: TreeView,
    actions: Seq<Option<ActionView>>,
    deltas: Seq<ActionDeltas>,
    next: Option<u64>,
) -> Result<Staging, Error> {
    let fragments = node::summed_deltas(fragment_counts(deltas), Aggregate::FragmentCountDelta);
    let rows = node::summed_deltas(physical_counts(deltas), Aggregate::TotalRowsDelta);
    let visible = node::summed_deltas(visible_counts(deltas), Aggregate::VisibleRowsDelta);
    let frontier = allocated(t.next_fragment_id, actions);
    if t.next_action_sequence + actions.len() > u64::MAX {
        Err(
            Error::InvalidInput {
                reason: Reason::ActionSequenceExhausted {
                    next_action_sequence: t.next_action_sequence,
                    action_count: actions.len() as u64,
                },
            },
        )
    } else if fragments is Err {
        Err(fragments->Err_0)
    } else if rows is Err {
        Err(rows->Err_0)
    } else if visible is Err {
        Err(visible->Err_0)
    } else {
        let total_fragments = node::changed(
            t.total_fragments,
            fragments->Ok_0,
            Aggregate::TotalFragments,
        );
        let total_rows = node::changed(t.total_rows, rows->Ok_0, Aggregate::TotalRows);
        let visible_rows = node::changed(t.visible_rows, visible->Ok_0, Aggregate::VisibleRows);
        if total_fragments is Err {
            Err(total_fragments->Err_0)
        } else if total_rows is Err {
            Err(total_rows->Err_0)
        } else if visible_rows is Err {
            Err(visible_rows->Err_0)
        } else if t.version == u64::MAX {
            Err(Error::InvalidInput { reason: Reason::VersionExhausted })
        } else {
            match next {
                Some(next) if next < frontier || next > FRAGMENT_ID_END => Err(
                    Error::InvalidInput {
                        reason: Reason::FrontierOutOfRange { next, at_least: frontier as u64 },
                    },
                ),
                _ => Ok(
                    Staging {
                        version: (t.version + 1) as u64,
                        next_action_sequence: (t.next_action_sequence + actions.len()) as u64,
                        total_fragments: total_fragments->Ok_0,
                        total_rows: total_rows->Ok_0,
                        visible_rows: visible_rows->Ok_0,
                        next_fragment_id: match next {
                            Some(next) => next,
                            None => frontier as u64,
                        },
                    },
                ),
            }
        }
    }
}

/// A staged commit: the session's new counters and the actions to buffer.
struct StagedCommit {
    version: u64,
    next_action_sequence: u64,
    total_fragments: u64,
    total_rows: u64,
    visible_rows: u64,
    next_fragment_id: u64,
    tagged: Vec<FragmentMetadataMutation>,
}

impl StagedCommit {
    spec fn counters(self) -> Staging {
        Staging {
            version: self.version,
            next_action_sequence: self.next_action_sequence,
            total_fragments: self.total_fragments,
            total_rows: self.total_rows,
            visible_rows: self.visible_rows,
            next_fragment_id: self.next_fragment_id,
        }
    }
}

/// The three columns of some deltas.
fn delta_columns(deltas: &Vec<ActionDeltas>) -> (r: (Vec<i64>, Vec<i64>, Vec<i64>))
    ensures
        r.0@ == fragment_counts(deltas@),
        r.1@ == physical_counts(deltas@),
        r.2@ == visible_counts(deltas@),
{
    let mut fragments: Vec<i64> = Vec::new();
    let mut rows: Vec<i64> = Vec::new();
    let mut visible: Vec<i64> = Vec::new();
    let mut i: usize = 0;
    while i < deltas.len()
        invariant
            i <= deltas@.len(),
            fragments@ =~= fragment_counts(deltas@.take(i as int)),
            rows@ =~= physical_counts(deltas@.take(i as int)),
            visible@ =~= visible_counts(deltas@.take(i as int)),
        decreases deltas@.len() - i,
    {
        fragments.push(deltas[i].fragment_count);
        rows.push(deltas[i].physical_rows);
        visible.push(deltas[i].visible_rows);
        i = i + 1;
    }
    assert(deltas@.take(deltas@.len() as int) =~= deltas@);
    (fragments, rows, visible)
}

/// Tag each action with its place in the commit order and its deltas.
fn tag_actions(
    actions: &Vec<crate::pb::FragmentAction>,
    deltas: &Vec<ActionDeltas>,
    first_action_sequence: u64,
) -> (r: Vec<FragmentMetadataMutation>)
    requires
        actions@.len() == deltas@.len(),
        first_action_sequence + actions@.len() <= u64::MAX,
    ensures
        views::all(r@) == tagged(views::all(actions@), deltas@, first_action_sequence),
{
    let mut out: Vec<FragmentMetadataMutation> = Vec::new();
    let ghost all = views::all(actions@);
    let mut i: usize = 0;
    while i < actions.len()
        invariant
            i <= actions@.len(),
            actions@.len() == deltas@.len(),
            first_action_sequence + actions@.len() <= u64::MAX,
            all == views::all(actions@),
            out@.len() == i,
            forall|k: int|
                0 <= k < i ==> (#[trigger] out@[k])@ == tagged(
                    all,
                    deltas@,
                    first_action_sequence,
                )[k],
        decreases actions@.len() - i,
    {
        out.push(
            FragmentMetadataMutation {
                action_sequence: first_action_sequence + i as u64,
                action: Some(actions[i].clone()),
                fragment_count_delta: deltas[i].fragment_count,
                total_rows_delta: deltas[i].physical_rows,
                visible_rows_delta: deltas[i].visible_rows,
            },
        );
        i = i + 1;
    }
    assert(views::all(out@) =~= tagged(all, deltas@, first_action_sequence));
    out
}

/// The ID frontier after the fragments a commit adds.
fn allocate(next: u64, actions: &Vec<crate::pb::FragmentAction>) -> (r: u64)
    requires
        forall|i: int|
            0 <= i < actions@.len() ==> ((#[trigger] actions@[i])@ matches Some(a) ==> a.target()
                <= u32::MAX),
    ensures
        r == allocated(next, views::all(actions@)),
{
    let ghost all = views::all(actions@);
    let mut frontier: u64 = next;
    let mut i: usize = 0;
    while i < actions.len()
        invariant
            i <= actions@.len(),
            all == views::all(actions@),
            forall|i: int|
                0 <= i < actions@.len() ==> ((#[trigger] actions@[i])@ matches Some(a)
                    ==> a.target() <= u32::MAX),
            frontier == allocated(next, all.take(i as int)),
        decreases actions@.len() - i,
    {
        proof {
            assert(all.take(i + 1).drop_last() =~= all.take(i as int));
            assert(all.take(i + 1).last() == actions@[i as int]@);
        }
        if let Some(Action::AddFragment(fragment)) = &actions[i].action {
            assert(actions@[i as int]@->0.target() == fragment.id);
            if fragment.id + 1 > frontier {
                frontier = fragment.id + 1;
            }
        }
        i = i + 1;
    }
    assert(all.take(all.len() as int) =~= all);
    frontier
}

impl FragmentTree {
    /// Advance the version, aggregates and ID allocator, and tag each action
    /// with its sequence number and deltas. The caller buffers the actions.
    fn stage_commit(&self, commit: &ValidatedCommit, deltas: &Vec<ActionDeltas>) -> (r: Result<
        StagedCommit,
        Error,
    >)
        requires
            commit.fragment_actions@.len() == deltas@.len(),
            forall|i: int|
                0 <= i < commit.fragment_actions@.len() ==> ((
                #[trigger] commit.fragment_actions@[i])@ matches Some(a) ==> a.target()
                    <= u32::MAX),
        ensures
            match staging(
                self@,
                views::all(commit.fragment_actions@),
                deltas@,
                commit.next_fragment_id,
            ) {
                Err(error) => r == Err::<StagedCommit, Error>(error),
                Ok(counters) => r is Ok && r->Ok_0.counters() == counters && views::all(
                    r->Ok_0.tagged@,
                ) == tagged(
                    views::all(commit.fragment_actions@),
                    deltas@,
                    self@.next_action_sequence,
                ),
            },
    {
        let count: usize = commit.fragment_actions.len();
        let next_action_sequence: u64 = match self.next_action_sequence.checked_add(count as u64) {
            Some(next) => next,
            None => {
                return Err(
                    Error::InvalidInput {
                        reason: Reason::ActionSequenceExhausted {
                            next_action_sequence: self.next_action_sequence,
                            action_count: count as u64,
                        },
                    },
                );
            },
        };
        let (fragments, rows, visible) = delta_columns(deltas);
        let fragments: i64 = node::sum_aggregate_deltas(
            &fragments,
            Aggregate::FragmentCountDelta,
        )?;
        let rows: i64 = node::sum_aggregate_deltas(&rows, Aggregate::TotalRowsDelta)?;
        let visible: i64 = node::sum_aggregate_deltas(&visible, Aggregate::VisibleRowsDelta)?;
        let total_fragments: u64 = node::apply_aggregate_delta(
            self.total_fragments,
            fragments,
            Aggregate::TotalFragments,
        )?;
        let total_rows: u64 = node::apply_aggregate_delta(
            self.total_rows,
            rows,
            Aggregate::TotalRows,
        )?;
        let visible_rows: u64 = node::apply_aggregate_delta(
            self.visible_rows,
            visible,
            Aggregate::VisibleRows,
        )?;
        let frontier: u64 = allocate(self.next_fragment_id, &commit.fragment_actions);
        let version: u64 = match self.version.checked_add(1) {
            Some(version) => version,
            None => {
                return Err(Error::InvalidInput { reason: Reason::VersionExhausted });
            },
        };
        let next_fragment_id: u64 = match commit.next_fragment_id {
            Some(next) => {
                if next < frontier || next > FRAGMENT_ID_END {
                    return Err(
                        Error::InvalidInput {
                            reason: Reason::FrontierOutOfRange { next, at_least: frontier },
                        },
                    );
                }
                next
            },
            None => frontier,
        };
        let tagged = tag_actions(&commit.fragment_actions, deltas, self.next_action_sequence);
        Ok(
            StagedCommit {
                version,
                next_action_sequence,
                total_fragments,
                total_rows,
                visible_rows,
                next_fragment_id,
                tagged,
            },
        )
    }
}

// Checkpoints.

impl TreeView {
    /// The root a session stands for.
    pub open spec fn root(self) -> RootView {
        RootView {
            children: self.children,
            buffer: self.buffer,
            next_action_sequence: self.next_action_sequence,
        }
    }
}

/// A root on its own as a descriptor.
pub open spec fn inlined(root: RootView) -> TreeDescriptor {
    TreeDescriptor {
        root: Some(RootBase::InlineRoot(root)),
        mutations_since_root: Seq::empty(),
        next_action_sequence: root.next_action_sequence,
    }
}

/// Whether a descriptor is a checkpoint of a root: the root itself where that
/// fits the policy, and otherwise an identifier with the root to be stored
/// under it. `bytes` is what storing it writes.
pub open spec fn checkpointed(
    root: RootView,
    policy: SnapshotPolicy,
    snapshot: TreeDescriptor,
    bytes: u64,
    stored: Option<RootView>,
) -> bool {
    if wire::capped(inlined(root).encoded_len()) <= policy.inline_root_bytes {
        snapshot == inlined(root) && bytes == 0 && stored is None
    } else {
        &&& snapshot.root matches Some(RootBase::RootUuid(identifier)) && identifier.len() == 16
        &&& snapshot.mutations_since_root == Seq::<MutationView>::empty()
        &&& snapshot.next_action_sequence == root.next_action_sequence
        &&& bytes == wire::capped(root.encoded_len())
        &&& stored == Some(root)
    }
}

/// A checkpoint: the descriptor, the bytes its root takes in storage, and the
/// root to store, where it is not in the descriptor.
struct Checkpoint {
    snapshot: pb::FragmentMetadataTree,
    bytes: u64,
    root: Option<FragmentMetadataRoot>,
}

fn checkpoint_root(
    root: FragmentMetadataRoot,
    hard_capacity_bytes: u64,
    policy: SnapshotPolicy,
) -> (r: Result<Checkpoint, Error>)
    ensures
        match r {
            Ok(done) => wire::capped(root@.encoded_len()) <= hard_capacity_bytes && checkpointed(
                root@,
                policy,
                done.snapshot@,
                done.bytes,
                views::opt(done.root),
            ),
            Err(error) => wire::capped(root@.encoded_len()) > hard_capacity_bytes && error
                == (Error::InvalidInput {
                reason: Reason::RootTooLarge {
                    bytes: wire::capped(root@.encoded_len()),
                    hard_capacity_bytes,
                },
            }),
        },
{
    let bytes: u64 = root_bytes(&root);
    let next_action_sequence: u64 = root.next_action_sequence;
    if bytes > hard_capacity_bytes {
        return Err(
            Error::InvalidInput { reason: Reason::RootTooLarge { bytes, hard_capacity_bytes } },
        );
    }
    let none: Vec<FragmentMetadataMutation> = Vec::new();
    let ghost given = root@;
    let snapshot = pb::FragmentMetadataTree {
        root: Some(Root::InlineRoot(root)),
        mutations_since_root: none,
        next_action_sequence,
    };
    assert(snapshot@ == inlined(given));
    if descriptor_bytes(&snapshot) <= policy.inline_root_bytes as u64 {
        return Ok(Checkpoint { snapshot, bytes: 0, root: None });
    }
    let stored: Option<FragmentMetadataRoot> = match snapshot.root {
        Some(Root::InlineRoot(root)) => Some(root),
        _ => None,
    };
    Ok(
        Checkpoint {
            snapshot: pb::FragmentMetadataTree {
                root: Some(Root::RootUuid(paths::new_identifier())),
                mutations_since_root: Vec::new(),
                next_action_sequence,
            },
            bytes,
            root: stored,
        },
    )
}

// Preparing a commit.

/// A commit prepared for publication.
pub struct Prepared {
    /// What the manifest of the new version says of the tree.
    pub snapshot: pb::FragmentMetadataTree,
    pub stats: CommitStats,
    /// The root to store under the identifier the snapshot names, where it is
    /// not in the snapshot.
    pub root: Option<FragmentMetadataRoot>,
    /// The session's nodes from this one on are to be stored.
    pub nodes_from: usize,
    /// The session's leaves from this one on are to be stored.
    pub leaves_from: usize,
}

pub struct PreparedView {
    pub snapshot: TreeDescriptor,
    pub stats: CommitStats,
    pub root: Option<RootView>,
    pub nodes_from: usize,
    pub leaves_from: usize,
}

impl View for Prepared {
    type V = PreparedView;

    open spec fn view(&self) -> PreparedView {
        PreparedView {
            snapshot: self.snapshot@,
            stats: self.stats,
            root: views::opt(self.root),
            nodes_from: self.nodes_from,
            leaves_from: self.leaves_from,
        }
    }
}

/// Whether a commit stays a suffix of the manifest's descriptor: nothing in
/// the tree overflows and the suffix fits the policy.
pub open spec fn stays(
    children: Seq<ChildView>,
    pending: Seq<MutationView>,
    suffix: Seq<MutationView>,
    previous: TreeDescriptor,
    config: FragmentMetadataTreeConfig,
    policy: SnapshotPolicy,
    bulk: bool,
) -> bool {
    &&& !bulk
    &&& previous.root matches Some(RootBase::RootUuid(_))
    &&& !node::overflows(children, pending, config)
    &&& wire::capped(node::buffer_len(suffix)) <= policy.max_suffix_bytes
}

/// Whether some lists are what a commit makes of the session's buffer and of
/// the descriptor's suffix.
pub open spec fn absorbed(
    buffer: Seq<MutationView>,
    previous: Seq<MutationView>,
    fresh: Seq<MutationView>,
    pending: Seq<MutationView>,
    suffix: Seq<MutationView>,
) -> bool {
    &&& squash::normalized(buffer + fresh, pending)
    &&& squash::normalized(previous + fresh, suffix)
}

/// The objects a session knows, at the next place in the commit order.
pub open spec fn advanced_store(store: StoreView, next_action_sequence: u64) -> StoreView {
    StoreView { next_action_sequence, ..store }
}

/// Whether a session's counters are what a commit makes of them.
pub open spec fn counted(after: TreeView, counters: Staging) -> bool {
    &&& after.version == counters.version
    &&& after.next_action_sequence == counters.next_action_sequence
    &&& after.total_fragments == counters.total_fragments
    &&& after.total_rows == counters.total_rows
    &&& after.visible_rows == counters.visible_rows
    &&& after.next_fragment_id == counters.next_fragment_id
}

/// What a commit makes of a session and what it returns, given its buffered
/// actions and what the buffer and the suffix are normalized to.
pub open spec fn prepared(
    before: TreeView,
    counters: Staging,
    fresh: Seq<MutationView>,
    previous: TreeDescriptor,
    policy: SnapshotPolicy,
    bulk: bool,
    pending: Seq<MutationView>,
    suffix: Seq<MutationView>,
    after: TreeView,
    out: PreparedView,
) -> bool {
    let base = advanced_store(before.store, counters.next_action_sequence);
    &&& counted(after, counters)
    &&& after.config == before.config
    &&& after.snapshot == Some(out.snapshot)
    &&& out.nodes_from == before.store.nodes.len()
    &&& out.leaves_from == before.store.leaves.len()
    &&& out.stats.messages_in == fresh.len()
    &&& out.stats.height == node::max_height(after.children) + 1
    &&& out.stats.root_buffer_len == after.buffer.len()
    &&& if stays(before.children, pending, suffix, previous, before.config, policy, bulk) {
        &&& after.store == base
        &&& after.children == before.children
        &&& after.buffer == pending
        &&& out.snapshot == (TreeDescriptor {
            root: previous.root,
            mutations_since_root: suffix,
            next_action_sequence: counters.next_action_sequence,
        })
        &&& out.root is None
        &&& out.stats.tree_write_bytes == 0
        &&& out.stats.checkpoints == 0
        &&& out.stats.flushes == 0
        &&& out.stats.splits == 0
        &&& out.stats.merges == 0
        &&& out.stats.max_flush_depth == 0
        &&& out.stats.messages_materialized == 0
        &&& out.stats.messages_squashed == before.buffer.len() + fresh.len() - pending.len()
    } else {
        let root_bytes = match out.root {
            Some(root) => wire::capped(root.encoded_len()),
            None => 0,
        };
        &&& tree::rewritten(
            base,
            after.store,
            before.children,
            pending,
            after.children,
            after.buffer,
        )
        &&& tree::shrunk(after.store, after.children, after.buffer, before.config)
        &&& checkpointed(after.root(), policy, out.snapshot, root_bytes, out.root)
        &&& wire::capped(after.root().encoded_len()) <= before.config.hard_capacity_bytes
        &&& after.store.bytes() >= base.bytes()
        &&& out.stats.tree_write_bytes == merge::summed(
            wire::capped((after.store.bytes() - base.bytes()) as nat),
            root_bytes,
        )
        &&& out.stats.checkpoints == 1
        &&& out.stats.messages_squashed >= before.buffer.len() + fresh.len() - pending.len()
    }
}

/// The prepared commit, or how it ended.
pub open spec fn shown(r: Result<Prepared, Stop>) -> Result<PreparedView, Halt> {
    match r {
        Ok(out) => Ok(out@),
        Err(stop) => Err(stop.halt()),
    }
}

/// What rewriting a root gives. Where draining leaves a subtree the format
/// forbids, every buffered action goes to its leaf instead, under paths that
/// are drawn again.
pub open spec fn rebuilt(
    store: StoreView,
    names: Names,
    again: Names,
    children: Seq<ChildView>,
    buffer: Seq<MutationView>,
    config: FragmentMetadataTreeConfig,
    bulk: bool,
) -> Result<(StoreView, Seq<ChildView>, Seq<MutationView>, WriteAcc), Halt> {
    match tree::tree_rewritten(store, names, children, buffer, config, bulk) {
        Err(Halt::Collapsed) => tree::tree_rewritten(
            store,
            again,
            children,
            buffer,
            config,
            true,
        ),
        other => other,
    }
}

/// Why a root is not published, where it is not.
pub open spec fn root_refusal(root: RootView, hard_capacity_bytes: u64) -> Option<Error> {
    let bytes = wire::capped(root.encoded_len());
    if node::max_height(root.children) == u32::MAX {
        Some(Error::CorruptFile { reason: Reason::HeightExceedsU32 })
    } else if bytes > hard_capacity_bytes {
        Some(
            Error::InvalidInput { reason: Reason::RootTooLarge { bytes, hard_capacity_bytes } },
        )
    } else {
        None
    }
}

/// What writing a commit's tree gives: the objects, the root and the work.
pub open spec fn commit_written(
    store: StoreView,
    names: Names,
    again: Names,
    children: Seq<ChildView>,
    buffer: Seq<MutationView>,
    config: FragmentMetadataTreeConfig,
    bulk: bool,
) -> Result<(StoreView, Seq<ChildView>, Seq<MutationView>, WriteAcc), Halt> {
    match rebuilt(store, names, again, children, buffer, config, bulk) {
        Err(halt) => Err(halt),
        Ok((after, kids, rest, acc)) => {
            let root = RootView {
                children: kids,
                buffer: rest,
                next_action_sequence: store.next_action_sequence,
            };
            match root_refusal(root, config.hard_capacity_bytes) {
                Some(error) => Err(Halt::Fail(error)),
                None => Ok((after, kids, rest, acc)),
            }
        },
    }
}

/// Whether a commit that has to write its tree ended as writing it does, under
/// some paths for the new objects: with its error, or with its objects, its
/// root and its work.
#[verifier::opaque]
pub open spec fn written_out(
    before: TreeView,
    counters: Staging,
    fresh: Seq<MutationView>,
    bulk: bool,
    pending: Seq<MutationView>,
    after: TreeView,
    out: Result<PreparedView, Halt>,
) -> bool {
    let base = advanced_store(before.store, counters.next_action_sequence);
    exists|names: Names, again: Names| #[trigger]
        names.fit(base) && #[trigger] again.fit(base) && names.drawn(base) && again.drawn(base)
            && ended_as(
            commit_written(
                base,
                names,
                again,
                before.children,
                pending,
                before.config,
                bulk,
            ),
            before.buffer.len() + fresh.len() - pending.len(),
            after,
            out,
        )
}

/// Whether a commit ended as the given write.
pub open spec fn ended_as(
    written: Result<(StoreView, Seq<ChildView>, Seq<MutationView>, WriteAcc), Halt>,
    squashed: int,
    after: TreeView,
    out: Result<PreparedView, Halt>,
) -> bool {
    match written {
        Err(halt) => out == Err::<PreparedView, Halt>(halt),
        Ok((store, kids, rest, acc)) => {
            &&& out matches Ok(done)
            &&& after.store == store
            &&& after.children == kids
            &&& after.buffer == rest
            &&& done.stats.flushes == acc.flushes
            &&& done.stats.splits == acc.splits
            &&& done.stats.merges == acc.merges
            &&& done.stats.max_flush_depth == acc.max_flush_depth
            &&& done.stats.messages_materialized == acc.materialized
            &&& done.stats.messages_squashed == merge::summed(squashed as u64, acc.squashed)
        },
    }
}

proof fn lemma_written_out(
    before: TreeView,
    counters: Staging,
    fresh: Seq<MutationView>,
    bulk: bool,
    pending: Seq<MutationView>,
    after: TreeView,
    out: Result<PreparedView, Halt>,
    names: Names,
    again: Names,
)
    requires
        names.fit(advanced_store(before.store, counters.next_action_sequence)),
        again.fit(advanced_store(before.store, counters.next_action_sequence)),
        names.drawn(advanced_store(before.store, counters.next_action_sequence)),
        again.drawn(advanced_store(before.store, counters.next_action_sequence)),
        ended_as(
            commit_written(
                advanced_store(before.store, counters.next_action_sequence),
                names,
                again,
                before.children,
                pending,
                before.config,
                bulk,
            ),
            before.buffer.len() + fresh.len() - pending.len(),
            after,
            out,
        ),
    ensures
        written_out(before, counters, fresh, bulk, pending, after, out),
{
    reveal(written_out);
}

/// What a staged commit comes to: without a rewrite it is prepared, else it
/// ends as writing its tree does.
pub open spec fn concluded(
    before: TreeView,
    counters: Staging,
    fresh: Seq<MutationView>,
    previous: TreeDescriptor,
    policy: SnapshotPolicy,
    bulk: bool,
    pending: Seq<MutationView>,
    suffix: Seq<MutationView>,
    after: TreeView,
    out: Result<PreparedView, Halt>,
) -> bool {
    let kept = stays(before.children, pending, suffix, previous, before.config, policy, bulk);
    &&& absorbed(before.buffer, previous.mutations_since_root, fresh, pending, suffix)
    &&& out matches Ok(out) ==> prepared(
        before,
        counters,
        fresh,
        previous,
        policy,
        bulk,
        pending,
        suffix,
        after,
        out,
    )
    &&& kept ==> out is Ok
    &&& !kept ==> written_out(before, counters, fresh, bulk, pending, after, out)
}

/// Rewrite a root as far as it goes. Where draining leaves a subtree the
/// format forbids, every buffered action goes to its leaf instead.
fn rewrite_or_rebuild(
    store: &mut NodeStore,
    level: Level,
    config: &FragmentMetadataTreeConfig,
    bulk: bool,
) -> (r: Result<(Level, WriteAcc), Stop>)
    requires
        config.valid(),
        tree::rooted(views::all(level.children@)),
    ensures
        match r {
            Ok((out, acc)) => {
                &&& tree::rewritten(
                    old(store)@,
                    final(store)@,
                    views::all(level.children@),
                    views::all(level.buffer@),
                    views::all(out.children@),
                    views::all(out.buffer@),
                )
                &&& tree::shrunk(
                    final(store)@,
                    views::all(out.children@),
                    views::all(out.buffer@),
                    *config,
                )
                &&& store::booked(acc.io_bytes, old(store)@, final(store)@)
            },
            Err(stop) => store::honest(stop, old(store)@) && !(stop is Collapsed),
        },
        merge::grown(old(store)@, final(store)@),
        exists|names: Names, again: Names| #[trigger]
            names.fit(old(store)@) && #[trigger] again.fit(old(store)@) && names.drawn(
                old(store)@,
            ) && again.drawn(old(store)@) && rebuilt(
                old(store)@,
                names,
                again,
                views::all(level.children@),
                views::all(level.buffer@),
                *config,
                bulk,
            ) == tree::told_level(r, final(store)@),
{
    let ghost before = store@;
    let nodes: usize = store.nodes.len();
    let leaves: usize = store.leaves.len();
    let spare = Level {
        children: clone_children(&level.children),
        buffer: clone_mutations(&level.buffer),
    };
    let first = tree::rewrite_tree(store, level, config, bulk);
    let ghost names = store::lemma_names_exist(before, store@);
    match first {
        Ok(done) => Ok(done),
        Err(Stop::Collapsed) => {
            store.rewind(nodes, leaves);
            assert(store@ == before);
            let second = tree::rewrite_tree(store, spare, config, true);
            let ghost again = store::lemma_names_exist(before, store@);
            second
        },
        Err(stop) => Err(stop),
    }
}

impl FragmentTree {
    /// Whether a descriptor is the one this session opened or prepared.
    fn holds_descriptor(&self, snapshot: &pb::FragmentMetadataTree) -> (r: bool)
        ensures
            r == (self@.snapshot == Some(snapshot@)),
    {
        match &self.snapshot {
            Some(held) => crate::same::descriptor(held, snapshot),
            None => false,
        }
    }

    /// Prepare a validated mutation for manifest publication. No version
    /// becomes visible here. On failure, the session is what it was; objects
    /// already stored remain unreachable until normal retention GC removes
    /// them.
    pub fn prepare_snapshot(
        &mut self,
        commit: ValidatedCommit,
        touched: &TouchedFragments,
        previous_snapshot: &pb::FragmentMetadataTree,
        policy: SnapshotPolicy,
        bulk: bool,
    ) -> (r: Result<Prepared, Stop>)
        requires
            old(self)@.wf(),
        ensures
            final(self)@.wf(),
            r is Err ==> final(self)@ == old(self)@,
            r matches Err(stop) ==> store::honest(stop, old(self)@.store) && !(stop is Collapsed),
            r matches Ok(out) ==> {
                let actions = views::all(commit.fragment_actions@);
                &&& final(self)@.version == old(self)@.version + 1
                &&& final(self)@.next_action_sequence == old(self)@.next_action_sequence
                    + actions.len()
                &&& match commit.next_fragment_id {
                    Some(next) => final(self)@.next_fragment_id == next,
                    None => stage_laws::frontier_after(
                        old(self)@.next_fragment_id,
                        actions,
                        final(self)@.next_fragment_id as int,
                    ),
                }
                &&& final(self)@.next_fragment_id >= old(self)@.next_fragment_id
                &&& out@.snapshot.mutations_since_root.len() > 0 ==> node::buffer_len(
                    out@.snapshot.mutations_since_root,
                ) <= policy.max_suffix_bytes || policy.max_suffix_bytes as u64 == u64::MAX
                &&& out@.snapshot.next_action_sequence == final(self)@.next_action_sequence
            },
            ({
                let before = old(self)@;
                let actions = views::all(commit.fragment_actions@);
                if before.snapshot != Some(previous_snapshot@) {
                    r == Err::<Prepared, Stop>(
                        Stop::Fail(
                            Error::InvalidInput {
                                reason: Reason::ForeignDescriptor { version: before.version },
                            },
                        ),
                    )
                } else {
                    match commit::progressed(actions, touched@, before.next_fragment_id) {
                        Err(error) => r == Err::<Prepared, Stop>(Stop::Fail(error)),
                        Ok(progress) => exists|deltas: Seq<ActionDeltas>|
                            commit::deltas_of(deltas) == progress.deltas && match #[trigger] staging(
                                before,
                                actions,
                                deltas,
                                commit.next_fragment_id,
                            ) {
                                Err(error) => r == Err::<Prepared, Stop>(Stop::Fail(error)),
                                Ok(counters) => exists|
                                    pending: Seq<MutationView>,
                                    suffix: Seq<MutationView>,
                                |
                                    #[trigger] concluded(
                                        old(self)@,
                                        counters,
                                        tagged(actions, deltas, old(self)@.next_action_sequence),
                                        previous_snapshot@,
                                        policy,
                                        bulk,
                                        pending,
                                        suffix,
                                        final(self)@,
                                        shown(r),
                                    ),
                            },
                    }
                }
            }),
    {
        let ghost before = self@;
        let ghost actions = views::all(commit.fragment_actions@);
        if !self.holds_descriptor(previous_snapshot) {
            return Err(
                Stop::Fail(
                    Error::InvalidInput {
                        reason: Reason::ForeignDescriptor { version: self.version },
                    },
                ),
            );
        }
        let deltas = match commit::aggregate_deltas(
            &commit.fragment_actions,
            touched,
            self.next_fragment_id,
        ) {
            Ok(deltas) => deltas,
            Err(error) => {
                return Err(Stop::Fail(error));
            },
        };
        proof {
            commit::lemma_progressed_targets(actions, touched@, before.next_fragment_id);
            assert forall|i: int| 0 <= i < commit.fragment_actions@.len() implies ((
            #[trigger] commit.fragment_actions@[i])@ matches Some(a) ==> a.target()
                <= u32::MAX) by {
                assert(actions[i] == commit.fragment_actions@[i]@);
            }
        }
        let staged = match self.stage_commit(&commit, &deltas) {
            Ok(staged) => staged,
            Err(error) => {
                assert(staging(before, actions, deltas@, commit.next_fragment_id) is Err);
                return Err(Stop::Fail(error));
            },
        };
        let ghost counters = staged.counters();
        let ghost fresh = views::all(staged.tagged@);
        let r = self.buffer_commit(staged, previous_snapshot, policy, bulk);
        proof {
            let (pending, suffix) = choose|
                pending: Seq<MutationView>,
                suffix: Seq<MutationView>,
            |
                #[trigger] concluded(
                    before,
                    counters,
                    fresh,
                    previous_snapshot@,
                    policy,
                    bulk,
                    pending,
                    suffix,
                    self@,
                    shown(r),
                );
            if let Ok(ref out) = r {
                stage_laws::law_commit_moves_the_counters(
                    before,
                    actions,
                    deltas@,
                    commit.next_fragment_id,
                    previous_snapshot@,
                    policy,
                    bulk,
                    pending,
                    suffix,
                    self@,
                    out@,
                );
                if out@.snapshot.mutations_since_root.len() > 0 {
                    stage_laws::law_suffix_fits_the_policy(
                        before,
                        counters,
                        fresh,
                        previous_snapshot@,
                        policy,
                        bulk,
                        pending,
                        suffix,
                        self@,
                        out@,
                    );
                }
            }
        }
        r
    }

    #[verifier::rlimit(90)]
    fn buffer_commit(
        &mut self,
        staged: StagedCommit,
        previous_snapshot: &pb::FragmentMetadataTree,
        policy: SnapshotPolicy,
        bulk: bool,
    ) -> (r: Result<Prepared, Stop>)
        requires
            old(self)@.wf(),
        ensures
            final(self)@.wf(),
            r is Err ==> final(self)@ == old(self)@,
            r matches Err(stop) ==> store::honest(stop, old(self)@.store) && !(stop is Collapsed),
            exists|pending: Seq<MutationView>, suffix: Seq<MutationView>|
                #[trigger] concluded(
                    old(self)@,
                    staged.counters(),
                    views::all(staged.tagged@),
                    previous_snapshot@,
                    policy,
                    bulk,
                    pending,
                    suffix,
                    final(self)@,
                    shown(r),
                ),
    {
        let ghost before = self@;
        let ghost fresh = views::all(staged.tagged@);
        let messages_in: usize = staged.tagged.len();
        let mut extended = clone_mutations(&self.buffer);
        extended.append(&mut clone_mutations(&staged.tagged));
        let total: usize = extended.len();
        assert(views::all(extended@) == before.buffer + fresh);
        let pending = squash::squash_buffer(extended);
        let mut suffix = clone_mutations(&previous_snapshot.mutations_since_root);
        suffix.append(&mut clone_mutations(&staged.tagged));
        assert(views::all(suffix@) == previous_snapshot@.mutations_since_root + fresh);
        let suffix = squash::squash_buffer(suffix);
        let left: usize = pending.len();
        proof {
            squash_laws::law_squash_never_grows(before.buffer + fresh, views::all(pending@));
        }
        let squashed: usize = total - left;
        let nodes_from: usize = self.store.nodes.len();
        let leaves_from: usize = self.store.leaves.len();
        let none: Vec<crate::pb::FragmentMetadataChild> = Vec::new();
        let external = match &previous_snapshot.root {
            Some(Root::RootUuid(_)) => true,
            _ => false,
        };
        let ghost wanted = views::all(pending@);
        let ghost trailing = views::all(suffix@);
        assert(absorbed(
            before.buffer,
            previous_snapshot@.mutations_since_root,
            fresh,
            wanted,
            trailing,
        ));
        if !bulk && external && !node::internal_overflows(&self.children, &pending, &self.config)
            && node::internal_logical_bytes(&none, &suffix) <= policy.max_suffix_bytes as u64 {
            let height: u32 = self.height();
            let snapshot = pb::FragmentMetadataTree {
                root: previous_snapshot.root.clone(),
                mutations_since_root: suffix,
                next_action_sequence: staged.next_action_sequence,
            };
            self.store.next_action_sequence = staged.next_action_sequence;
            self.buffer = pending;
            self.version = staged.version;
            self.next_action_sequence = staged.next_action_sequence;
            self.total_fragments = staged.total_fragments;
            self.total_rows = staged.total_rows;
            self.visible_rows = staged.visible_rows;
            self.next_fragment_id = staged.next_fragment_id;
            self.snapshot = Some(snapshot.clone());
            let out = Prepared {
                snapshot,
                stats: CommitStats {
                    tree_write_bytes: 0,
                    checkpoints: 0,
                    flushes: 0,
                    splits: 0,
                    merges: 0,
                    height,
                    max_flush_depth: 0,
                    messages_in: messages_in as u64,
                    messages_materialized: 0,
                    messages_squashed: squashed as u64,
                    root_buffer_len: left as u64,
                },
                root: None,
                nodes_from,
                leaves_from,
            };
            assert(concluded(
                before,
                staged.counters(),
                fresh,
                previous_snapshot@,
                policy,
                bulk,
                wanted,
                trailing,
                self@,
                Ok(out@),
            ));
            return Ok(out);
        }
        let before_sequence: u64 = self.next_action_sequence;
        self.store.next_action_sequence = staged.next_action_sequence;
        let ghost base = self.store@;
        assert(base == advanced_store(before.store, staged.next_action_sequence));
        let level = Level { children: clone_children(&self.children), buffer: pending };
        let ghost kids0 = views::all(level.children@);
        let rewritten = rewrite_or_rebuild(&mut self.store, level, &self.config, bulk);
        let ghost told = tree::told_level(rewritten, self.store@);
        let ghost (names, again) = choose|names: Names, again: Names| #[trigger]
            names.fit(base) && #[trigger] again.fit(base) && names.drawn(base) && again.drawn(base)
                && rebuilt(
                base,
                names,
                again,
                kids0,
                wanted,
                before.config,
                bulk,
            ) == told;
        let (level, acc) = match rewritten {
            Ok(done) => done,
            Err(stop) => {
                self.store.rewind(nodes_from, leaves_from);
                self.store.next_action_sequence = before_sequence;
                assert(self@ == before);
                proof {
                    lemma_written_out(
                        before,
                        staged.counters(),
                        fresh,
                        bulk,
                        wanted,
                        before,
                        Err(stop.halt()),
                        names,
                        again,
                    );
                }
                assert(concluded(
                    before,
                    staged.counters(),
                    fresh,
                    previous_snapshot@,
                    policy,
                    bulk,
                    wanted,
                    trailing,
                    before,
                    Err(stop.halt()),
                ));
                return Err(stop);
            },
        };
        let tallest: u32 = tree::tallest(&level.children);
        let root = FragmentMetadataRoot {
            children: clone_children(&level.children),
            buffer: clone_mutations(&level.buffer),
            next_action_sequence: staged.next_action_sequence,
        };
        let checked = if tallest == u32::MAX {
            Err(Error::CorruptFile { reason: Reason::HeightExceedsU32 })
        } else {
            checkpoint_root(root, self.config.hard_capacity_bytes, policy)
        };
        let done = match checked {
            Ok(done) => done,
            Err(error) => {
                self.store.rewind(nodes_from, leaves_from);
                self.store.next_action_sequence = before_sequence;
                assert(self@ == before);
                proof {
                    lemma_written_out(
                        before,
                        staged.counters(),
                        fresh,
                        bulk,
                        wanted,
                        before,
                        Err(Halt::Fail(error)),
                        names,
                        again,
                    );
                }
                assert(concluded(
                    before,
                    staged.counters(),
                    fresh,
                    previous_snapshot@,
                    policy,
                    bulk,
                    wanted,
                    trailing,
                    before,
                    Err(Halt::Fail(error)),
                ));
                return Err(Stop::Fail(error));
            },
        };
        let remaining: usize = level.buffer.len();
        self.children = level.children;
        self.buffer = level.buffer;
        self.version = staged.version;
        self.next_action_sequence = staged.next_action_sequence;
        self.total_fragments = staged.total_fragments;
        self.total_rows = staged.total_rows;
        self.visible_rows = staged.visible_rows;
        self.next_fragment_id = staged.next_fragment_id;
        self.snapshot = Some(done.snapshot.clone());
        let out = Prepared {
            snapshot: done.snapshot,
            stats: CommitStats {
                tree_write_bytes: acc.io_bytes.saturating_add(done.bytes),
                checkpoints: 1,
                flushes: acc.flushes,
                splits: acc.splits,
                merges: acc.merges,
                height: tallest + 1,
                max_flush_depth: acc.max_flush_depth,
                messages_in: messages_in as u64,
                messages_materialized: acc.materialized,
                messages_squashed: (squashed as u64).saturating_add(acc.squashed),
                root_buffer_len: remaining as u64,
            },
            root: done.root,
            nodes_from,
            leaves_from,
        };
        proof {
            lemma_written_out(
                before,
                staged.counters(),
                fresh,
                bulk,
                wanted,
                self@,
                Ok(out@),
                names,
                again,
            );
        }
        assert(concluded(
            before,
            staged.counters(),
            fresh,
            previous_snapshot@,
            policy,
            bulk,
            wanted,
            trailing,
            self@,
            Ok(out@),
        ));
        Ok(out)
    }
}

// Building a tree.

/// The totals of a new tree: physical rows, visible rows and the next
/// fragment id.
pub open spec fn initial_totals(fragments: Seq<FragmentView>) -> Result<(u64, u64, u64), Error>
    decreases fragments.len(),
{
    if fragments.len() == 0 {
        Ok((0, 0, 0))
    } else {
        match initial_totals(fragments.drop_last()) {
            Err(error) => Err(error),
            Ok((rows, visible, next)) => {
                let f = fragments.last();
                if f.id == u64::MAX {
                    Err(Error::InvalidInput { reason: Reason::FragmentIdExhausted { id: f.id } })
                } else if commit::unknown_counts(f) is Some {
                    Err(Error::InvalidInput { reason: commit::unknown_counts(f)->0 })
                } else if visible + f.num_rows()->0 > u64::MAX {
                    Err(Error::InvalidInput { reason: Reason::VisibleRowsOverflow { id: f.id } })
                } else if rows + f.physical_rows->0 > u64::MAX {
                    Err(Error::InvalidInput { reason: Reason::TotalRowsOverflow { id: f.id } })
                } else {
                    Ok(
                        (
                            (rows + f.physical_rows->0) as u64,
                            (visible + f.num_rows()->0) as u64,
                            if f.id + 1 > next {
                                (f.id + 1) as u64
                            } else {
                                next
                            },
                        ),
                    )
                }
            },
        }
    }
}

proof fn lemma_initial_prefix(fragments: Seq<FragmentView>, n: int)
    requires
        0 <= n <= fragments.len(),
        initial_totals(fragments.take(n)) is Err,
    ensures
        initial_totals(fragments) == initial_totals(fragments.take(n)),
    decreases fragments.len() - n,
{
    if n == fragments.len() {
        assert(fragments.take(n) =~= fragments);
    } else {
        assert(fragments.take(n + 1).drop_last() =~= fragments.take(n));
        lemma_initial_prefix(fragments, n + 1);
    }
}

/// Every fragment of a new tree can be stored, and its id is allocated.
pub proof fn lemma_initial(fragments: Seq<FragmentView>)
    requires
        initial_totals(fragments) is Ok,
    ensures
        forall|i: int|
            0 <= i < fragments.len() ==> (#[trigger] fragments[i]).storable() && fragments[i].id
                < initial_totals(fragments)->Ok_0.2,
    decreases fragments.len(),
{
    if fragments.len() > 0 {
        let rest = fragments.drop_last();
        lemma_initial(rest);
        assert forall|i: int| 0 <= i < fragments.len() implies (
        #[trigger] fragments[i]).storable() && fragments[i].id < initial_totals(
            fragments,
        )->Ok_0.2 by {
            if i < rest.len() {
                assert(rest[i] == fragments[i]);
            }
        }
    }
}

fn total_up(fragments: &Vec<Fragment>) -> (r: Result<(u64, u64, u64), Error>)
    ensures
        r == initial_totals(views::all(fragments@)),
{
    let ghost all = views::all(fragments@);
    let mut rows: u64 = 0;
    let mut visible: u64 = 0;
    let mut next: u64 = 0;
    let mut i: usize = 0;
    while i < fragments.len()
        invariant
            i <= fragments@.len(),
            all == views::all(fragments@),
            initial_totals(all.take(i as int)) == Ok::<(u64, u64, u64), Error>(
                (rows, visible, next),
            ),
        decreases fragments@.len() - i,
    {
        proof {
            assert(all.take(i + 1).drop_last() =~= all.take(i as int));
            assert(all.take(i + 1).last() == fragments@[i as int]@);
            if initial_totals(all.take(i + 1)) is Err {
                lemma_initial_prefix(all, i + 1);
            }
        }
        let fragment = &fragments[i];
        if fragment.id == u64::MAX {
            return Err(
                Error::InvalidInput { reason: Reason::FragmentIdExhausted { id: fragment.id } },
            );
        }
        match commit::require_known_counts(fragment) {
            Ok(()) => {},
            Err(error) => {
                return Err(error);
            },
        }
        let seen: u64 = match fragment.num_rows() {
            Some(rows) => rows as u64,
            None => 0,
        };
        let physical: u64 = match fragment.physical_rows {
            Some(rows) => rows as u64,
            None => 0,
        };
        visible = match visible.checked_add(seen) {
            Some(sum) => sum,
            None => {
                return Err(
                    Error::InvalidInput { reason: Reason::VisibleRowsOverflow { id: fragment.id } },
                );
            },
        };
        rows = match rows.checked_add(physical) {
            Some(sum) => sum,
            None => {
                return Err(
                    Error::InvalidInput { reason: Reason::TotalRowsOverflow { id: fragment.id } },
                );
            },
        };
        if fragment.id + 1 > next {
            next = fragment.id + 1;
        }
        i = i + 1;
    }
    assert(all.take(all.len() as int) =~= all);
    Ok((rows, visible, next))
}

/// Whether children stand for exactly some records: in every world that
/// agrees with the objects, they are a sound level that holds them, and no
/// leaf is ahead of the first place in the commit order.
pub open spec fn stands_for(
    before: StoreView,
    after: StoreView,
    children: Seq<ChildView>,
    records: Seq<FragmentView>,
) -> bool {
    forall|w: World|
        #![trigger world::agrees(w, after)]
        world::agrees(w, after) && world::all_sound(w, before) ==> {
            &&& world::all_sound(w, after)
            &&& world::sound(w, children, levels::no_mutations())
            &&& world::capped(w, children, 0)
            &&& forall|key: u64| #[trigger]
                world::frontier(w, children, levels::no_mutations(), key) == 0
            &&& forall|key: u64| #[trigger]
                world::cell(w, children, levels::no_mutations(), key) == Ok::<
                    Option<FragmentView>,
                    Error,
                >(world::found(records, key))
        }
}

/// Leaves of a new tree stand for its records, and routing over them does too.
proof fn lemma_stands_for(
    s0: StoreView,
    s1: StoreView,
    s2: StoreView,
    refs: Seq<ChildView>,
    records: Seq<FragmentView>,
    parts: Seq<(int, int)>,
    children: Seq<ChildView>,
)
    requires
        s0.next_action_sequence == 1,
        store::wrote_leaves(s0, s1, refs, records, parts, 0),
        store::tiles(parts, 0, records.len() as int),
        store::ascending(records),
        initial_totals(records) is Ok,
        tree::rewritten(
            s1,
            s2,
            node::fenced(refs, 0),
            levels::no_mutations(),
            children,
            levels::no_mutations(),
        ),
    ensures
        stands_for(s0, s2, children, records),
{
    let none = levels::no_mutations();
    let leaves = node::fenced(refs, 0);
    lemma_initial(records);
    assert forall|key: u64| world::proper(#[trigger] world::found(records, key), key) by {
        if world::found(records, key) is Some {
            let k = leaves::lemma_found_some(records, key);
            leaves::lemma_found(records, k);
        }
    }
    assert forall|w: World|
        #![trigger world::agrees(w, s2)]
        world::agrees(w, s2) && world::all_sound(w, s0) implies {
        &&& world::all_sound(w, s2)
        &&& world::sound(w, children, none)
        &&& world::capped(w, children, 0)
        &&& forall|key: u64| #[trigger] world::frontier(w, children, none, key) == 0
        &&& forall|key: u64| #[trigger]
            world::cell(w, children, none, key) == Ok::<Option<FragmentView>, Error>(
                world::found(records, key),
            )
    } by {
        world::lemma_agrees_before(w, s1, s2);
        steps::lemma_wrote_leaves(w, s0, s1, refs, records, parts, 0);
        leaves::lemma_leaf_base(w, records, parts, refs, 0, 0);
        levels::lemma_bare_sound(w, leaves);
        assert(world::all_sound(w, s1)) by {
            reveal(world::all_sound);
        }
        reveal(world::faithful);
        assert(world::refines(w, leaves, none, children, none, 0));
        assert(world::capped(w, leaves, 0));
        assert forall|key: u64| #[trigger] world::frontier(w, children, none, key) == 0 by {
            levels::lemma_bare_cell(w, leaves, key);
            node::lemma_route(leaves, key);
            assert(world::frontier(w, children, none, key) <= world::frontier(
                w,
                leaves,
                none,
                key,
            ));
        }
        assert forall|key: u64| #[trigger]
            world::cell(w, children, none, key) == Ok::<Option<FragmentView>, Error>(
                world::found(records, key),
            ) by {
            levels::lemma_bare_cell(w, leaves, key);
            assert(world::base_at(w, leaves, key) == world::found(records, key));
            assert(world::cell(w, children, none, key) == world::cell(w, leaves, none, key));
        }
    }
}

/// A tree that is not in a session yet.
struct Built {
    children: Vec<FragmentMetadataChild>,
    total_rows: u64,
    visible_rows: u64,
    next_fragment_id: u64,
    io_bytes: u64,
    num_leaves: u64,
}

/// A budget that cannot reduce a root cannot group the references of a new
/// tree.
pub open spec fn grouping_halt(halt: Halt) -> Halt {
    match halt {
        Halt::Fail(
            Error::InvalidInput { reason: Reason::RootCannotShrink { max_node_bytes, .. } },
        ) => Halt::Fail(Error::InvalidInput { reason: Reason::CannotGroup { max_node_bytes } }),
        _ => halt,
    }
}

/// What writing leaves and routing for records in order of their ids gives:
/// the objects, the root's children, the bytes and the number of leaves.
pub open spec fn built_over(
    store: StoreView,
    names: Names,
    records: Seq<FragmentView>,
    config: FragmentMetadataTreeConfig,
) -> Result<(StoreView, Seq<ChildView>, u64, u64), Halt> {
    match initial_totals(records) {
        Err(error) => Err(Halt::Fail(error)),
        Ok(_) => match store::put_initial(store, names, records, config) {
            Err(halt) => Err(halt),
            Ok((middle, refs)) => match tree::root_lifted(
                middle,
                names,
                node::fenced(refs, 0),
                levels::no_mutations(),
                config,
                WriteAcc::nothing(),
            ) {
                Err(halt) => Err(grouping_halt(halt)),
                Ok((after, children, rest, acc)) => Ok(
                    (
                        after,
                        children,
                        merge::summed(
                            wire::capped(store::ref_bytes(refs)),
                            acc.io_bytes,
                        ),
                        refs.len() as u64,
                    ),
                ),
            },
        },
    }
}

/// Write leaves and routing for records in order of their ids.
fn build(
    store: &mut NodeStore,
    config: &FragmentMetadataTreeConfig,
    fragments: &Vec<Fragment>,
) -> (r: Result<Built, Stop>)
    requires
        config.valid(),
        store::ascending(views::all(fragments@)),
        old(store)@.next_action_sequence == 1,
    ensures
        match r {
            Ok(built) => {
                let records = views::all(fragments@);
                &&& initial_totals(records) == Ok::<(u64, u64, u64), Error>(
                    (built.total_rows, built.visible_rows, built.next_fragment_id),
                )
                &&& stands_for(old(store)@, final(store)@, views::all(built.children@), records)
                &&& tree::rooted(views::all(built.children@))
                &&& !node::overflows(views::all(built.children@), levels::no_mutations(), *config)
                &&& store::booked(built.io_bytes, old(store)@, final(store)@)
                &&& built.num_leaves == final(store)@.leaves.len() - old(store)@.leaves.len()
            },
            Err(stop) => store::honest(stop, old(store)@) && !(stop is Collapsed),
        },
        initial_totals(views::all(fragments@)) matches Err(error) ==> r == Err::<Built, Stop>(
            Stop::Fail(error),
        ),
        merge::grown(old(store)@, final(store)@),
        forall|names: Names| #[trigger]
            names.fit(final(store)@) ==> built_over(
                old(store)@,
                names,
                views::all(fragments@),
                *config,
            ) == match r {
                Ok(built) => Ok(
                    (
                        final(store)@,
                        views::all(built.children@),
                        built.io_bytes,
                        built.num_leaves,
                    ),
                ),
                Err(stop) => Err(stop.halt()),
            },
{
    let ghost s0 = store@;
    let ghost records = views::all(fragments@);
    proof {
        store::lemma_extends_self(s0);
    }
    let (total_rows, visible_rows, next_fragment_id) = match total_up(fragments) {
        Ok(totals) => totals,
        Err(error) => {
            return Err(Stop::Fail(error));
        },
    };
    let count: usize = fragments.len();
    let ghost cut = store::initial_parts(s0, records, 0, config.max_leaf_bytes);
    let ghost parts = store::joined_parts(s0, records, cut, config.max_leaf_bytes);
    let written = match store.write_initial_leaves(fragments, config) {
        Ok(written) => written,
        Err(stop) => {
            return Err(stop);
        },
    };
    let ghost s1 = store@;
    let ghost refs = store::refs_of(written@);
    let leaves: usize = written.len();
    proof {
        store::lemma_initial_parts(s0, records, 0, config.max_leaf_bytes);
        store::lemma_joined_parts(
            s0,
            records,
            cut,
            config.max_leaf_bytes,
            0,
            records.len() as int,
        );
        store::lemma_leaves_written(s0, s1, refs, records, parts, 0);
        steps::lemma_leaf_refs(s0, s1, refs, records, parts, 0);
    }
    let (mut children, bytes) = merge::take_refs(written);
    node::fence(&mut children, 0);
    let level = Level { children, buffer: Vec::new() };
    proof {
        let fenced = views::all(level.children@);
        assert forall|i: int| 0 <= i < fenced.len() implies (#[trigger] fenced[i]).height == 0
            && fenced[i].min_key >= 0 && fenced[i].num_keys > 0 by {
            assert(refs[i].height == 0);
        }
        assert(views::all(level.buffer@) =~= levels::no_mutations());
    }
    // Byte pressure matters even below the configured fanout ceiling: a
    // directory of long paths can overflow with very few children.
    match tree::lift_root(store, level, config) {
        Err(stop) => {
            proof {
                store::lemma_extends_lacks(s0, s1, stop);
                store::lemma_extends_transitive(s0, s1, store@);
            }
            Err(ungrouped(stop))
        },
        Ok((level, acc)) => {
            proof {
                store::lemma_extends_transitive(s0, s1, store@);
                store::lemma_booked_join(bytes, acc.io_bytes, s0, s1, store@);
                assert(views::all(level.buffer@) =~= levels::no_mutations());
                lemma_stands_for(
                    s0,
                    s1,
                    store@,
                    refs,
                    records,
                    parts,
                    views::all(level.children@),
                );
            }
            Ok(
                Built {
                    children: level.children,
                    total_rows,
                    visible_rows,
                    next_fragment_id,
                    io_bytes: bytes.saturating_add(acc.io_bytes),
                    num_leaves: leaves as u64,
                },
            )
        },
    }
}

/// A budget too narrow for a new tree's routing is reported as one that cannot
/// group references; there is no root to reduce yet.
fn ungrouped(stop: Stop) -> (r: Stop)
    ensures
        match stop {
            Stop::Fail(
                Error::InvalidInput { reason: Reason::RootCannotShrink { max_node_bytes, .. } },
            ) => r == Stop::Fail(
                Error::InvalidInput { reason: Reason::CannotGroup { max_node_bytes } },
            ),
            _ => r == stop,
        },
        r.halt() == grouping_halt(stop.halt()),
{
    match stop {
        Stop::Fail(
            Error::InvalidInput { reason: Reason::RootCannotShrink { max_node_bytes, width } },
        ) => Stop::Fail(Error::InvalidInput { reason: Reason::CannotGroup { max_node_bytes } }),
        other => other,
    }
}

/// A new tree prepared for publication.
pub struct Bootstrapped {
    pub tree: FragmentTree,
    /// What the first manifest says of the tree.
    pub snapshot: pb::FragmentMetadataTree,
    pub stats: BootstrapStats,
    /// The root to store under the identifier the snapshot names, where it is
    /// not in the snapshot.
    pub root: Option<FragmentMetadataRoot>,
}

/// A store that starts a new tree: under the tree's object limit, at the
/// first place in the commit order.
pub open spec fn founding(store: StoreView, config: FragmentMetadataTreeConfig) -> StoreView {
    StoreView {
        hard_capacity_bytes: config.hard_capacity_bytes,
        next_action_sequence: 1,
        ..store
    }
}

/// Why a new tree is refused before anything is written, where it is.
pub open spec fn bootstrap_fault(
    config: FragmentMetadataTreeConfig,
    fragments: Seq<FragmentView>,
) -> Option<Error> {
    let records = leaves::by_id(fragments);
    if leaves::repeated(fragments) {
        Some(
            Error::InvalidInput {
                reason: Reason::RepeatedFragment {
                    id: records[store::misordered(records, records.len() as int)->0].id,
                },
            },
        )
    } else if !config.valid() {
        Some(Error::InvalidInput { reason: config.reason() })
    } else {
        match initial_totals(records) {
            Err(error) => Some(error),
            Ok(_) => None,
        }
    }
}

/// A new tree over some fragments: a session at a version, the objects it
/// wrote, and what the manifest says of it.
pub open spec fn bootstrapped(
    before: StoreView,
    config: FragmentMetadataTreeConfig,
    fragments: Seq<FragmentView>,
    version: u64,
    policy: SnapshotPolicy,
    after: TreeView,
    snapshot: TreeDescriptor,
    stats: BootstrapStats,
    root: Option<RootView>,
) -> bool {
    let records = leaves::by_id(fragments);
    let root_bytes = match root {
        Some(root) => wire::capped(root.encoded_len()),
        None => 0,
    };
    &&& stands_for(founding(before, config), after.store, after.children, records)
    &&& after.store.extends(founding(before, config))
    &&& initial_totals(records) == Ok::<(u64, u64, u64), Error>(
        (after.total_rows, after.visible_rows, after.next_fragment_id),
    )
    &&& after.total_fragments == records.len()
    &&& after.config == config
    &&& after.version == version
    &&& after.next_action_sequence == 1
    &&& after.buffer == Seq::<MutationView>::empty()
    &&& after.snapshot == Some(snapshot)
    &&& !node::overflows(after.children, after.buffer, config)
    &&& checkpointed(after.root(), policy, snapshot, root_bytes, root)
    &&& wire::capped(after.root().encoded_len()) <= config.hard_capacity_bytes
    &&& after.store.bytes() >= before.bytes()
    &&& stats.io_write_bytes == merge::summed(
        wire::capped((after.store.bytes() - before.bytes()) as nat),
        root_bytes,
    )
    &&& stats.num_leaves == after.store.leaves.len() - before.leaves.len()
    &&& stats.height == node::max_height(after.children) + 1
}

/// Records in order that skip the order check ascend.
pub(crate) proof fn lemma_ordered(records: Seq<FragmentView>)
    requires
        leaves::in_order(records),
    ensures
        (store::misordered(records, records.len() as int) is None) == !leaves::repeated(records),
        store::misordered(records, records.len() as int) is None ==> store::ascending(records),
{
    let n = records.len() as int;
    if store::misordered(records, n) is None {
        store::lemma_misordered(records, n);
        assert(records.take(n) =~= records);
    } else {
        lemma_misordered_at(records, n);
    }
}

proof fn lemma_misordered_at(records: Seq<FragmentView>, n: int)
    requires
        leaves::in_order(records),
        0 <= n <= records.len(),
        store::misordered(records, n) is Some,
    ensures
        leaves::repeated(records),
    decreases n,
{
    if store::misordered(records, n - 1) is Some {
        lemma_misordered_at(records, n - 1);
    } else {
        assert(records[n - 2].id >= records[n - 1].id);
        assert(records[n - 2].id <= records[n - 1].id);
    }
}

/// Whether a new tree ends as building it does, under some paths for its
/// objects: with its error, or with its objects and its root.
pub open spec fn built_out(
    before: StoreView,
    config: FragmentMetadataTreeConfig,
    fragments: Seq<FragmentView>,
    out: Result<TreeView, Halt>,
) -> bool {
    exists|names: Names| #[trigger]
        names.fit(
            founding(before, config),
        ) && names.drawn(founding(before, config)) && match built_over(
            founding(before, config),
            names,
            leaves::by_id(fragments),
            config,
        ) {
            Err(halt) => out == Err::<TreeView, Halt>(halt),
            Ok((after, children, bytes, num_leaves)) => {
                let root = RootView {
                    children,
                    buffer: Seq::empty(),
                    next_action_sequence: 1,
                };
                match root_refusal(root, config.hard_capacity_bytes) {
                    Some(error) => out == Err::<TreeView, Halt>(Halt::Fail(error)),
                    None => out matches Ok(tree) && tree.store == after && tree.children
                        == children,
                }
            },
        }
}

impl FragmentTree {
    /// Build immutable leaves and routing without publishing a version.
    /// Publish the returned snapshot through the dataset's Version Manifest.
    /// A failed publication leaves only unreachable immutable objects.
    ///
    /// `store` keeps what it knows until the tree is built; the session then
    /// takes it over and leaves an empty one.
    pub fn bootstrap_snapshot(
        store: &mut NodeStore,
        config: FragmentMetadataTreeConfig,
        fragments: Vec<Fragment>,
        version: u64,
        policy: SnapshotPolicy,
    ) -> (r: Result<Bootstrapped, Stop>)
        ensures
            r is Err ==> final(store)@ == old(store)@,
            r matches Err(stop) ==> store::honest(stop, old(store)@) && !(stop is Collapsed),
            bootstrap_fault(config, views::all(fragments@)) matches Some(error) ==> r == Err::<
                Bootstrapped,
                Stop,
            >(Stop::Fail(error)),
            bootstrap_fault(config, views::all(fragments@)) is None ==> built_out(
                old(store)@,
                config,
                views::all(fragments@),
                match r {
                    Ok(done) => Ok(done.tree@),
                    Err(stop) => Err(stop.halt()),
                },
            ),
            r matches Ok(done) ==> done.tree@.wf() && bootstrapped(
                old(store)@,
                config,
                views::all(fragments@),
                version,
                policy,
                done.tree@,
                done.snapshot@,
                done.stats,
                views::opt(done.root),
            ),
    {
        let ghost before = store@;
        let ghost given = views::all(fragments@);
        let records = leaves::sort_by_id(fragments);
        proof {
            leaves::lemma_by_id(given);
            lemma_ordered(views::all(records@));
            leaves::lemma_by_id_from(given, 0);
        }
        if let Some(id) = NodeStore::check_order(&records) {
            return Err(
                Stop::Fail(Error::InvalidInput { reason: Reason::RepeatedFragment { id } }),
            );
        }
        match config.validate() {
            Ok(()) => {},
            Err(error) => {
                return Err(Stop::Fail(error));
            },
        }
        let nodes: usize = store.nodes.len();
        let leaves: usize = store.leaves.len();
        let capacity: u64 = store.hard_capacity_bytes;
        let sequence: u64 = store.next_action_sequence;
        let io_parallelism: usize = store.io_parallelism;
        let count: usize = records.len();
        store.hard_capacity_bytes = config.hard_capacity_bytes;
        store.next_action_sequence = 1;
        assert(store@ == founding(before, config));
        let ghost base = store@;
        let outcome = build(store, &config, &records);
        let ghost names = store::lemma_names_exist(base, store@);
        assert(names.fit(base));
        let built = match outcome {
            Ok(built) => built,
            Err(stop) => {
                store.rewind(nodes, leaves);
                store.hard_capacity_bytes = capacity;
                store.next_action_sequence = sequence;
                assert(store@ == before);
                return Err(stop);
            },
        };
        let tallest: u32 = tree::tallest(&built.children);
        let root = FragmentMetadataRoot {
            children: clone_children(&built.children),
            buffer: Vec::new(),
            next_action_sequence: 1,
        };
        let checked = if tallest == u32::MAX {
            Err(Error::CorruptFile { reason: Reason::HeightExceedsU32 })
        } else {
            checkpoint_root(root, config.hard_capacity_bytes, policy)
        };
        let done = match checked {
            Ok(done) => done,
            Err(error) => {
                store.rewind(nodes, leaves);
                store.hard_capacity_bytes = capacity;
                store.next_action_sequence = sequence;
                assert(store@ == before);
                return Err(Stop::Fail(error));
            },
        };
        let mut taken = NodeStore::new(io_parallelism);
        core::mem::swap(store, &mut taken);
        let tree = FragmentTree {
            store: taken,
            config,
            version,
            children: built.children,
            buffer: Vec::new(),
            next_action_sequence: 1,
            total_fragments: count as u64,
            total_rows: built.total_rows,
            next_fragment_id: built.next_fragment_id,
            visible_rows: built.visible_rows,
            snapshot: Some(done.snapshot.clone()),
        };
        Ok(
            Bootstrapped {
                tree,
                snapshot: done.snapshot,
                stats: BootstrapStats {
                    io_write_bytes: built.io_bytes.saturating_add(done.bytes),
                    num_leaves: built.num_leaves,
                    height: tallest + 1,
                },
                root: done.root,
            },
        )
    }
}

// Opening a tree.

/// A sum changed by deltas one after the other.
pub open spec fn carried(base: u64, deltas: Seq<i64>, name: Aggregate) -> Result<u64, Error>
    decreases deltas.len(),
{
    if deltas.len() == 0 {
        Ok(base)
    } else {
        match carried(base, deltas.drop_last(), name) {
            Err(error) => Err(error),
            Ok(sum) => node::changed(sum, deltas.last(), name),
        }
    }
}

proof fn lemma_carried_prefix(base: u64, deltas: Seq<i64>, n: int, name: Aggregate)
    requires
        0 <= n <= deltas.len(),
        carried(base, deltas.take(n), name) is Err,
    ensures
        carried(base, deltas, name) == carried(base, deltas.take(n), name),
    decreases deltas.len() - n,
{
    if n == deltas.len() {
        assert(deltas.take(n) =~= deltas);
    } else {
        assert(deltas.take(n + 1).drop_last() =~= deltas.take(n));
        lemma_carried_prefix(base, deltas, n + 1, name);
    }
}

fn carry(base: u64, deltas: &Vec<i64>, name: Aggregate) -> (r: Result<u64, Error>)
    ensures
        r == carried(base, deltas@, name),
{
    let mut sum: u64 = base;
    let mut i: usize = 0;
    while i < deltas.len()
        invariant
            i <= deltas@.len(),
            carried(base, deltas@.take(i as int), name) == Ok::<u64, Error>(sum),
        decreases deltas@.len() - i,
    {
        proof {
            assert(deltas@.take(i + 1).drop_last() =~= deltas@.take(i as int));
            if carried(base, deltas@.take(i + 1), name) is Err {
                lemma_carried_prefix(base, deltas@, i + 1, name);
            }
        }
        match node::apply_aggregate_delta(sum, deltas[i], name) {
            Ok(next) => {
                sum = next;
            },
            Err(error) => {
                return Err(error);
            },
        }
        i = i + 1;
    }
    assert(deltas@.take(deltas@.len() as int) =~= deltas@);
    Ok(sum)
}

fn mutation_columns(mutations: &Vec<FragmentMetadataMutation>) -> (r: (
    Vec<i64>,
    Vec<i64>,
    Vec<i64>,
))
    ensures
        r.0@ == squash::fragment_deltas(views::all(mutations@)),
        r.1@ == squash::row_deltas(views::all(mutations@)),
        r.2@ == squash::visible_deltas(views::all(mutations@)),
{
    let ghost all = views::all(mutations@);
    let mut fragments: Vec<i64> = Vec::new();
    let mut rows: Vec<i64> = Vec::new();
    let mut visible: Vec<i64> = Vec::new();
    let mut i: usize = 0;
    while i < mutations.len()
        invariant
            i <= mutations@.len(),
            all == views::all(mutations@),
            fragments@ =~= squash::fragment_deltas(all.take(i as int)),
            rows@ =~= squash::row_deltas(all.take(i as int)),
            visible@ =~= squash::visible_deltas(all.take(i as int)),
        decreases mutations@.len() - i,
    {
        fragments.push(mutations[i].fragment_count_delta);
        rows.push(mutations[i].total_rows_delta);
        visible.push(mutations[i].visible_rows_delta);
        i = i + 1;
    }
    assert(all.take(all.len() as int) =~= all);
    (fragments, rows, visible)
}

/// The root a descriptor starts from. One that is not in the descriptor is
/// handed over.
pub open spec fn base_root(
    snapshot: TreeDescriptor,
    stored: Option<RootView>,
    version: u64,
) -> Result<RootView, Error> {
    match snapshot.root {
        None => Err(Error::InvalidInput { reason: Reason::RootMissing { version } }),
        Some(RootBase::InlineRoot(root)) => if snapshot.mutations_since_root.len() > 0 {
            Err(Error::InvalidInput { reason: Reason::SuffixAfterInlineRoot { version } })
        } else {
            Ok(root)
        },
        Some(RootBase::RootUuid(identifier)) => if identifier.len() != 16 {
            Err(
                Error::CorruptFile {
                    reason: Reason::RootUuidLength { bytes: identifier.len() as u64 },
                },
            )
        } else {
            match stored {
                Some(root) => Ok(root),
                None => Err(Error::Internal { reason: Reason::RootNotLoaded { version } }),
            }
        },
    }
}

/// The totals of the tree a descriptor stands for, given the root it starts
/// from: fragments, physical rows and visible rows.
pub open spec fn opened_totals(
    root: RootView,
    snapshot: TreeDescriptor,
    version: u64,
    config: FragmentMetadataTreeConfig,
    next_fragment_id: u64,
) -> Result<(u64, u64, u64), Error> {
    let suffix = snapshot.mutations_since_root;
    let base = validation::root_totals(
        root.children,
        root.buffer,
        root.next_action_sequence,
        next_fragment_id,
    );
    let fault = validation::buffer_fault(
        suffix,
        suffix.len() as int,
        root.next_action_sequence,
        snapshot.next_action_sequence,
    );
    if base is Err {
        Err(base->Err_0)
    } else if fault is Some {
        Err(fault->0)
    } else if next_fragment_id > FRAGMENT_ID_END || (exists|i: int|
        0 <= i < suffix.len() && (#[trigger] suffix[i]).key() >= next_fragment_id) {
        Err(Error::CorruptFile { reason: Reason::SnapshotFrontier { version } })
    } else if snapshot.next_action_sequence < root.next_action_sequence {
        Err(
            Error::InvalidInput {
                reason: Reason::SequenceBelowRoot {
                    version,
                    next_action_sequence: snapshot.next_action_sequence,
                    root_next_action_sequence: root.next_action_sequence,
                },
            },
        )
    } else {
        let fragments = carried(
            base->Ok_0.0,
            squash::fragment_deltas(suffix),
            Aggregate::Fragments,
        );
        let rows = carried(base->Ok_0.1, squash::row_deltas(suffix), Aggregate::PhysicalRows);
        let visible = carried(
            base->Ok_0.2,
            squash::visible_deltas(suffix),
            Aggregate::DerivedVisibleRows,
        );
        if fragments is Err {
            Err(fragments->Err_0)
        } else if rows is Err {
            Err(rows->Err_0)
        } else if visible is Err {
            Err(visible->Err_0)
        } else if visible->Ok_0 > rows->Ok_0 {
            Err(
                Error::CorruptFile {
                    reason: Reason::DerivedVisibleExceedsPhysical {
                        visible_rows: visible->Ok_0,
                        total_rows: rows->Ok_0,
                        version,
                    },
                },
            )
        } else if !config.valid() {
            Err(Error::InvalidInput { reason: config.reason() })
        } else {
            Ok((fragments->Ok_0, rows->Ok_0, visible->Ok_0))
        }
    }
}

/// Whether a session is what a descriptor opens as.
pub open spec fn opened(
    root: RootView,
    snapshot: TreeDescriptor,
    version: u64,
    config: FragmentMetadataTreeConfig,
    next_fragment_id: u64,
    io_parallelism: usize,
    after: TreeView,
) -> bool {
    &&& opened_totals(root, snapshot, version, config, next_fragment_id) == Ok::<
        (u64, u64, u64),
        Error,
    >((after.total_fragments, after.total_rows, after.visible_rows))
    &&& after.store == (StoreView {
        nodes: Seq::empty(),
        leaves: Seq::empty(),
        headers: Seq::empty(),
        rows: Seq::empty(),
        sizes: Seq::empty(),
        next_action_sequence: snapshot.next_action_sequence,
        hard_capacity_bytes: config.hard_capacity_bytes,
        io_parallelism,
    })
    &&& after.config == config
    &&& after.version == version
    &&& after.children == root.children
    &&& squash::normalized(root.buffer + snapshot.mutations_since_root, after.buffer)
    &&& after.next_action_sequence == snapshot.next_action_sequence
    &&& after.next_fragment_id == next_fragment_id
    &&& after.snapshot == Some(snapshot)
}

fn find_base(
    snapshot: &pb::FragmentMetadataTree,
    stored: Option<FragmentMetadataRoot>,
    version: u64,
) -> (r: Result<FragmentMetadataRoot, Error>)
    ensures
        match base_root(snapshot@, views::opt(stored), version) {
            Ok(root) => r is Ok && r->Ok_0@ == root,
            Err(error) => r == Err::<FragmentMetadataRoot, Error>(error),
        },
{
    match &snapshot.root {
        None => Err(Error::InvalidInput { reason: Reason::RootMissing { version } }),
        Some(Root::InlineRoot(root)) => {
            if snapshot.mutations_since_root.len() > 0 {
                Err(Error::InvalidInput { reason: Reason::SuffixAfterInlineRoot { version } })
            } else {
                Ok(root.clone())
            }
        },
        Some(Root::RootUuid(identifier)) => match paths::root_path(identifier) {
            Err(error) => Err(error),
            Ok(_) => match stored {
                Some(root) => Ok(root),
                None => Err(Error::Internal { reason: Reason::RootNotLoaded { version } }),
            },
        },
    }
}

fn derive_totals(
    root: &FragmentMetadataRoot,
    snapshot: &pb::FragmentMetadataTree,
    version: u64,
    config: &FragmentMetadataTreeConfig,
    next_fragment_id: u64,
) -> (r: Result<(u64, u64, u64), Error>)
    ensures
        r == opened_totals(root@, snapshot@, version, *config, next_fragment_id),
{
    let (fragments, rows, visible) = validation::root(root, next_fragment_id)?;
    validation::buffer(
        &snapshot.mutations_since_root,
        root.next_action_sequence,
        snapshot.next_action_sequence,
    )?;
    if next_fragment_id > FRAGMENT_ID_END || validation::names_beyond(
        &snapshot.mutations_since_root,
        next_fragment_id,
    ) {
        return Err(Error::CorruptFile { reason: Reason::SnapshotFrontier { version } });
    }
    if snapshot.next_action_sequence < root.next_action_sequence {
        return Err(
            Error::InvalidInput {
                reason: Reason::SequenceBelowRoot {
                    version,
                    next_action_sequence: snapshot.next_action_sequence,
                    root_next_action_sequence: root.next_action_sequence,
                },
            },
        );
    }
    let (fragment_deltas, row_deltas, visible_deltas) = mutation_columns(
        &snapshot.mutations_since_root,
    );
    let fragments: u64 = carry(fragments, &fragment_deltas, Aggregate::Fragments)?;
    let rows: u64 = carry(rows, &row_deltas, Aggregate::PhysicalRows)?;
    let visible: u64 = carry(visible, &visible_deltas, Aggregate::DerivedVisibleRows)?;
    if visible > rows {
        return Err(
            Error::CorruptFile {
                reason: Reason::DerivedVisibleExceedsPhysical {
                    visible_rows: visible,
                    total_rows: rows,
                    version,
                },
            },
        );
    }
    config.validate()?;
    Ok((fragments, rows, visible))
}

impl FragmentTree {
    /// Where the root of a published tree is stored, when the descriptor does
    /// not hold it.
    pub fn stored_root_path(snapshot: &pb::FragmentMetadataTree) -> (r: Result<
        Option<String>,
        Error,
    >)
        ensures
            match snapshot@.root {
                Some(RootBase::RootUuid(identifier)) => if identifier.len() == 16 {
                    r matches Ok(Some(path)) && path@ == paths::root_path_of(identifier)
                } else {
                    r == Err::<Option<String>, Error>(
                        Error::CorruptFile {
                            reason: Reason::RootUuidLength { bytes: identifier.len() as u64 },
                        },
                    )
                },
                _ => r == Ok::<Option<String>, Error>(None),
            },
    {
        match &snapshot.root {
            Some(Root::RootUuid(identifier)) => match paths::root_path(identifier) {
                Ok(path) => Ok(Some(path)),
                Err(error) => Err(error),
            },
            _ => Ok(None),
        }
    }

    /// Open fragment state using only a manifest descriptor and its named
    /// base. `version` comes from that same authoritative manifest, and
    /// `stored` is the root read from where the descriptor says it is.
    pub fn open_snapshot(
        snapshot: &pb::FragmentMetadataTree,
        stored: Option<FragmentMetadataRoot>,
        version: u64,
        config: FragmentMetadataTreeConfig,
        next_fragment_id: u64,
        io_parallelism: usize,
    ) -> (r: Result<FragmentTree, Error>)
        ensures
            match base_root(snapshot@, views::opt(stored), version) {
                Err(error) => r == Err::<FragmentTree, Error>(error),
                Ok(root) => match opened_totals(
                    root,
                    snapshot@,
                    version,
                    config,
                    next_fragment_id,
                ) {
                    Err(error) => r == Err::<FragmentTree, Error>(error),
                    Ok(_) => r is Ok && r->Ok_0@.wf() && opened(
                        root,
                        snapshot@,
                        version,
                        config,
                        next_fragment_id,
                        io_parallelism,
                        r->Ok_0@,
                    ),
                },
            },
    {
        let root = match find_base(snapshot, stored, version) {
            Ok(root) => root,
            Err(error) => {
                return Err(error);
            },
        };
        let ghost base = root@;
        let (total_fragments, total_rows, visible_rows) = match derive_totals(
            &root,
            snapshot,
            version,
            &config,
            next_fragment_id,
        ) {
            Ok(totals) => totals,
            Err(error) => {
                return Err(error);
            },
        };
        let mut store = NodeStore::new(io_parallelism);
        store.next_action_sequence = snapshot.next_action_sequence;
        store.hard_capacity_bytes = config.hard_capacity_bytes;
        let FragmentMetadataRoot { children, buffer, next_action_sequence } = root;
        let mut extended = buffer;
        extended.append(&mut clone_mutations(&snapshot.mutations_since_root));
        assert(views::all(extended@) == base.buffer + snapshot@.mutations_since_root);
        let buffer = squash::squash_buffer(extended);
        proof {
            let kids = base.children;
            validation::lemma_children_pass(
                kids,
                kids.len() as int,
                base.next_action_sequence,
                0,
            );
            if kids.len() > 0 {
                assert(!validation::child_invalid(kids, 0, base.next_action_sequence, 0));
                assert forall|i: int| 0 <= i < kids.len() implies (#[trigger] kids[i]).height
                    == kids[0].height && (kids[0].height == 0 ==> kids[i].num_keys > 0) by {
                    assert(!validation::child_invalid(kids, i, base.next_action_sequence, 0));
                }
                steps::lemma_max_height(kids, kids[0].height as int);
            }
        }
        Ok(
            FragmentTree {
                store,
                config,
                version,
                children,
                buffer,
                next_action_sequence: snapshot.next_action_sequence,
                total_fragments,
                total_rows,
                next_fragment_id,
                visible_rows,
                snapshot: Some(snapshot.clone()),
            },
        )
    }
}

} // verus!
