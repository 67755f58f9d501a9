//! Whole sessions: bootstrapping, committing, reading and reopening trees over
//! a store kept in memory.

use std::collections::{BTreeMap, HashMap};

use fragment_tree::action;
use fragment_tree::commit::{TouchedFragments, ValidatedCommit};
use fragment_tree::error::{Error, Reason};
use fragment_tree::node::FragmentMetadataTreeConfig;
use fragment_tree::leaf;
use fragment_tree::leaf_reads::{Dataset, ForeignBase, HeaderBatch};
use fragment_tree::node::internal_logical_bytes;
use fragment_tree::node::{leaf_logical_bytes, leaf_ref};
use fragment_tree::partial::{StoredHeaders, StoredRow};
use fragment_tree::pb::{
    FragmentAction, FragmentMetadataChild, FragmentMetadataMutation, FragmentMetadataRoot,
    FragmentMetadataTree, Root,
};
use fragment_tree::record::{DataFile, DeletionFile, DeletionFileType, Fragment};
use fragment_tree::store::{LeafSize, NodeStore, Request, Stop, StoredLeaf, StoredNode};
use fragment_tree::tree::offset::OffsetResolution;
use fragment_tree::tree::publication::SnapshotPolicy;
use fragment_tree::tree::FragmentTree;
use fragment_tree::validation;

/// A data file path derived from an id and a salt.
fn data_file_path(id: u64, salt: u64) -> String {
    let mut bytes = [0u8; 16];
    let mut state = id
        .wrapping_mul(0x9E37_79B9_7F4A_7C15)
        .wrapping_add(salt.wrapping_mul(0xD1B5_4A32_D192_ED03));
    for chunk in bytes.chunks_mut(8) {
        state = state.wrapping_add(0x9E37_79B9_7F4A_7C15);
        let mut z = state;
        z = (z ^ (z >> 30)).wrapping_mul(0xBF58_476D_1CE4_E5B9);
        z = (z ^ (z >> 27)).wrapping_mul(0x94D0_49BB_1331_11EB);
        z ^= z >> 31;
        let n = chunk.len();
        chunk.copy_from_slice(&z.to_le_bytes()[..n]);
    }
    let mut stem = String::with_capacity(50);
    for &b in &bytes[..3] {
        for i in (0..8).rev() {
            stem.push(if (b >> i) & 1 == 1 { '1' } else { '0' });
        }
    }
    const HEX: &[u8; 16] = b"0123456789abcdef";
    for &b in &bytes[3..] {
        stem.push(HEX[(b >> 4) as usize] as char);
        stem.push(HEX[(b & 0xf) as usize] as char);
    }
    format!("data/{stem}.lance")
}

fn data_file(path: String, fields: Vec<i32>, column_indices: Vec<i32>, bytes: u64) -> DataFile {
    DataFile {
        path,
        fields,
        column_indices,
        file_major_version: 2,
        file_minor_version: 0,
        file_size_bytes: bytes,
        base_id: None,
    }
}

/// A fragment of one row with one data file of two columns.
fn make_fragment(id: u64) -> Fragment {
    let mut fragment = Fragment::new(id);
    fragment
        .files
        .push(data_file(data_file_path(id, 0), vec![0, 1], vec![0, 1], 1024));
    fragment.physical_rows = Some(1);
    fragment
}

/// The data file that adding a column attaches to a fragment.
fn make_backfill_data_file(frag_id: u64, col: u32) -> DataFile {
    data_file(
        data_file_path(frag_id, col as u64 + 1),
        vec![2 + col as i32],
        vec![0],
        4096,
    )
}

struct NodeCopy {
    object_size: u64,
    children: Vec<FragmentMetadataChild>,
    buffer: Vec<FragmentMetadataMutation>,
}

fn headers_of_leaf(
    child: &FragmentMetadataChild,
    object_size: u64,
    fragments: &Vec<Fragment>,
) -> StoredHeaders {
    let columns = leaf::encode(fragments).unwrap();
    StoredHeaders {
        path: child.path.clone(),
        base_id: child.base_id,
        object_size,
        num_rows: fragments.len() as u64,
        batches: vec![HeaderBatch::new(columns.ids, columns.headers)],
    }
}

fn row_of_leaf(child: &FragmentMetadataChild, row: u64, fragments: &[Fragment]) -> StoredRow {
    let one = vec![fragments[row as usize].clone()];
    StoredRow {
        path: child.path.clone(),
        base_id: child.base_id,
        row,
        fragments: leaf::decode(&leaf::encode(&one).unwrap()).unwrap(),
    }
}

/// Objects by their paths.
#[derive(Default)]
struct Disk {
    nodes: HashMap<String, NodeCopy>,
    leaves: HashMap<String, (u64, Vec<Fragment>)>,
    roots: HashMap<Vec<u8>, FragmentMetadataRoot>,
    /// Objects that were read, whole or in part.
    reads: usize,
    /// Leaves that were read whole.
    whole_leaves: usize,
}

impl Disk {
    fn keep(&mut self, store: &NodeStore, nodes_from: usize, leaves_from: usize) {
        for node in &store.nodes[nodes_from..] {
            self.nodes.insert(
                node.path.clone(),
                NodeCopy {
                    object_size: node.object_size,
                    children: node.children.clone(),
                    buffer: node.buffer.clone(),
                },
            );
        }
        for leaf in &store.leaves[leaves_from..] {
            self.leaves.insert(
                leaf.path.clone(),
                (leaf.object_size, leaf.fragments.clone()),
            );
        }
    }

    fn keep_root(&mut self, snapshot: &FragmentMetadataTree, root: Option<FragmentMetadataRoot>) {
        if let Some(root) = root {
            match snapshot.root.as_ref().unwrap() {
                Root::RootUuid(uuid) => {
                    self.roots.insert(uuid.clone(), root);
                }
                Root::InlineRoot(_) => panic!("an inline root is not stored"),
            }
        }
    }

    fn node(&mut self, child: &FragmentMetadataChild) -> StoredNode {
        self.reads += 1;
        let node = &self.nodes[&child.path];
        StoredNode {
            path: child.path.clone(),
            base_id: child.base_id,
            object_size: node.object_size,
            children: node.children.clone(),
            buffer: node.buffer.clone(),
        }
    }

    fn leaf(&mut self, child: &FragmentMetadataChild) -> StoredLeaf {
        self.reads += 1;
        self.whole_leaves += 1;
        let (object_size, fragments) = &self.leaves[&child.path];
        StoredLeaf {
            path: child.path.clone(),
            base_id: child.base_id,
            object_size: *object_size,
            fragments: fragments.clone(),
        }
    }

    fn headers(&mut self, child: &FragmentMetadataChild) -> StoredHeaders {
        self.reads += 1;
        let (object_size, fragments) = &self.leaves[&child.path];
        headers_of_leaf(child, *object_size, fragments)
    }

    /// A row of a leaf whose headers were read: the object is at hand.
    fn row(&self, child: &FragmentMetadataChild, row: u64) -> StoredRow {
        let (_, fragments) = &self.leaves[&child.path];
        row_of_leaf(child, row, fragments)
    }

    fn give(&mut self, tree: &mut FragmentTree, request: Request) {
        match request {
            Request::Node(child) => tree.load_node(self.node(&child)),
            Request::Leaf(child) => tree.load_leaf(self.leaf(&child)),
            Request::Headers(child) => tree.load_headers(self.headers(&child)),
            Request::Row(child, row) => tree.load_row(self.row(&child, row)),
            Request::LeafSize(fragments) => {
                let bytes = leaf_logical_bytes(&fragments);
                tree.load_size(LeafSize { fragments, bytes })
            }
        }
    }
}

/// Run an operation, handing over what it needs, until it is done or refused.
fn settle<T>(
    disk: &mut Disk,
    tree: &mut FragmentTree,
    mut operation: impl FnMut(&mut FragmentTree) -> Result<T, Stop>,
) -> Result<T, Error> {
    loop {
        match operation(tree) {
            Ok(value) => return Ok(value),
            Err(Stop::Need(request)) => disk.give(tree, request),
            Err(Stop::Fail(error)) => return Err(error),
            Err(Stop::Collapsed) => panic!("a collapse is repaired inside a commit"),
        }
    }
}

struct Session {
    disk: Disk,
    tree: FragmentTree,
    snapshot: FragmentMetadataTree,
    config: FragmentMetadataTreeConfig,
    policy: SnapshotPolicy,
    version: u64,
    /// How deep the last commit flushed and how often it split.
    deepest: u32,
    splits: u64,
}

fn small() -> FragmentMetadataTreeConfig {
    FragmentMetadataTreeConfig::new(1024, 4)
        .with_max_leaf_bytes(1024)
        .with_semantic_buffer_bytes(512)
        .with_hard_capacity_bytes(1 << 20)
}

fn tiny_roots() -> SnapshotPolicy {
    SnapshotPolicy {
        inline_root_bytes: 0,
        max_suffix_bytes: 600,
    }
}

impl Session {
    fn bootstrap(
        config: FragmentMetadataTreeConfig,
        fragments: Vec<Fragment>,
        policy: SnapshotPolicy,
    ) -> Result<Session, Error> {
        let mut store = NodeStore::new(4);
        let mut disk = Disk::default();
        loop {
            match fragment_tree::tree::publication::FragmentMetadataTree::bootstrap_snapshot(
                &mut store,
                config,
                fragments.clone(),
                1,
                policy,
            ) {
                Ok(made) => {
                    disk.keep(made.tree.objects(), 0, 0);
                    disk.keep_root(&made.snapshot, made.root);
                    return Ok(Session {
                        disk,
                        tree: made.tree,
                        snapshot: made.snapshot,
                        config,
                        policy,
                        version: 1,
                        deepest: 0,
                        splits: 0,
                    });
                }
                Err(Stop::Need(Request::LeafSize(fragments))) => {
                    let bytes = leaf_logical_bytes(&fragments);
                    store.load_size(LeafSize { fragments, bytes });
                }
                Err(Stop::Need(_)) => panic!("a new tree reads nothing"),
                Err(Stop::Fail(error)) => return Err(error),
                Err(Stop::Collapsed) => panic!("a new tree cannot collapse"),
            }
        }
    }

    fn touched(&mut self, ids: &[u64]) -> TouchedFragments {
        let ids = ids.to_vec();
        settle(&mut self.disk, &mut self.tree, |tree| {
            tree.resolve_touched(&ids)
        })
        .unwrap()
    }

    fn commit(&mut self, actions: Vec<FragmentAction>, bulk: bool) -> Result<u64, Error> {
        let next = self.tree.next_fragment_id();
        let ids: Vec<u64> = actions
            .iter()
            .map(|action| action::target_frag_id(action).unwrap())
            .filter(|id| *id < next)
            .collect();
        let touched = self.touched(&ids);
        self.commit_touched(actions, &touched, bulk)
    }

    fn commit_touched(
        &mut self,
        actions: Vec<FragmentAction>,
        touched: &TouchedFragments,
        bulk: bool,
    ) -> Result<u64, Error> {
        let snapshot = self.snapshot.clone();
        let policy = self.policy;
        let prepared = settle(&mut self.disk, &mut self.tree, |tree| {
            tree.prepare_snapshot(
                ValidatedCommit::fragment_actions(actions.clone()),
                touched,
                &snapshot,
                policy,
                bulk,
            )
        })?;
        self.disk.keep(
            self.tree.objects(),
            prepared.nodes_from,
            prepared.leaves_from,
        );
        self.disk.keep_root(&prepared.snapshot, prepared.root);
        self.snapshot = prepared.snapshot;
        self.version += 1;
        self.deepest = prepared.stats.max_flush_depth;
        self.splits = prepared.stats.splits;
        Ok(prepared.stats.flushes)
    }

    /// Forget the session and open its snapshot again.
    fn reopen(&mut self) {
        let stored = match self.snapshot.root.as_ref().unwrap() {
            Root::RootUuid(uuid) => Some(self.disk.roots[uuid].clone()),
            Root::InlineRoot(_) => None,
        };
        self.tree = fragment_tree::tree::publication::FragmentMetadataTree::open_snapshot(
            &self.snapshot,
            stored,
            self.version,
            self.config,
            self.tree.next_fragment_id(),
            4,
        )
        .unwrap();
    }

    fn materialize(&mut self) -> Vec<Fragment> {
        settle(&mut self.disk, &mut self.tree, |tree| tree.materialize()).unwrap()
    }

    fn walk(&mut self, lower: u64) -> Vec<Fragment> {
        settle(&mut self.disk, &mut self.tree, |tree| {
            let mut walk = tree.start_walk_from(lower);
            let mut out = Vec::new();
            while let Some(fragment) = tree.walk_next(&mut walk)? {
                out.push(fragment);
            }
            Ok(out)
        })
        .unwrap()
    }

    fn resolve(&mut self, id: u64) -> Option<Fragment> {
        settle(&mut self.disk, &mut self.tree, |tree| tree.resolve_fragment(id)).unwrap()
    }

    fn at(&mut self, offset: u64) -> OffsetResolution {
        settle(&mut self.disk, &mut self.tree, |tree| {
            tree.fragment_at_row_offset(offset)
        })
        .unwrap()
    }

    fn check(&mut self, expected: &BTreeMap<u64, Fragment>) {
        let all: Vec<Fragment> = expected.values().cloned().collect();
        assert_eq!(self.materialize(), all);
        assert_eq!(self.walk(0), all);
        assert_eq!(self.tree.count_fragments(), all.len() as u64);
        let rows: u64 = all.iter().map(|f| f.physical_rows.unwrap() as u64).sum();
        let visible: u64 = all.iter().map(|f| f.num_rows().unwrap() as u64).sum();
        assert_eq!(self.tree.count_rows(), rows);
        assert_eq!(self.tree.count_visible_rows(), visible);
        settle(&mut self.disk, &mut self.tree, |tree| tree.verify_watermarks()).unwrap();
        settle(&mut self.disk, &mut self.tree, |tree| tree.verify_reachable()).unwrap();
    }

    fn check_reads(&mut self, expected: &BTreeMap<u64, Fragment>, rng: &mut Rng) {
        let next = self.tree.next_fragment_id();
        for _ in 0..8 {
            let id = rng.range(next + 2);
            assert_eq!(self.resolve(id), expected.get(&id).cloned());
            let tail: Vec<Fragment> = expected.range(id..).map(|(_, f)| f.clone()).collect();
            assert_eq!(self.walk(id), tail);
        }
        let ids: Vec<u32> = (0..6).map(|_| rng.range(next + 2) as u32).collect();
        let set = roaring::RoaringBitmap::from_iter(ids.iter().copied());
        let wanted: Vec<Fragment> = expected
            .values()
            .filter(|f| set.contains(f.id as u32))
            .cloned()
            .collect();
        assert_eq!(
            settle(&mut self.disk, &mut self.tree, |tree| tree.resolve_fragments(&set)).unwrap(),
            wanted
        );
        assert_eq!(
            settle(&mut self.disk, &mut self.tree, |tree| tree
                .resolve_fragments_concurrent(&set, 3))
            .unwrap(),
            wanted
        );
        let visible = self.tree.count_visible_rows();
        for _ in 0..4 {
            let offset = rng.range(visible + 2);
            let mut left = offset;
            let mut wanted = OffsetResolution::BeyondEnd;
            for fragment in expected.values() {
                let rows = fragment.num_rows().unwrap() as u64;
                if left < rows {
                    wanted = OffsetResolution::Found(Box::new(fragment.clone()), left);
                    break;
                }
                left -= rows;
            }
            assert_eq!(self.at(offset), wanted);
        }
    }
}

/// Deterministic splitmix64.
struct Rng(u64);

impl Rng {
    fn next(&mut self) -> u64 {
        self.0 = self.0.wrapping_add(0x9E37_79B9_7F4A_7C15);
        let mut z = self.0;
        z = (z ^ (z >> 30)).wrapping_mul(0xBF58_476D_1CE4_E5B9);
        z = (z ^ (z >> 27)).wrapping_mul(0x94D0_49BB_1331_11EB);
        z ^ (z >> 31)
    }

    fn range(&mut self, n: u64) -> u64 {
        self.next() % n
    }
}

fn with_rows(id: u64, rows: usize) -> Fragment {
    make_fragment(id).with_physical_rows(rows)
}

fn deletion(rows: usize) -> DeletionFile {
    DeletionFile {
        read_version: 1,
        id: 9,
        file_type: DeletionFileType::Bitmap,
        num_deleted_rows: Some(rows),
        base_id: None,
    }
}

fn random_commit(
    expected: &mut BTreeMap<u64, Fragment>,
    next: u64,
    rng: &mut Rng,
    shrinking: bool,
) -> Vec<FragmentAction> {
    let mut actions = Vec::new();
    let mut allocated = next;
    let count = 1 + rng.range(6);
    for step in 0..count {
        let choice = rng.range(10);
        let ids: Vec<u64> = expected.keys().copied().collect();
        if ids.is_empty() || (!shrinking && choice < 4) || (shrinking && choice < 1) {
            let fragment = with_rows(allocated, 1 + rng.range(50) as usize);
            actions.push(action::add_fragment(&fragment));
            expected.insert(allocated, fragment);
            allocated += 1;
            continue;
        }
        let id = ids[rng.range(ids.len() as u64) as usize];
        if (shrinking && choice < 8) || choice == 4 {
            actions.push(action::remove_fragment(id));
            expected.remove(&id);
        } else if choice < 7 {
            let file = make_backfill_data_file(id, step as u32 + rng.range(1000) as u32);
            actions.push(action::add_data_file(id, &file));
            expected.get_mut(&id).unwrap().files.push(file);
        } else if choice < 9 {
            let rows = expected[&id].physical_rows.unwrap();
            let file = deletion(rng.range(rows as u64 + 1) as usize);
            actions.push(action::add_deletion_file(id, &file));
            expected.get_mut(&id).unwrap().deletion_file = Some(file);
        } else {
            actions.push(action::clear_deletion_file(id));
            expected.get_mut(&id).unwrap().deletion_file = None;
        }
    }
    actions
}

fn run(seed: u64, commits: usize, bulk_every: usize, policy: SnapshotPolicy) {
    let mut rng = Rng(seed);
    let initial: Vec<Fragment> = (0..rng.range(40))
        .map(|id| with_rows(id, 1 + rng.range(20) as usize))
        .collect();
    let mut expected: BTreeMap<u64, Fragment> =
        initial.iter().map(|f| (f.id, f.clone())).collect();
    let mut session = Session::bootstrap(small(), initial, policy).unwrap();
    session.check(&expected);
    for round in 0..commits {
        let shrinking = round * 3 > commits * 2;
        let actions = random_commit(
            &mut expected,
            session.tree.next_fragment_id(),
            &mut rng,
            shrinking,
        );
        let bulk = bulk_every > 0 && round % bulk_every == bulk_every - 1;
        session.commit(actions, bulk).unwrap();
        session.check(&expected);
        if round % 5 == 4 {
            session.reopen();
            session.check(&expected);
            session.check_reads(&expected, &mut rng);
        }
    }
}

#[test]
fn commits_read_back_over_deep_trees() {
    for seed in 0..6 {
        run(seed * 31 + 5, 60, 0, tiny_roots());
    }
}

#[test]
fn bulk_commits_read_back_as_well() {
    for seed in 0..4 {
        run(seed * 17 + 3, 40, 4, tiny_roots());
    }
}

#[test]
fn inline_roots_read_back() {
    for seed in 0..3 {
        run(seed * 101 + 11, 40, 7, SnapshotPolicy::default());
    }
}

#[test]
fn a_root_for_every_commit_reads_back() {
    let policy = SnapshotPolicy {
        inline_root_bytes: 0,
        max_suffix_bytes: 0,
    };
    run(77, 30, 0, policy);
}

#[test]
fn trees_grow_levels_and_lose_them_again() {
    let fragments: Vec<Fragment> = (0..200).map(|id| with_rows(id, 1)).collect();
    let mut expected: BTreeMap<u64, Fragment> =
        fragments.iter().map(|f| (f.id, f.clone())).collect();
    let mut session = Session::bootstrap(small(), fragments, tiny_roots()).unwrap();
    let tall = session.tree.height();
    assert!(tall >= 3, "height {tall}");
    for chunk in 0..20u64 {
        let mut actions = Vec::new();
        for id in chunk * 10..chunk * 10 + 10 {
            if id != 137 {
                actions.push(action::remove_fragment(id));
                expected.remove(&id);
            }
        }
        session.commit(actions, false).unwrap();
        session.check(&expected);
    }
    session.reopen();
    session.check(&expected);
    assert_eq!(expected.len(), 1);
    assert!(session.tree.height() < tall);
    let report = settle(&mut session.disk, &mut session.tree, |tree| tree.shape_report()).unwrap();
    assert_eq!(report.height, session.tree.height());
}

#[test]
fn refused_commits_change_nothing() {
    let fragments: Vec<Fragment> = (0..20).map(|id| with_rows(id, 2)).collect();
    let expected: BTreeMap<u64, Fragment> =
        fragments.iter().map(|f| (f.id, f.clone())).collect();
    let mut session = Session::bootstrap(small(), fragments, tiny_roots()).unwrap();
    let snapshot = session.snapshot.clone();

    let error = session
        .commit_touched(
            vec![action::remove_fragment(3)],
            &TouchedFragments::default(),
            false,
        )
        .unwrap_err();
    assert_eq!(
        error,
        Error::InvalidInput {
            reason: Reason::UnresolvedFragment { id: 3 }
        }
    );
    let touched = session.touched(&[3]);
    let error = session
        .commit_touched(
            vec![FragmentAction { action: None }],
            &touched,
            false,
        )
        .unwrap_err();
    assert_eq!(
        error,
        Error::InvalidInput {
            reason: Reason::EmptyAction
        }
    );
    let error = session
        .commit_touched(
            vec![action::add_data_file(25, &make_backfill_data_file(25, 0))],
            &touched,
            false,
        )
        .unwrap_err();
    assert!(error.message().contains("25"), "{}", error.message());
    assert_eq!(session.snapshot, snapshot);
    session.check(&expected);
    session.commit(vec![action::remove_fragment(3)], false).unwrap();
    let mut left = expected;
    left.remove(&3);
    session.check(&left);
}

#[test]
fn a_point_read_loads_one_path() {
    let fragments: Vec<Fragment> = (0..200).map(|id| with_rows(id, 1)).collect();
    let mut session = Session::bootstrap(small(), fragments, tiny_roots()).unwrap();
    session.reopen();
    session.disk.reads = 0;
    assert_eq!(session.resolve(123).unwrap().id, 123);
    assert_eq!(session.disk.reads, session.tree.height() as usize);
    assert_eq!(session.disk.whole_leaves, 0);
    assert_eq!(session.resolve(123).unwrap().id, 123);
    assert_eq!(session.disk.reads, session.tree.height() as usize);
    session.reopen();
    session.disk.reads = 0;
    match session.at(123) {
        OffsetResolution::Found(fragment, 0) => assert_eq!(fragment.id, 123),
        other => panic!("unexpected {other:?}"),
    }
    assert_eq!(session.disk.reads, session.tree.height() as usize);
}

#[test]
fn bootstrap_refuses_bad_fragments() {
    let error = Session::bootstrap(
        small(),
        vec![with_rows(1, 1), with_rows(1, 2)],
        SnapshotPolicy::default(),
    )
    .err()
    .unwrap();
    assert_eq!(
        error,
        Error::InvalidInput {
            reason: Reason::RepeatedFragment { id: 1 }
        }
    );
    let mut unknown = with_rows(1, 1);
    unknown.physical_rows = None;
    let error = Session::bootstrap(small(), vec![unknown], SnapshotPolicy::default())
        .err()
        .unwrap();
    assert!(
        error.message().contains("physical row count"),
        "{}",
        error.message()
    );
    let mut config = small();
    config.max_children_per_node = 0;
    let error = Session::bootstrap(config, vec![], SnapshotPolicy::default())
        .err()
        .unwrap();
    assert!(
        error.message().contains("config is invalid"),
        "{}",
        error.message()
    );
}

#[test]
fn corrupt_objects_are_refused() {
    let fragments: Vec<Fragment> = (0..60).map(|id| with_rows(id, 1)).collect();
    let mut session = Session::bootstrap(small(), fragments, tiny_roots()).unwrap();
    session.reopen();
    for (_, fragments) in session.disk.leaves.values_mut() {
        fragments[0].physical_rows = Some(5);
    }
    let error = settle(&mut session.disk, &mut session.tree, |tree| {
        tree.resolve_fragment(7)
    })
    .unwrap_err();
    assert_eq!(
        error,
        Error::CorruptFile {
            reason: Reason::LeafHeadersDiffer {
                keys: 7,
                first_id: Some(6),
                total_rows: 11,
                visible_rows: 11,
                num_keys: 7,
                min_key: 6,
                declared_total_rows: 7,
                declared_visible_rows: 7,
            }
        }
    );
    let error = settle(&mut session.disk, &mut session.tree, |tree| tree.materialize()).unwrap_err();
    assert_eq!(
        error,
        Error::CorruptFile {
            reason: Reason::LeafContentsDiffer
        }
    );
}

#[test]
fn an_empty_table_has_no_rows() {
    let mut session = Session::bootstrap(small(), vec![], SnapshotPolicy::default()).unwrap();
    session.check(&BTreeMap::new());
    assert_eq!(session.at(0), OffsetResolution::BeyondEnd);
    assert_eq!(session.resolve(0), None);
    let added: Vec<FragmentAction> = (0..30)
        .map(|id| action::add_fragment(&with_rows(id, 3)))
        .collect();
    session.commit(added, false).unwrap();
    session.reopen();
    match session.at(5) {
        OffsetResolution::Found(fragment, 2) => assert_eq!(fragment.id, 1),
        other => panic!("unexpected {other:?}"),
    }
}

// Trees whose stored state does not add up.

/// Inline roots for whatever fits.
fn inline_roots() -> SnapshotPolicy {
    SnapshotPolicy::default()
}

fn eager() -> FragmentMetadataTreeConfig {
    FragmentMetadataTreeConfig::default().with_semantic_buffer_bytes(1)
}

fn session_of(count: u64, config: FragmentMetadataTreeConfig, policy: SnapshotPolicy) -> Session {
    Session::bootstrap(config, (0..count).map(make_fragment).collect(), policy).unwrap()
}

fn inline_root(snapshot: &mut FragmentMetadataTree) -> &mut FragmentMetadataRoot {
    match snapshot.root.as_mut().unwrap() {
        Root::InlineRoot(root) => root,
        Root::RootUuid(_) => panic!("expected an inline root"),
    }
}

fn tagged(place: u64, action: FragmentAction, delta: i64) -> FragmentMetadataMutation {
    FragmentMetadataMutation {
        action_sequence: place,
        action: Some(action),
        fragment_count_delta: delta,
        total_rows_delta: delta,
        visible_rows_delta: delta,
    }
}

/// Put mutations behind a snapshot's inline root.
fn buffer_behind(snapshot: &mut FragmentMetadataTree, actions: Vec<(FragmentAction, i64)>) {
    let root = inline_root(snapshot);
    for (action, delta) in actions {
        root.buffer.push(tagged(root.next_action_sequence, action, delta));
        root.next_action_sequence += 1;
    }
    snapshot.next_action_sequence = inline_root(snapshot).next_action_sequence;
}

fn open(
    session: &Session,
    snapshot: &FragmentMetadataTree,
    next_fragment_id: u64,
) -> Result<FragmentTree, Error> {
    let stored = match snapshot.root.as_ref().unwrap() {
        Root::RootUuid(uuid) => session.disk.roots.get(uuid).cloned(),
        Root::InlineRoot(_) => None,
    };
    FragmentTree::open_snapshot(
        snapshot,
        stored,
        session.version,
        session.config,
        next_fragment_id,
        4,
    )
}

/// Drain what a snapshot buffers by committing nothing.
fn drain_error(mut session: Session, snapshot: FragmentMetadataTree, next: u64) -> Error {
    session.tree = open(&session, &snapshot, next).unwrap();
    session.snapshot = snapshot;
    session
        .commit_touched(vec![], &TouchedFragments::default(), false)
        .unwrap_err()
}

#[test]
fn opened_counts_are_checked_against_children_and_pending_changes() {
    let checkpoint = SnapshotPolicy {
        inline_root_bytes: 0,
        max_suffix_bytes: 0,
    };
    let mut session = session_of(64, FragmentMetadataTreeConfig::default(), checkpoint);
    session.commit(vec![action::remove_fragment(0)], false).unwrap();
    assert_eq!(session.tree.root_buffer_len(), 1);
    session.policy.max_suffix_bytes = 1024;
    session.commit(vec![action::remove_fragment(1)], false).unwrap();
    assert_eq!(session.snapshot.mutations_since_root.len(), 1);
    session.reopen();
    assert_eq!(
        session.materialize(),
        (2..64).map(make_fragment).collect::<Vec<_>>()
    );
    for (at, count) in ["Fragments", "physical rows", "visible rows"].iter().enumerate() {
        let mut snapshot = session.snapshot.clone();
        let mutation = &mut snapshot.mutations_since_root[0];
        match at {
            0 => mutation.fragment_count_delta = -999,
            1 => mutation.total_rows_delta = -999,
            _ => mutation.visible_rows_delta = -999,
        }
        let error = open(&session, &snapshot, session.tree.next_fragment_id())
            .err()
            .unwrap();
        assert!(matches!(error, Error::InvalidInput { .. }), "{error:?}");
        assert!(error.message().contains(count), "{}", error.message());
    }
}

#[test]
fn sequence_zero_is_rejected_on_open() {
    let refused = |opened: Result<FragmentTree, Error>| {
        let error = opened.err().expect("sequence 0 must not open");
        assert!(
            matches!(error, Error::CorruptFile { .. } | Error::InvalidInput { .. }),
            "{error:?}"
        );
    };
    let session = session_of(4, FragmentMetadataTreeConfig::default(), inline_roots());
    let next = session.tree.next_fragment_id();
    let mut original = session.snapshot.clone();
    let root = inline_root(&mut original).clone();
    assert_eq!(root.next_action_sequence, 1);
    assert_eq!(root.children[0].materialized_through_action_sequence, 0);
    let zero = tagged(0, action::remove_fragment(1), -1);

    let mut suffix = session.snapshot.clone();
    suffix.mutations_since_root = vec![zero.clone()];
    suffix.next_action_sequence = 1;
    refused(open(&session, &suffix, next));

    let mut stored = suffix.clone();
    stored.root = Some(Root::RootUuid(vec![7; 16]));
    let mut with_root = session_of(4, FragmentMetadataTreeConfig::default(), inline_roots());
    with_root.disk.roots.insert(vec![7; 16], root.clone());
    refused(open(&with_root, &stored, next));

    let mut buffered = session.snapshot.clone();
    inline_root(&mut buffered).buffer = vec![zero];
    refused(open(&session, &buffered, next));

    let mut unplaced = session.snapshot.clone();
    inline_root(&mut unplaced).next_action_sequence = 0;
    unplaced.next_action_sequence = 0;
    refused(open(&session, &unplaced, next));
}

#[test]
fn drain_rejects_a_removal_of_a_fragment_the_leaf_lacks() {
    for creates in [true, false] {
        let mut session = session_of(8, eager(), inline_roots());
        session.commit(vec![action::remove_fragment(7)], true).unwrap();
        let mut snapshot = session.snapshot.clone();
        let root = inline_root(&mut snapshot);
        assert_eq!(root.children.len(), 1);
        assert_eq!(root.children[0].num_keys, 7);
        let mut actions: Vec<_> = (0..6)
            .chain([7])
            .map(|id| (action::remove_fragment(id), -1))
            .collect();
        if creates {
            actions.push((action::add_fragment(&make_fragment(8)), 1));
        }
        buffer_behind(&mut snapshot, actions);
        let error = drain_error(session, snapshot, 9);
        assert!(matches!(error, Error::CorruptFile { .. }), "{error:?}");
    }
}

#[test]
fn removals_do_not_drop_a_subtree_they_do_not_cover() {
    let config = FragmentMetadataTreeConfig::new(512, u32::MAX)
        .with_max_leaf_bytes(256)
        .with_semantic_buffer_bytes(1);
    let mut session = session_of(64, config, inline_roots());
    session.commit(vec![action::remove_fragment(0)], true).unwrap();
    let mut snapshot = session.snapshot.clone();
    let root = inline_root(&mut snapshot);
    assert!(root.children[0].height > 0);
    let end = root.children[1].min_key;
    assert_eq!(root.children[0].num_keys, end - 1);
    let actions = (0..end - 1)
        .map(|id| (action::remove_fragment(id), -1))
        .collect();
    buffer_behind(&mut snapshot, actions);
    let next = session.tree.next_fragment_id();
    let error = drain_error(session, snapshot, next);
    assert!(matches!(error, Error::CorruptFile { .. }), "{error:?}");
}

#[test]
fn drain_rejects_a_replacement_that_misstates_its_delta() {
    let mut session = session_of(8, eager(), inline_roots());
    session.commit(vec![action::remove_fragment(7)], true).unwrap();
    let mut snapshot = session.snapshot.clone();
    let root = inline_root(&mut snapshot);
    assert_eq!(root.children.len(), 1);
    assert_eq!(root.children[0].num_keys, 7);
    let actions = (0..6)
        .chain([7])
        .map(|id| {
            let mut fragment = make_fragment(id);
            fragment.files.push(make_backfill_data_file(id, 0));
            (action::add_fragment(&fragment), 0)
        })
        .collect();
    buffer_behind(&mut snapshot, actions);
    let next = session.tree.next_fragment_id();
    let error = drain_error(session, snapshot, next);
    assert!(matches!(error, Error::CorruptFile { .. }), "{error:?}");
}

/// The refusal of every way to read a fragment.
fn read_errors(session: &Session, snapshot: &FragmentMetadataTree, target: u64) -> Vec<Error> {
    let next = session.tree.next_fragment_id();
    let mut disk = Disk::default();
    disk.nodes = session
        .disk
        .nodes
        .iter()
        .map(|(path, node)| {
            let copy = NodeCopy {
                object_size: node.object_size,
                children: node.children.clone(),
                buffer: node.buffer.clone(),
            };
            (path.clone(), copy)
        })
        .collect();
    disk.leaves = session.disk.leaves.clone();
    let mut errors = Vec::new();
    let ids = roaring::RoaringBitmap::from_iter([target as u32]);
    for way in 0..6 {
        let mut tree = open(session, snapshot, next).unwrap();
        let error = settle(&mut disk, &mut tree, |tree| match way {
            0 => tree.resolve_fragment(target).map(|_| ()),
            1 => tree.resolve_fragments(&ids).map(|_| ()),
            2 => tree.resolve_touched(&vec![target]).map(|_| ()),
            3 => tree.materialize().map(|_| ()),
            4 => tree.fragment_at_row_offset(target).map(|_| ()),
            _ => {
                let mut walk = tree.start_walk_from(0);
                while tree.walk_next(&mut walk)?.is_some() {}
                Ok(())
            }
        });
        errors.push(error.err().expect("every read refuses"));
    }
    errors
}

#[test]
fn mutation_at_or_below_its_leaf_watermark_is_rejected() {
    let target = 4;
    for reset in [true, false] {
        let config = eager().with_max_leaf_bytes(4096);
        let mut session = session_of(8, config, inline_roots());
        let mut updated = make_fragment(target);
        for col in 0..3 {
            updated.files.push(make_backfill_data_file(target, col));
        }
        session.commit(vec![action::add_fragment(&updated)], true).unwrap();
        let mut snapshot = session.snapshot.clone();
        let root = inline_root(&mut snapshot);
        let at = fragment_tree::node::child_index_for(&root.children, target);
        let place = root.children[at].materialized_through_action_sequence;
        assert!(place >= 1);
        let stale = if reset {
            action::add_fragment(&updated)
        } else {
            action::clear_deletion_file(target)
        };
        root.buffer.push(tagged(place, stale, 0));
        for error in read_errors(&session, &snapshot, target) {
            assert!(matches!(error, Error::CorruptFile { .. }), "{error:?}");
            assert!(error.message().contains("watermark"), "{}", error.message());
        }
    }
}

#[test]
fn buffered_reset_with_a_misstated_delta_is_rejected() {
    let session = session_of(8, FragmentMetadataTreeConfig::default(), inline_roots());
    let target = 3;
    let mut snapshot = session.snapshot.clone();
    buffer_behind(
        &mut snapshot,
        vec![(action::add_fragment(&make_fragment(target)), 0)],
    );
    inline_root(&mut snapshot).buffer[0].fragment_count_delta = 1;
    for error in read_errors(&session, &snapshot, target) {
        assert!(matches!(error, Error::CorruptFile { .. }), "{error:?}");
    }
}

#[test]
fn budget_that_cannot_pair_child_references_is_refused() {
    let config = FragmentMetadataTreeConfig::new(200, 16).with_max_leaf_bytes(1);
    let error = Session::bootstrap(config, (0..4).map(make_fragment).collect(), inline_roots())
        .err()
        .unwrap();
    assert_eq!(
        error,
        Error::InvalidInput {
            reason: Reason::CannotGroup {
                max_node_bytes: 200
            }
        }
    );

    let mut session = session_of(2, config, inline_roots());
    let added = (2..4)
        .map(|id| action::add_fragment(&make_fragment(id)))
        .collect();
    let error = session.commit(added, false).unwrap_err();
    assert_eq!(
        error,
        Error::InvalidInput {
            reason: Reason::RootCannotShrink {
                max_node_bytes: 200,
                width: 4
            }
        }
    );
}

fn leaf_child(path: &str, id: u64, base_id: Option<u32>) -> FragmentMetadataChild {
    FragmentMetadataChild {
        path: path.to_string(),
        base_id,
        min_key: id,
        num_keys: 1,
        height: 0,
        num_children: 0,
        total_rows: 1,
        object_size: leaf_logical_bytes(&vec![make_fragment(id)]),
        materialized_through_action_sequence: 0,
        visible_rows: 1,
    }
}

fn over(children: Vec<FragmentMetadataChild>, next_action_sequence: u64) -> FragmentMetadataTree {
    FragmentMetadataTree {
        root: Some(Root::InlineRoot(FragmentMetadataRoot {
            children,
            buffer: vec![],
            next_action_sequence,
        })),
        mutations_since_root: vec![],
        next_action_sequence,
    }
}

fn dataset(store: usize, base: &str) -> Dataset {
    Dataset {
        store_prefix: "memory".to_string(),
        memory_store: Some(store),
        base: base.to_string(),
    }
}

fn check_resolved_owners(independent_stores: bool) {
    let session = session_of(0, FragmentMetadataTreeConfig::default(), inline_roots());
    let shared = "_bt/leaf/shared-name.lance";
    let local = "_bt/leaf/local-name.lance";
    let mut children = vec![
        leaf_child(shared, 0, Some(1)),
        leaf_child(shared, 1, Some(2)),
        leaf_child(local, 2, Some(4)),
    ];
    validation::children(&children, 1, 0).unwrap();
    let tree = open(&session, &over(children.clone(), 1), 3).unwrap();
    let own = dataset(0, "dataset");
    let known = |id: u32, dataset: &Dataset| ForeignBase {
        id,
        dataset: dataset.clone(),
    };
    let sources: Vec<Dataset> = (0..2)
        .map(|id| {
            if independent_stores {
                dataset(id + 1, "")
            } else {
                dataset(0, &format!("source-{id}"))
            }
        })
        .collect();
    let mut bases = vec![known(1, &sources[0]), known(2, &sources[1]), known(4, &own)];
    assert_eq!(tree.node_paths(&own, &bases).ok().unwrap().len(), 3);
    assert_eq!(
        tree.node_paths(&own, &bases).ok().unwrap(),
        vec![local.to_string(), shared.to_string(), shared.to_string()]
    );
    assert_eq!(
        tree.local_node_paths(&own, &bases).ok().unwrap(),
        vec![local.to_string()]
    );
    for child in &children {
        let owner = &bases
            .iter()
            .find(|known| Some(known.id) == child.base_id)
            .unwrap()
            .dataset;
        assert_eq!(
            tree.node_paths_owned_by(&own, &bases, owner).ok().unwrap(),
            vec![child.path.clone()]
        );
    }
    assert_eq!(
        tree.node_paths_owned_by(&own, &bases, &own).ok().unwrap(),
        vec![local.to_string()]
    );

    let unknown = tree.node_paths(&own, &vec![]).err().unwrap();
    assert!(matches!(
        unknown,
        Stop::Fail(Error::CorruptFile {
            reason: Reason::UnknownBase { base_id: 4 }
        })
    ));

    bases.push(known(3, &sources[0]));
    let mut alias = children[0].clone();
    alias.base_id = Some(3);
    alias.min_key = 3;
    children.push(alias);
    let tree = open(&session, &over(children.clone(), 1), 4).unwrap();
    match tree.node_paths(&own, &bases) {
        Err(Stop::Fail(error)) => {
            assert!(matches!(error, Error::InvalidInput { .. }), "{error:?}");
            assert!(
                error.message().contains("repeats resolved node"),
                "{}",
                error.message()
            );
        }
        _ => panic!("an alias names one object twice"),
    }

    children[3].base_id = Some(1);
    assert!(validation::children(&children, 1, 0).is_err());
}

#[test]
fn traversal_uses_resolved_owners() {
    check_resolved_owners(false);
    check_resolved_owners(true);
}

#[test]
fn traversal_inherits_owner_through_interior_nodes() {
    let session = session_of(0, FragmentMetadataTreeConfig::default(), inline_roots());
    let own = dataset(0, "dataset");
    let shared = "_bt/node/shared.node";
    let mut roots = Vec::new();
    let mut nodes = Vec::new();
    let mut bases = Vec::new();
    for owner in 1..=2u32 {
        let first = (owner as u64 - 1) * 2;
        let leaves: Vec<FragmentMetadataChild> = (first..first + 2)
            .map(|id| leaf_child(&format!("_bt/leaf/{id}.lance"), id, None))
            .collect();
        let object_size = internal_logical_bytes(&leaves, &vec![]);
        roots.push(FragmentMetadataChild {
            path: shared.to_string(),
            base_id: Some(owner),
            min_key: first,
            num_keys: 2,
            height: 1,
            num_children: 2,
            total_rows: 2,
            object_size,
            materialized_through_action_sequence: 0,
            visible_rows: 2,
        });
        nodes.push(StoredNode {
            path: shared.to_string(),
            base_id: Some(owner),
            object_size,
            children: leaves,
            buffer: vec![],
        });
        bases.push(ForeignBase {
            id: owner,
            dataset: dataset(0, &format!("source-{owner}")),
        });
    }
    let mut tree = open(&session, &over(roots.clone(), 1), 4).unwrap();
    for node in nodes {
        tree.load_node(node);
    }
    assert_eq!(tree.node_paths(&own, &bases).ok().unwrap().len(), 6);
    assert!(tree.local_node_paths(&own, &bases).ok().unwrap().is_empty());
    for (child, known) in roots.iter().zip(&bases) {
        let node = tree.objects().read_internal(child).ok().unwrap();
        assert!(node.children.iter().all(|leaf| leaf.base_id == child.base_id));
        let mut owned = vec![child.path.clone()];
        owned.extend(node.children.iter().map(|leaf| leaf.path.clone()));
        owned.sort();
        assert_eq!(
            tree.node_paths_owned_by(&own, &bases, &known.dataset).ok().unwrap(),
            owned
        );
    }
}

/// Fan-outs of interior nodes stay between two and the limit, and everything
/// reads back.
fn check_splits(path: &str) {
    let config = FragmentMetadataTreeConfig::new(300, 16).with_max_leaf_bytes(1);
    let (count, added) = match path {
        "bootstrap" => (7, 0),
        "bulk" => (4, 1),
        "interior" => (8, 7),
        _ => (4, 7),
    };
    let mut session = session_of(count, config, SnapshotPolicy::default());
    if path == "bootstrap" {
        assert_eq!(session.tree.objects().leaves.len(), 7);
    }
    if path == "interior" {
        assert!(session.tree.height() >= 2);
    }
    if added > 0 {
        let actions = (count..count + added)
            .map(|id| action::add_fragment(&make_fragment(id)))
            .collect();
        session.commit(actions, path == "bulk").unwrap();
        if path == "interior" {
            assert!(session.deepest > 0);
            assert!(session.splits > 0);
        }
    }
    session.reopen();
    assert_eq!(
        session.materialize(),
        (0..count + added).map(make_fragment).collect::<Vec<_>>()
    );
    settle(&mut session.disk, &mut session.tree, |tree| tree.verify_reachable()).unwrap();
    settle(&mut session.disk, &mut session.tree, |tree| tree.verify_watermarks()).unwrap();
    let report = settle(&mut session.disk, &mut session.tree, |tree| tree.shape_report()).unwrap();
    assert!(
        report.node_fanouts.iter().all(|fanout| (2..=16).contains(fanout)),
        "{:?}",
        report.node_fanouts
    );
}

#[test]
fn splits_never_persist_a_single_child_interior() {
    check_splits("bootstrap");
    check_splits("bulk");
    check_splits("buffered");
    check_splits("interior");
}

/// A tree of two interior nodes over five leaves, the first of which buffers
/// an action that the second one owns.
#[test]
fn an_action_outside_its_nodes_range_is_refused_in_bulk() {
    let mut session = session_of(5, eager(), inline_roots());
    let leaf = |ids: &[u64]| {
        let fragments: Vec<Fragment> = ids.iter().map(|id| make_fragment(*id)).collect();
        let mut child = leaf_child(&format!("_bt/leaf/{}.lance", ids[0]), ids[0], None);
        child.num_keys = ids.len() as u64;
        child.total_rows = ids.len() as u64;
        child.visible_rows = ids.len() as u64;
        child.object_size = leaf_logical_bytes(&fragments);
        (child, fragments)
    };
    let parts = [leaf(&[0]), leaf(&[1, 2]), leaf(&[3]), leaf(&[4])];
    for (child, fragments) in &parts {
        session
            .disk
            .leaves
            .insert(child.path.clone(), (child.object_size, fragments.clone()));
    }
    for misplaced in [true, false] {
        let mut interior = |name: &str, kids: &[usize], buffer: Vec<FragmentMetadataMutation>| {
            let children: Vec<FragmentMetadataChild> =
                kids.iter().map(|at| parts[*at].0.clone()).collect();
            let held: u64 = children.iter().map(|child| child.num_keys).sum();
            let keys = held + buffer.len() as u64;
            let object_size = internal_logical_bytes(&children, &buffer);
            let child = FragmentMetadataChild {
                path: format!("_bt/node/{name}.node"),
                base_id: None,
                min_key: children[0].min_key,
                num_keys: keys,
                height: 1,
                num_children: children.len() as u32,
                total_rows: keys,
                object_size,
                materialized_through_action_sequence: 0,
                visible_rows: keys,
            };
            session.disk.nodes.insert(
                child.path.clone(),
                NodeCopy {
                    object_size,
                    children,
                    buffer,
                },
            );
            child
        };
        let stray = if misplaced {
            vec![tagged(1, action::add_fragment(&make_fragment(3)), 1)]
        } else {
            vec![]
        };
        let left = interior("left", &[0, 1], stray);
        let right = interior("right", &[2, 3], vec![]);
        let mut snapshot = over(vec![left, right], 2);
        buffer_behind(&mut snapshot, vec![(action::remove_fragment(2), -1)]);
        let mut fresh = session_of(5, eager(), inline_roots());
        fresh.disk.nodes = session
            .disk
            .nodes
            .iter()
            .map(|(path, node)| {
                let copy = NodeCopy {
                    object_size: node.object_size,
                    children: node.children.clone(),
                    buffer: node.buffer.clone(),
                };
                (path.clone(), copy)
            })
            .collect();
        fresh.disk.leaves = session.disk.leaves.clone();
        fresh.tree = open(&fresh, &snapshot, 5).unwrap();
        fresh.snapshot = snapshot;
        let outcome = fresh.commit_touched(vec![], &TouchedFragments::default(), true);
        if misplaced {
            let error = outcome.unwrap_err();
            assert!(matches!(error, Error::CorruptFile { .. }), "{error:?}");
        } else {
            outcome.unwrap();
            assert_eq!(
                fresh.materialize(),
                [0, 1, 3, 4].map(make_fragment).to_vec()
            );
        }
    }
}

#[test]
fn a_tree_of_one_fragment_has_one_level() {
    let config = FragmentMetadataTreeConfig::new(512, u32::MAX)
        .with_max_leaf_bytes(1024)
        .with_semantic_buffer_bytes(1);
    let mut session = session_of(512, config, SnapshotPolicy::default());
    assert!(session.tree.height() > 1);
    let removed = (0..512)
        .filter(|id| *id != 300)
        .map(action::remove_fragment)
        .collect();
    session.commit(removed, false).unwrap();
    assert_eq!(session.tree.height(), 1);
    session.reopen();
    assert_eq!(session.materialize(), vec![make_fragment(300)]);
}

#[test]
fn a_commit_succeeds_after_one_that_was_refused() {
    let config = FragmentMetadataTreeConfig::new(200, 16).with_max_leaf_bytes(1);
    let mut session = session_of(2, config, inline_roots());
    let added = (2..4)
        .map(|id| action::add_fragment(&make_fragment(id)))
        .collect();
    session.commit(added, false).unwrap_err();
    session.commit(vec![action::remove_fragment(0)], false).unwrap();
    assert_eq!(session.materialize(), vec![make_fragment(1)]);
}

#[test]
fn objects_are_written_once() {
    let mut store = NodeStore::new(4);
    let fragments = vec![make_fragment(0)];
    assert!(matches!(
        store.write_leaf_at("_bt/leaf/a.lance".to_string(), &fragments, 3),
        Err(Stop::Need(Request::LeafSize(_)))
    ));
    store.load_size(LeafSize {
        fragments: fragments.clone(),
        bytes: 77,
    });
    let leaf = store
        .write_leaf_at("_bt/leaf/a.lance".to_string(), &fragments, 3)
        .ok()
        .unwrap();
    assert_eq!(leaf.io_bytes, 77);
    assert_eq!(leaf.child_ref.path, "_bt/leaf/a.lance");
    assert_eq!(leaf.child_ref.materialized_through_action_sequence, 3);
    assert!(matches!(
        store.write_leaf_at("_bt/leaf/a.lance".to_string(), &fragments, 3),
        Err(Stop::Fail(Error::Internal {
            reason: Reason::PathTaken
        }))
    ));
    assert_eq!(store.leaves.len(), 1);
    let drawn = store.write_leaf(&fragments, 4).ok().unwrap();
    assert!(drawn.child_ref.path.starts_with("_bt/leaf/"));
    assert_ne!(drawn.child_ref.path, leaf.child_ref.path);

    let children = vec![leaf.child_ref.clone()];
    let node = store
        .write_internal_at("_bt/node/a.node".to_string(), children.clone(), vec![])
        .ok()
        .unwrap();
    assert_eq!(node.child_ref.path, "_bt/node/a.node");
    assert_eq!(node.child_ref.height, 1);
    assert_eq!(node.io_bytes, internal_logical_bytes(&children, &vec![]));
    assert!(matches!(
        store.write_internal_at("_bt/node/a.node".to_string(), children.clone(), vec![]),
        Err(Stop::Fail(Error::Internal {
            reason: Reason::PathTaken
        }))
    ));
    let drawn = store.write_internal(children.clone(), vec![]).ok().unwrap();
    assert!(drawn.child_ref.path.starts_with("_bt/node/"));
    store.hard_capacity_bytes = node.io_bytes - 1;
    assert!(matches!(
        store.write_internal(children, vec![]),
        Err(Stop::Fail(Error::InvalidInput {
            reason: Reason::NodeTooLarge { .. }
        }))
    ));
    assert_eq!(store.nodes.len(), 2);
}

/// A store that knows a leaf by its headers, and the rows it is asked for.
fn read_point(
    store: &mut NodeStore,
    child: &FragmentMetadataChild,
    id: u64,
    object_size: u64,
    fragments: &Vec<Fragment>,
) -> Result<Option<Fragment>, Error> {
    loop {
        match store.read_leaf_fragment(child, id) {
            Ok(found) => return Ok(found),
            Err(Stop::Need(Request::Headers(wanted))) => {
                store.load_headers(headers_of_leaf(&wanted, object_size, fragments));
            }
            Err(Stop::Need(Request::Row(wanted, row))) => {
                store.load_row(row_of_leaf(&wanted, row, fragments));
            }
            Err(Stop::Fail(error)) => return Err(error),
            Err(_) => panic!("a point read needs headers and a row"),
        }
    }
}

fn whole_leaf(
    child: &FragmentMetadataChild,
    object_size: u64,
    fragments: &[Fragment],
) -> Result<Vec<Fragment>, Error> {
    let mut store = NodeStore::new(1);
    store.load_leaf(StoredLeaf {
        path: child.path.clone(),
        base_id: child.base_id,
        object_size,
        fragments: fragments.to_vec(),
    });
    match store.read_leaf(child) {
        Ok(fragments) => Ok(fragments),
        Err(Stop::Fail(error)) => Err(error),
        Err(_) => panic!("the leaf is known"),
    }
}

#[test]
fn point_reads_reject_references_whole_reads_reject() {
    let mut fragments: Vec<Fragment> = (0..4).map(make_fragment).collect();
    fragments[2].deletion_file = Some(DeletionFile {
        read_version: 1,
        id: 1,
        file_type: DeletionFileType::Bitmap,
        num_deleted_rows: Some(0),
        base_id: None,
    });
    let bytes = leaf_logical_bytes(&fragments);
    let child = leaf_ref("_bt/leaf/a.lance".to_string(), &fragments, bytes, 0).unwrap();
    let mut store = NodeStore::new(1);
    for fragment in &fragments {
        let point = read_point(&mut store, &child, fragment.id, bytes, &fragments).unwrap();
        assert_eq!(point.as_ref(), Some(fragment));
    }
    let missing = read_point(&mut store, &child, 4, bytes, &fragments).unwrap();
    assert!(missing.is_none());

    let tampers: [fn(&mut FragmentMetadataChild); 4] = [
        |child| child.num_keys += 1,
        |child| child.total_rows += 1,
        |child| child.visible_rows += 1,
        |child| child.min_key = 1,
    ];
    for tamper in tampers {
        let mut corrupt = child.clone();
        tamper(&mut corrupt);
        let whole = whole_leaf(&corrupt, bytes, &fragments).unwrap_err();
        let point = read_point(&mut store, &corrupt, 3, bytes, &fragments).unwrap_err();
        assert!(matches!(whole, Error::CorruptFile { .. }), "{whole:?}");
        assert!(matches!(point, Error::CorruptFile { .. }), "{point:?}");
    }

    let mut understated = child.clone();
    understated.object_size -= 1;
    for error in [
        whole_leaf(&understated, bytes, &fragments).unwrap_err(),
        read_point(&mut store, &understated, 3, bytes, &fragments).unwrap_err(),
    ] {
        assert_eq!(
            error,
            Error::CorruptFile {
                reason: Reason::LeafSize {
                    declared: bytes - 1,
                    found: bytes
                }
            }
        );
    }
}

#[test]
fn point_reads_inherit_the_owner_of_their_leaf() {
    let mut fragments: Vec<Fragment> = (0..2)
        .map(|id| {
            let mut fragment = make_fragment(id);
            fragment.files.push(make_backfill_data_file(id, 0));
            fragment
        })
        .collect();
    fragments[1].files[1].base_id = Some(9);
    let bytes = leaf_logical_bytes(&fragments);
    let mut child = leaf_ref("_bt/leaf/a.lance".to_string(), &fragments, bytes, 0).unwrap();
    child.base_id = Some(4);
    let expected = whole_leaf(&child, bytes, &fragments).unwrap();
    assert_eq!(expected[0].files[1].base_id, Some(4));
    assert_eq!(expected[1].files[1].base_id, Some(9));
    let mut store = NodeStore::new(1);
    for fragment in expected {
        let point = read_point(&mut store, &child, fragment.id, bytes, &fragments).unwrap();
        assert_eq!(point, Some(fragment));
    }
}

#[test]
fn a_point_read_does_not_decode_other_records() {
    let fragments: Vec<Fragment> = (0..4).map(make_fragment).collect();
    let bytes = leaf_logical_bytes(&fragments);
    let child = leaf_ref("_bt/leaf/a.lance".to_string(), &fragments, bytes, 0).unwrap();
    let mut store = NodeStore::new(1);
    store.load_headers(headers_of_leaf(&child, bytes, &fragments));
    // Row 1 holds another record than its header says.
    let mut damaged = fragments.clone();
    damaged[1] = make_fragment(9);
    store.load_row(row_of_leaf(&child, 1, &damaged));
    store.load_row(row_of_leaf(&child, 2, &damaged));
    assert_eq!(
        store.read_leaf_fragment(&child, 2).ok().unwrap(),
        Some(make_fragment(2))
    );
    match store.read_leaf_fragment(&child, 1) {
        Err(Stop::Fail(error)) => assert_eq!(
            error,
            Error::CorruptFile {
                reason: Reason::LeafRow { row: 1, id: 1 }
            }
        ),
        _ => panic!("the row is another fragment's"),
    }
}

#[test]
fn point_reads_match_whole_leaf_reads() {
    for leaf_bytes in [16 * 1024, 4 * 1024 * 1024] {
        let config = FragmentMetadataTreeConfig::default().with_max_leaf_bytes(leaf_bytes);
        let mut session = session_of(300, config, SnapshotPolicy::default());
        session.reopen();
        let whole = session.materialize();
        assert_eq!(whole.len(), 300);
        session.reopen();
        session.disk.whole_leaves = 0;
        for fragment in &whole {
            assert_eq!(session.resolve(fragment.id).as_ref(), Some(fragment));
        }
        assert!(session.resolve(300).is_none());
        assert_eq!(session.disk.whole_leaves, 0);
    }
}

#[test]
fn wholly_replaced_leaves_rebuild_from_record_headers() {
    let config = FragmentMetadataTreeConfig::default()
        .with_max_leaf_bytes(16 * 1024)
        .with_semantic_buffer_bytes(1);
    let mut session = session_of(256, config, SnapshotPolicy::default());
    let leaves = session.tree.root_child_count();
    assert!(leaves >= 2);
    assert_eq!(session.tree.height(), 1);
    let expected: Vec<Fragment> = (0..256)
        .map(|id| {
            let mut fragment = make_fragment(id);
            fragment.files.push(make_backfill_data_file(id, 0));
            fragment
        })
        .collect();
    let actions: Vec<FragmentAction> = expected.iter().map(action::add_fragment).collect();
    let ids: Vec<u64> = (0..256).collect();
    let touched = session.touched(&ids);
    session.reopen();
    session.disk.reads = 0;
    session.disk.whole_leaves = 0;
    session.commit_touched(actions, &touched, false).unwrap();
    assert_eq!(session.disk.reads, leaves as usize);
    assert_eq!(session.disk.whole_leaves, 0);
    session.reopen();
    let table: BTreeMap<u64, Fragment> = expected.into_iter().map(|f| (f.id, f)).collect();
    session.check(&table);
}

#[test]
fn drain_rejects_a_leaf_storing_keys_past_its_range_end() {
    let mut session = session_of(1, eager(), inline_roots());
    let mut children = Vec::new();
    for (at, ids) in [vec![0u64], vec![60, 150], vec![100, 120]].into_iter().enumerate() {
        let fragments: Vec<Fragment> = ids.into_iter().map(make_fragment).collect();
        let bytes = leaf_logical_bytes(&fragments);
        let path = format!("_bt/leaf/{at}.lance");
        children.push(leaf_ref(path.clone(), &fragments, bytes, 0).unwrap());
        session.disk.leaves.insert(path, (bytes, fragments));
    }
    // The middle leaf owns [50, 100) but stores 150, which its sibling's
    // range covers.
    children[1].min_key = 50;
    let mut snapshot = over(children, 1);
    // Enough inserts into the middle leaf's range that draining it pays.
    let actions = (61..91)
        .map(|id| (action::add_fragment(&make_fragment(id)), 1))
        .collect();
    buffer_behind(&mut snapshot, actions);
    let error = drain_error(session, snapshot, 151);
    assert_eq!(
        error,
        Error::CorruptFile {
            reason: Reason::RecordAboveEnd { id: 150, end: 100 }
        }
    );
}
