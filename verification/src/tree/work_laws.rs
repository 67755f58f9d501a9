//! What a commit reports of its work, and the shape it leaves a root in.

use vstd::prelude::*;

use crate::bulk;
use crate::drain;
use crate::merge;
use crate::merge::WriteAcc;
use crate::node;
use crate::node::FragmentMetadataTreeConfig;
use crate::pb::{ChildView, MutationView, TreeDescriptor};
use crate::policy_laws;
use crate::reading_laws;
use crate::record::FragmentView;
use crate::store::{Halt, Names, StoreView};
use crate::tree;
use crate::tree::publication;
use crate::tree::publication::{PreparedView, SnapshotPolicy, Staging};
use crate::tree::TreeView;

verus! {

/// The bytes of some objects.
pub open spec fn bytes_of(sizes: Seq<u64>) -> int {
    reading_laws::total(Seq::new(sizes.len(), |i: int| sizes[i] as int))
}

/// The bytes of every object that a store knows.
pub open spec fn object_bytes(known: StoreView) -> int {
    bytes_of(Seq::new(known.nodes.len(), |i: int| known.nodes[i].object_size)) + bytes_of(
        Seq::new(known.leaves.len(), |i: int| known.leaves[i].object_size),
    )
}

proof fn lemma_object_bytes(known: StoreView)
    ensures
        object_bytes(known) == known.bytes(),
{
    lemma_node_bytes(known.nodes);
    lemma_leaf_bytes(known.leaves);
}

proof fn lemma_node_bytes(nodes: Seq<crate::store::NodeView>)
    ensures
        bytes_of(Seq::new(nodes.len(), |i: int| nodes[i].object_size))
            == crate::store::node_bytes(nodes),
    decreases nodes.len(),
{
    let sizes = Seq::new(nodes.len(), |i: int| nodes[i].object_size);
    let ints = Seq::new(sizes.len(), |i: int| sizes[i] as int);
    if nodes.len() > 0 {
        let rest = nodes.drop_last();
        lemma_node_bytes(rest);
        let fewer = Seq::new(rest.len(), |i: int| rest[i].object_size);
        assert(ints.drop_last() =~= Seq::new(fewer.len(), |i: int| fewer[i] as int));
    }
}

proof fn lemma_leaf_bytes(leaves: Seq<crate::store::LeafView>)
    ensures
        bytes_of(Seq::new(leaves.len(), |i: int| leaves[i].object_size))
            == crate::store::leaf_bytes(leaves),
    decreases leaves.len(),
{
    let sizes = Seq::new(leaves.len(), |i: int| leaves[i].object_size);
    let ints = Seq::new(sizes.len(), |i: int| sizes[i] as int);
    if leaves.len() > 0 {
        let rest = leaves.drop_last();
        lemma_leaf_bytes(rest);
        let fewer = Seq::new(rest.len(), |i: int| rest[i].object_size);
        assert(ints.drop_last() =~= Seq::new(fewer.len(), |i: int| fewer[i] as int));
    }
}

/// A commit reports how many actions it took in, how much the root buffers
/// after it, and how high the tree is. The bytes it wrote are those of the
/// objects that were not known before and of a root that is stored on its own,
/// as far as they can be counted. What it has to store are the objects behind
/// those that were known.
pub proof fn law_commit_reports_its_work(
    before: TreeView,
    counters: Staging,
    fresh: Seq<MutationView>,
    previous: TreeDescriptor,
    policy: SnapshotPolicy,
    bulk: bool,
    pending: Seq<MutationView>,
    suffix: Seq<MutationView>,
    after: TreeView,
    out: PreparedView,
)
    requires
        publication::concluded(
            before,
            counters,
            fresh,
            previous,
            policy,
            bulk,
            pending,
            suffix,
            after,
            Ok(out),
        ),
    ensures
        out.stats.messages_in == fresh.len(),
        out.stats.root_buffer_len == after.buffer.len(),
        out.nodes_from == before.store.nodes.len(),
        out.leaves_from == before.store.leaves.len(),
        forall|i: int|
            0 <= i < after.children.len() ==> (#[trigger] after.children[i]).height
                < out.stats.height,
        out.stats.height == 1 || exists|i: int|
            0 <= i < after.children.len() && (#[trigger] after.children[i]).height + 1
                == out.stats.height,
        ({
            let stored = match out.root {
                Some(root) => root.encoded_len() as int,
                None => 0,
            };
            let written = object_bytes(after.store) - object_bytes(before.store) + stored;
            &&& object_bytes(after.store) >= object_bytes(before.store)
            &&& written <= u64::MAX ==> out.stats.tree_write_bytes == written
        }),
        out.stats.checkpoints == 0 || out.stats.checkpoints == 1,
{
    lemma_object_bytes(after.store);
    lemma_object_bytes(before.store);
    let base = publication::advanced_store(before.store, counters.next_action_sequence);
    assert(base.bytes() == before.store.bytes());
    reading_laws::lemma_max_height(after.children);
    let h = node::max_height(after.children);
    if h != 0 {
        let i = choose|i: int|
            0 <= i < after.children.len() && (#[trigger] after.children[i]).height == h;
        assert(after.children[i].height + 1 == out.stats.height);
    }
}

/// The work of two steps is the work of each, number by number, and the depth
/// is that of the deeper one.
pub proof fn law_work_adds_up(a: WriteAcc, b: WriteAcc)
    requires
        a.io_bytes + b.io_bytes <= u64::MAX,
        a.flushes + b.flushes <= u64::MAX,
        a.splits + b.splits <= u64::MAX,
        a.merges + b.merges <= u64::MAX,
        a.materialized + b.materialized <= u64::MAX,
        a.squashed + b.squashed <= u64::MAX,
    ensures
        ({
            let c = a.with(b);
            &&& c.io_bytes == a.io_bytes + b.io_bytes
            &&& c.flushes == a.flushes + b.flushes
            &&& c.splits == a.splits + b.splits
            &&& c.merges == a.merges + b.merges
            &&& c.materialized == a.materialized + b.materialized
            &&& c.squashed == a.squashed + b.squashed
            &&& c.max_flush_depth >= a.max_flush_depth
            &&& c.max_flush_depth >= b.max_flush_depth
            &&& c.max_flush_depth == a.max_flush_depth || c.max_flush_depth == b.max_flush_depth
        }),
{
}

/// Two neighbouring leaves of a materialization become one exactly where one of
/// them takes no more than a quarter of a leaf's target and both together no
/// more than three fifths, which counts as a merge.
pub proof fn law_neighbouring_leaves_join_where_one_is_small(
    p: bulk::Progress,
    names: Names,
    current: Option<Seq<FragmentView>>,
    config: FragmentMetadataTreeConfig,
    previous: Option<Seq<FragmentView>>,
    a: u64,
    b: u64,
    q: bulk::Progress,
)
    requires
        p.pending == Some(previous),
        bulk::pending_size(p.store, previous, p.level[p.from]) == Some(a),
        bulk::pending_size(p.store, current, p.level[p.next]) == Some(b),
        bulk::leaf_placed(p, names, current, config) == Ok::<bulk::Progress, Halt>(q),
        p.acc.merges < u64::MAX,
    ensures
        ({
            let joined = (a <= config.max_leaf_bytes / 4 || b <= config.max_leaf_bytes / 4) && a
                + b <= config.max_leaf_bytes * 3 / 5;
            &&& joined ==> q.acc.merges == p.acc.merges + 1
            &&& !joined ==> q.acc.merges == p.acc.merges
        }),
{
    reveal(bulk::leaf_placed);
}

/// A root whose routing was lifted is within its limits.
pub proof fn law_lifted_root_is_within_its_limits(
    known: StoreView,
    names: Names,
    children: Seq<ChildView>,
    buffer: Seq<MutationView>,
    config: FragmentMetadataTreeConfig,
    acc: WriteAcc,
)
    requires
        tree::root_lifted(known, names, children, buffer, config, acc) is Ok,
        children.len() <= u32::MAX,
    ensures
        ({
            let (_, kids, rest, _) = tree::root_lifted(
                known,
                names,
                children,
                buffer,
                config,
                acc,
            )->Ok_0;
            &&& kids.len() <= children.len()
            &&& !policy_laws::over_limits(kids, rest, config)
        }),
    decreases children.len(),
{
    reveal_with_fuel(tree::root_lifted, 2);
    policy_laws::law_node_overflows_at_its_limits(children, buffer, config);
    if node::overflows(children, buffer, config) {
        let budget = (config.max_node_bytes / 2) as u64;
        let most = config.max_children_per_node;
        let (after, refs, bytes) = merge::put_split(
            known,
            names,
            children,
            buffer,
            budget,
            most,
        )->Ok_0;
        law_lifted_root_is_within_its_limits(
            after,
            names,
            refs,
            crate::levels::no_mutations(),
            config,
            WriteAcc {
                io_bytes: merge::summed(acc.io_bytes, bytes),
                splits: merge::summed(acc.splits, 1),
                ..acc
            },
        );
    }
}

/// A root that is within its limits is not lifted.
pub proof fn law_root_within_its_limits_is_kept(
    known: StoreView,
    names: Names,
    children: Seq<ChildView>,
    buffer: Seq<MutationView>,
    config: FragmentMetadataTreeConfig,
    acc: WriteAcc,
)
    requires
        children.len() <= u32::MAX,
        !policy_laws::over_limits(children, buffer, config),
    ensures
        tree::root_lifted(known, names, children, buffer, config, acc) == Ok::<
            (StoreView, Seq<ChildView>, Seq<MutationView>, WriteAcc),
            Halt,
        >((known, children, buffer, acc)),
{
    reveal_with_fuel(tree::root_lifted, 2);
    policy_laws::law_node_overflows_at_its_limits(children, buffer, config);
}

/// The children of a root may become the root where there is only one, or where
/// their children are no more than a node may have and they take, with what the
/// root buffers, no more than three fifths of a node's target.
pub proof fn law_root_takes_in_what_fits(
    children: Seq<ChildView>,
    buffer: Seq<MutationView>,
    config: FragmentMetadataTreeConfig,
)
    requires
        node::buffer_len(buffer) < u64::MAX,
    ensures
        tree::may_join(children, buffer, config) == (children.len() <= 1 || (
        policy_laws::fan_of(children, 0, children.len() as int) <= config.max_children_per_node
            && node::buffer_len(buffer) + policy_laws::bytes_of(
            children,
            0,
            children.len() as int,
        ) <= config.max_node_bytes * 3 / 5)),
{
    lemma_fan_and_bytes(children, children.len() as int);
    assert(children.take(children.len() as int) =~= children);
}

proof fn lemma_fan_and_bytes(children: Seq<ChildView>, n: int)
    requires
        0 <= n <= children.len(),
    ensures
        tree::fanout(children.take(n)) == policy_laws::fan_of(children, 0, n),
        crate::store::ref_bytes(children.take(n)) == policy_laws::bytes_of(children, 0, n),
    decreases n,
{
    if n > 0 {
        lemma_fan_and_bytes(children, n - 1);
        assert(children.take(n).drop_last() =~= children.take(n - 1));
        assert(children.take(n).last() == children[n - 1]);
    }
}

/// A root without children keeps its buffer while the buffer is small, and
/// becomes leaves once it is over its limits or its buffer is full.
pub proof fn law_first_leaves_are_made_under_pressure(
    known: StoreView,
    names: Names,
    buffer: Seq<MutationView>,
    config: FragmentMetadataTreeConfig,
)
    ensures
        ({
            let r = tree::root_flushed(known, names, Seq::empty(), buffer, config);
            if node::buffer_len(buffer) >= config.max_node_bytes || node::buffer_len(buffer)
                >= config.semantic_buffer_bytes {
                match tree::leaves_made(known, names, buffer, config) {
                    Err(halt) => r == Err::<
                        (StoreView, Seq<ChildView>, Seq<MutationView>, WriteAcc),
                        Halt,
                    >(halt),
                    Ok((after, refs, left, more)) => r matches Ok(out) && out.0 == after && out.1
                        == refs && out.2 == left,
                }
            } else {
                r == Ok::<(StoreView, Seq<ChildView>, Seq<MutationView>, WriteAcc), Halt>(
                    (known, Seq::empty(), buffer, WriteAcc::nothing()),
                )
            }
        }),
{
    let none = Seq::<ChildView>::empty();
    reveal(tree::root_flushed);
    crate::rewrite_laws::law_calm_level_is_kept(
        known,
        names,
        none,
        buffer,
        0,
        0,
        node::ROOT_EXCLUSIVE_END,
        config,
        tree::child_height(none),
    );
    policy_laws::law_node_overflows_at_its_limits(none, buffer, config);
    assert(node::children_len(none) == 0);
    assert(drain::calm(none, buffer, config));
}

} // verus!
