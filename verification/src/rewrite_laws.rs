//! Laws of rewriting: what a leaf, a level and a whole tree owe whatever paths
//! their new objects get.

use vstd::prelude::*;

use crate::bulk;
use crate::drain;
use crate::error::{Aggregate, Error, Reason};
use crate::levels;
use crate::lifting;
use crate::merge;
use crate::merge::WriteAcc;
use crate::node;
use crate::node::FragmentMetadataTreeConfig;
use crate::pb::{ChildView, MutationView};
use crate::record::FragmentView;
use crate::split;
use crate::squash;
use crate::store;
use crate::store::{Halt, Names, StoreView};
use crate::tree;

verus! {

proof fn lemma_sum_errors(values: Seq<u64>, name: Aggregate)
    ensures
        node::summed(values, name) matches Err(error) ==> error is InvalidInput,
    decreases values.len(),
{
    if values.len() > 0 {
        lemma_sum_errors(values.drop_last(), name);
    }
}

proof fn lemma_delta_errors(deltas: Seq<i64>, name: Aggregate)
    ensures
        node::summed_deltas(deltas, name) matches Err(error) ==> error is InvalidInput,
    decreases deltas.len(),
{
    if deltas.len() > 0 {
        lemma_delta_errors(deltas.drop_last(), name);
    }
}

/// Whether a level or records are written, and why not, does not depend on the
/// paths that are drawn for them. No path that is drawn is taken.
pub proof fn law_writes_do_not_depend_on_the_drawn_paths(
    store: StoreView,
    a: Names,
    b: Names,
    children: Seq<ChildView>,
    buffer: Seq<MutationView>,
    fragments: Seq<FragmentView>,
    watermark: u64,
    config: FragmentMetadataTreeConfig,
)
    ensures
        match store::put_node(store, a, children, buffer) {
            Ok((_, _, bytes)) => store::put_node(store, b, children, buffer) matches Ok(other)
                && other.2 == bytes,
            Err(halt) => store::put_node(store, b, children, buffer) == Err::<
                (StoreView, ChildView, u64),
                Halt,
            >(halt) && halt != Halt::Fail(Error::Internal { reason: Reason::PathTaken }),
        },
        match store::put_leaves(store, a, fragments, watermark, config) {
            Ok((_, refs)) => store::put_leaves(store, b, fragments, watermark, config) matches Ok(
                other,
            ) && other.1.len() == refs.len(),
            Err(halt) => store::put_leaves(store, b, fragments, watermark, config) == Err::<
                (StoreView, Seq<ChildView>),
                Halt,
            >(halt),
        },
{
    lemma_sum_errors(node::key_counts(children), Aggregate::NumKeys);
    lemma_sum_errors(node::child_rows(children), Aggregate::TotalRows);
    lemma_sum_errors(node::child_visible(children), Aggregate::VisibleRows);
    lemma_delta_errors(squash::fragment_deltas(buffer), Aggregate::FragmentCountDelta);
    lemma_delta_errors(squash::row_deltas(buffer), Aggregate::TotalRowsDelta);
    lemma_delta_errors(squash::visible_deltas(buffer), Aggregate::VisibleRowsDelta);
}

/// A leaf that its mutations empty is dropped: nothing is written, and every
/// mutation counts as materialized.
pub proof fn law_emptied_leaf_is_dropped(
    store: StoreView,
    names: Names,
    child: ChildView,
    incoming: Seq<MutationView>,
    end: u64,
    config: FragmentMetadataTreeConfig,
)
    requires
        drain::leaf_source(store, child, incoming) is Ok,
        drain::leaf_outcome(
            child,
            drain::leaf_source(store, child, incoming)->Ok_0,
            incoming,
            end,
        ) == Ok::<
            Seq<FragmentView>,
            Error,
        >(Seq::empty()),
    ensures
        drain::leaf_ingested(store, names, child, incoming, end, config) == Ok::<
            (StoreView, Seq<ChildView>, WriteAcc),
            Halt,
        >(
            (
                store,
                Seq::empty(),
                WriteAcc { materialized: incoming.len() as u64, ..WriteAcc::nothing() },
            ),
        ),
{
    reveal(drain::leaf_ingested);
    let none = Seq::<FragmentView>::empty();
    let mark = drain::ceiling(store);
    let parts = store::halves(store, none, 0, 0, config.max_leaf_bytes);
    assert(parts =~= Seq::<(int, int)>::empty());
    let refs = store::put_refs(store, names, none, parts, mark);
    assert(refs =~= Seq::<ChildView>::empty());
    let after = store::put_parts(store, names, none, parts, mark);
    assert(after.leaves =~= store.leaves);
    assert(after == store);
    assert(store::ref_bytes(refs) == 0);
}

/// What a leaf refuses, its rewrite refuses with the same error: replay that
/// fails, a stored record that should be gone, a record at or above the end of
/// the leaf's range.
pub proof fn law_refused_leaf_fails(
    store: StoreView,
    names: Names,
    child: ChildView,
    incoming: Seq<MutationView>,
    end: u64,
    config: FragmentMetadataTreeConfig,
    error: Error,
)
    requires
        drain::leaf_source(store, child, incoming) is Ok,
        drain::leaf_outcome(
            child,
            drain::leaf_source(store, child, incoming)->Ok_0,
            incoming,
            end,
        ) == Err::<
            Seq<FragmentView>,
            Error,
        >(error),
    ensures
        drain::leaf_ingested(store, names, child, incoming, end, config) == Err::<
            (StoreView, Seq<ChildView>, WriteAcc),
            Halt,
        >(Halt::Fail(error)),
{
    reveal(drain::leaf_ingested);
}

proof fn lemma_sums(fragments: Seq<FragmentView>, parts: Seq<(int, int)>, i: int)
    requires
        store::sums_fault(fragments, parts) is None,
        0 <= i < parts.len(),
    ensures
        node::leaf_summary(
            Seq::empty(),
            fragments.subrange(parts[i].0, parts[i].1),
            0,
            0,
        ) is Ok,
    decreases parts.len(),
{
    if i < parts.len() - 1 {
        lemma_sums(fragments, parts.drop_last(), i);
        assert(parts.drop_last()[i] == parts[i]);
    }
}

/// Rewritten leaves take the watermark of the store, start where the leaf
/// started, and hold the records it came to, one part after the other.
pub proof fn law_rewritten_leaves_hold_the_outcome(
    store: StoreView,
    names: Names,
    child: ChildView,
    incoming: Seq<MutationView>,
    end: u64,
    config: FragmentMetadataTreeConfig,
    kept: Seq<FragmentView>,
    after: StoreView,
    refs: Seq<ChildView>,
    acc: WriteAcc,
)
    requires
        drain::leaf_source(store, child, incoming) is Ok,
        drain::leaf_outcome(
            child,
            drain::leaf_source(store, child, incoming)->Ok_0,
            incoming,
            end,
        ) == Ok::<
            Seq<FragmentView>,
            Error,
        >(kept),
        drain::leaf_ingested(store, names, child, incoming, end, config) == Ok::<
            (StoreView, Seq<ChildView>, WriteAcc),
            Halt,
        >((after, refs, acc)),
    ensures
        acc.materialized == incoming.len() as u64,
        refs.len() > 0 ==> refs[0].min_key == child.min_key,
        forall|i: int|
            0 <= i < refs.len() ==> (#[trigger] refs[i]).materialized_through_action_sequence
                == drain::ceiling(store),
        ({
            let parts = store::halves(store, kept, 0, kept.len() as int, config.max_leaf_bytes);
            &&& store::tiles(parts, 0, kept.len() as int)
            &&& after.leaves.len() == store.leaves.len() + parts.len()
            &&& forall|i: int|
                0 <= i < parts.len() ==> (#[trigger] after.leaves[store.leaves.len()
                    + i]).fragments == kept.subrange(parts[i].0, parts[i].1)
        }),
{
    reveal(drain::leaf_ingested);
    let parts = store::halves(store, kept, 0, kept.len() as int, config.max_leaf_bytes);
    let mark = drain::ceiling(store);
    store::lemma_halves(store, kept, 0, kept.len() as int, config.max_leaf_bytes);
    store::lemma_sized(store, kept, 0, kept.len() as int, config);
    let raw = store::put_refs(store, names, kept, parts, mark);
    assert forall|i: int| 0 <= i < refs.len() implies (
    #[trigger] refs[i]).materialized_through_action_sequence == mark by {
        lemma_sums(kept, parts, i);
        assert(raw[i].materialized_through_action_sequence == mark);
    }
    assert forall|i: int| 0 <= i < parts.len() implies (#[trigger] after.leaves[store.leaves.len()
        + i]).fragments == kept.subrange(parts[i].0, parts[i].1) by {}
}

/// Finding the first fault among some nodes.
proof fn lemma_own_fault(store: StoreView, level: Seq<ChildView>, from: int, i: int, reason: Reason)
    requires
        0 <= from <= i < level.len(),
        forall|k: int|
            from <= k < i ==> (merge::opened(store, #[trigger] level[k]) matches Ok((children, buffer))
                && split::routing_fault(
                children,
                split::buckets(children, buffer),
                node::end_of(level, k, node::ROOT_EXCLUSIVE_END),
                children.len() as int,
            ) is None),
        merge::opened(store, level[i]) matches Ok((children, buffer)) && split::routing_fault(
            children,
            split::buckets(children, buffer),
            node::end_of(level, i, node::ROOT_EXCLUSIVE_END),
            children.len() as int,
        ) == Some(reason),
    ensures
        bulk::own_fault(store, level, from) == Some(Halt::Fail(Error::CorruptFile { reason })),
    decreases i - from,
{
    if from < i {
        assert(merge::opened(store, level[from]) is Ok);
        lemma_own_fault(store, level, from + 1, i, reason);
    }
}

/// A node that buffers an action outside its own range is corrupt, and a
/// materialization that comes to it is refused.
pub proof fn law_action_outside_its_node_stops_materialization(
    store: StoreView,
    names: Names,
    children: Seq<ChildView>,
    buffer: Seq<MutationView>,
    config: FragmentMetadataTreeConfig,
    i: int,
    reason: Reason,
)
    requires
        0 <= i < children.len(),
        children[0].height > 0,
        forall|k: int|
            0 <= k < i ==> (merge::opened(store, #[trigger] children[k]) matches Ok((kids, pending))
                && split::routing_fault(
                kids,
                split::buckets(kids, pending),
                node::end_of(children, k, node::ROOT_EXCLUSIVE_END),
                kids.len() as int,
            ) is None),
        merge::opened(store, children[i]) matches Ok((kids, pending)) && split::routing_fault(
            kids,
            split::buckets(kids, pending),
            node::end_of(children, i, node::ROOT_EXCLUSIVE_END),
            kids.len() as int,
        ) == Some(reason),
    ensures
        bulk::materialized(store, names, children, buffer, config) == Err::<
            (StoreView, Seq<ChildView>, WriteAcc),
            Halt,
        >(Halt::Fail(Error::CorruptFile { reason })),
{
    reveal(bulk::materialized);
    lemma_own_fault(store, children, 0, i, reason);
}

/// A level without pressure whose left edge is fenced is kept as it is.
pub proof fn law_calm_level_is_kept(
    store: StoreView,
    names: Names,
    children: Seq<ChildView>,
    buffer: Seq<MutationView>,
    depth: u32,
    lower: u64,
    end: u64,
    config: FragmentMetadataTreeConfig,
    height: nat,
)
    requires
        drain::calm(children, buffer, config),
        children.len() > 0 ==> children[0].min_key == lower,
    ensures
        drain::flushed_out(store, names, children, buffer, depth, lower, end, config, height)
            == Ok::<(StoreView, Seq<ChildView>, Seq<MutationView>, WriteAcc), Halt>(
            (store, children, buffer, WriteAcc::nothing()),
        ),
{
    reveal(drain::flushed_out);
    reveal(drain::level_flushed);
    reveal(merge::edge_fenced);
    assert(node::fenced(children, lower) =~= children);
}

/// Under pressure, a buffer that routing could only have produced from a
/// corrupt node is refused.
pub proof fn law_misrouted_buffer_is_refused(
    store: StoreView,
    names: Names,
    children: Seq<ChildView>,
    buffer: Seq<MutationView>,
    depth: u32,
    lower: u64,
    end: u64,
    config: FragmentMetadataTreeConfig,
    height: nat,
    reason: Reason,
)
    requires
        !drain::calm(children, buffer, config),
        split::routing_fault(
            children,
            split::buckets(children, buffer),
            end,
            children.len() as int,
        ) == Some(reason),
    ensures
        drain::flushed_out(store, names, children, buffer, depth, lower, end, config, height)
            == Err::<(StoreView, Seq<ChildView>, Seq<MutationView>, WriteAcc), Halt>(
            Halt::Fail(Error::CorruptFile { reason }),
        ),
{
    reveal(drain::flushed_out);
    reveal(drain::level_flushed);
}

proof fn lemma_runs_kept(
    store: StoreView,
    names: Names,
    children: Seq<ChildView>,
    config: FragmentMetadataTreeConfig,
    leaf: bool,
    below: spec_fn(StoreView, Seq<ChildView>) -> Result<
        (StoreView, Seq<ChildView>, WriteAcc),
        Halt,
    >,
    i: int,
    out: Seq<ChildView>,
    acc: WriteAcc,
)
    requires
        0 <= i <= children.len(),
        forall|k: int|
            0 <= k < children.len() ==> !node::underflows(#[trigger] children[k], config),
    ensures
        merge::runs_coalesced(store, names, children, config, leaf, below, i, out, acc) == Ok::<
            (StoreView, Seq<ChildView>, WriteAcc),
            Halt,
        >((store, out + children.skip(i), acc)),
    decreases children.len() - i,
{
    reveal_with_fuel(merge::runs_coalesced, 2);
    if i < children.len() {
        assert(!node::underflows(children[i], config));
        let longer = out + children.subrange(i, i + 1);
        lemma_runs_kept(store, names, children, config, leaf, below, i + 1, longer, acc);
        assert(longer + children.skip(i + 1) =~= out + children.skip(i));
    } else {
        assert(out + children.skip(i) =~= out);
    }
}

proof fn lemma_edges_kept(
    store: StoreView,
    names: Names,
    todo: Seq<ChildView>,
    done: Seq<ChildView>,
    config: FragmentMetadataTreeConfig,
    below: spec_fn(StoreView, Seq<ChildView>) -> Result<
        (StoreView, Seq<ChildView>, WriteAcc),
        Halt,
    >,
    acc: WriteAcc,
)
    requires
        forall|k: int|
            0 <= k < todo.len() ==> (#[trigger] todo[k]).height == 0 || todo[k].num_children > 1,
    ensures
        merge::edges_repaired(store, names, todo, done, config, below, acc) == Ok::<
            (StoreView, Seq<ChildView>, WriteAcc),
            Halt,
        >((store, done + todo, acc)),
    decreases todo.len(),
{
    reveal_with_fuel(merge::edges_repaired, 2);
    if todo.len() > 0 {
        let rest = todo.skip(1);
        assert forall|k: int| 0 <= k < rest.len() implies (#[trigger] rest[k]).height == 0
            || rest[k].num_children > 1 by {
            assert(rest[k] == todo[k + 1]);
        }
        lemma_edges_kept(store, names, rest, done.push(todo[0]), config, below, acc);
        assert(done.push(todo[0]) + rest =~= done + todo);
    } else {
        assert(done + todo =~= done);
    }
}

/// Children none of which is small or has a single child are kept as they
/// are.
pub proof fn law_full_children_are_kept(
    store: StoreView,
    names: Names,
    children: Seq<ChildView>,
    config: FragmentMetadataTreeConfig,
    height: nat,
)
    requires
        forall|k: int|
            0 <= k < children.len() ==> !node::underflows(#[trigger] children[k], config) && (
            children[k].height == 0 || children[k].num_children > 1),
    ensures
        merge::merged(store, names, children, config, height) == Ok::<
            (StoreView, Seq<ChildView>, WriteAcc),
            Halt,
        >((store, children, WriteAcc::nothing())),
{
    let below = merge::merged_below(names, config, height);
    let none = merge::no_children();
    merge::lemma_merged(store, names, children, config, height);
    reveal(merge::level_merged);
    lemma_runs_kept(
        store,
        names,
        children,
        config,
        height == 0,
        below,
        0,
        none,
        WriteAcc::nothing(),
    );
    assert(none + children.skip(0) =~= children);
    lemma_edges_kept(store, names, children, none, config, below, WriteAcc::nothing());
    assert(none + children =~= children);
}

proof fn lemma_put_pieces(
    store: StoreView,
    names: Names,
    children: Seq<Seq<ChildView>>,
    buffers: Seq<Seq<MutationView>>,
    i: int,
    refs: Seq<ChildView>,
    bytes: u64,
)
    requires
        0 <= i <= children.len(),
        merge::put_pieces(store, names, children, buffers, i, refs, bytes) is Ok,
    ensures
        ({
            let after = merge::put_pieces(
                store,
                names,
                children,
                buffers,
                i,
                refs,
                bytes,
            )->Ok_0.0;
            &&& after.nodes.len() == store.nodes.len() + children.len() - i
            &&& forall|k: int|
                0 <= k < store.nodes.len() ==> #[trigger] after.nodes[k] == store.nodes[k]
            &&& forall|k: int|
                store.nodes.len() <= k < after.nodes.len() ==> (#[trigger] after.nodes[k]).children
                    == children[i + k - store.nodes.len()]
        }),
    decreases children.len() - i,
{
    reveal_with_fuel(merge::put_pieces, 2);
    if i < children.len() {
        let (middle, child, more) = store::put_node(store, names, children[i], buffers[i])->Ok_0;
        lemma_put_pieces(
            middle,
            names,
            children,
            buffers,
            i + 1,
            refs.push(child),
            merge::summed(bytes, more),
        );
        let after = merge::put_pieces(store, names, children, buffers, i, refs, bytes)->Ok_0.0;
        let known = store.nodes.len() as int;
        assert forall|k: int| 0 <= k < known implies #[trigger] after.nodes[k]
            == store.nodes[k] by {
            assert(after.nodes[k] == middle.nodes[k]);
        }
        assert forall|k: int| known <= k < after.nodes.len() implies (
        #[trigger] after.nodes[k]).children == children[i + k - known] by {
            if k == known {
                assert(after.nodes[k] == middle.nodes[k]);
            }
        }
    }
}

/// Routing that is lifted never holds a node with a single child, nor one over
/// the fanout.
pub proof fn law_lifted_nodes_keep_the_fanout(
    store: StoreView,
    names: Names,
    children: Seq<ChildView>,
    buffer: Seq<MutationView>,
    config: FragmentMetadataTreeConfig,
    acc: WriteAcc,
)
    requires
        config.max_children_per_node >= 1,
        tree::root_lifted(store, names, children, buffer, config, acc) is Ok,
    ensures
        ({
            let after = tree::root_lifted(store, names, children, buffer, config, acc)->Ok_0.0;
            &&& after.nodes.len() >= store.nodes.len()
            &&& forall|k: int|
                store.nodes.len() <= k < after.nodes.len() ==> 2 <= (
                #[trigger] after.nodes[k]).children.len() <= config.max_children_per_node
        }),
    decreases children.len(),
{
    reveal_with_fuel(tree::root_lifted, 2);
    if node::overflows(children, buffer, config) {
        let budget = (config.max_node_bytes / 2) as u64;
        let most = config.max_children_per_node;
        let pieces = merge::cut_children(children, buffer, budget, most);
        let buffers = merge::cut_buffers(children, buffer, budget, most);
        let c = split::cut(children, buffer, budget, most);
        let none = Seq::<ChildView>::empty();
        lemma_put_pieces(store, names, pieces, buffers, 0, none, 0);
        split::lemma_cut(children, buffer, budget, most);
        let (middle, refs, bytes) = merge::put_split(
            store,
            names,
            children,
            buffer,
            budget,
            most,
        )->Ok_0;
        let work = WriteAcc {
            io_bytes: merge::summed(acc.io_bytes, bytes),
            splits: merge::summed(acc.splits, 1),
            ..acc
        };
        let rest = levels::no_mutations();
        law_lifted_nodes_keep_the_fanout(middle, names, refs, rest, config, work);
        lemma_lifted_grows(middle, names, refs, rest, config, work);
        let after = tree::root_lifted(store, names, children, buffer, config, acc)->Ok_0.0;
        assert forall|k: int| store.nodes.len() <= k < after.nodes.len() implies 2 <= (
        #[trigger] after.nodes[k]).children.len() <= most by {
            if k < middle.nodes.len() {
                let j = k - store.nodes.len();
                assert(after.nodes[k] == middle.nodes[k]);
                assert(pieces[j].len() >= 2);
                lifting::lemma_piece(children, c, j);
                assert(c[j] <= most);
            }
        }
    }
}

/// Lifting routing keeps what was known.
proof fn lemma_lifted_grows(
    store: StoreView,
    names: Names,
    children: Seq<ChildView>,
    buffer: Seq<MutationView>,
    config: FragmentMetadataTreeConfig,
    acc: WriteAcc,
)
    requires
        tree::root_lifted(store, names, children, buffer, config, acc) is Ok,
    ensures
        ({
            let after = tree::root_lifted(store, names, children, buffer, config, acc)->Ok_0.0;
            &&& after.nodes.len() >= store.nodes.len()
            &&& forall|k: int|
                0 <= k < store.nodes.len() ==> #[trigger] after.nodes[k] == store.nodes[k]
        }),
    decreases children.len(),
{
    reveal_with_fuel(tree::root_lifted, 2);
    if node::overflows(children, buffer, config) {
        let budget = (config.max_node_bytes / 2) as u64;
        let most = config.max_children_per_node;
        let pieces = merge::cut_children(children, buffer, budget, most);
        let buffers = merge::cut_buffers(children, buffer, budget, most);
        lemma_put_pieces(store, names, pieces, buffers, 0, Seq::empty(), 0);
        let (middle, refs, bytes) = merge::put_split(
            store,
            names,
            children,
            buffer,
            budget,
            most,
        )->Ok_0;
        let work = WriteAcc {
            io_bytes: merge::summed(acc.io_bytes, bytes),
            splits: merge::summed(acc.splits, 1),
            ..acc
        };
        lemma_lifted_grows(middle, names, refs, levels::no_mutations(), config, work);
        let after = tree::root_lifted(store, names, children, buffer, config, acc)->Ok_0.0;
        assert forall|k: int| 0 <= k < store.nodes.len() implies #[trigger] after.nodes[k]
            == store.nodes[k] by {
            assert(after.nodes[k] == middle.nodes[k]);
        }
    }
}

} // verus!
