//! When nodes flush, split and merge, and how large the objects are that they
//! are written as.

use vstd::prelude::*;

use crate::drain;
use crate::error::{Error, Reason};
use crate::flush;
use crate::flush::Pressure;
use crate::merge;
use crate::node;
use crate::node::FragmentMetadataTreeConfig;
use crate::pb::{ActionView, ChildView, MutationView};
use crate::reading_laws;
use crate::record::FragmentView;
use crate::replay;
use crate::split;
use crate::steps;
use crate::store;
use crate::store::{Halt, Names, StoreView};
use crate::wire;

verus! {

// Limits of a node.

/// Whether a node is over its limits: it has more children than it may, or its
/// routing and its buffer take as many bytes as a node may.
pub open spec fn over_limits(
    children: Seq<ChildView>,
    buffer: Seq<MutationView>,
    config: FragmentMetadataTreeConfig,
) -> bool {
    children.len() > config.max_children_per_node || node::children_len(children)
        + node::buffer_len(buffer) >= config.max_node_bytes
}

/// A node overflows exactly where it is over its limits, and is pressured
/// exactly where its buffer takes the bytes of the semantic buffer.
pub proof fn law_node_overflows_at_its_limits(
    children: Seq<ChildView>,
    buffer: Seq<MutationView>,
    config: FragmentMetadataTreeConfig,
)
    requires
        children.len() <= u32::MAX,
    ensures
        node::overflows(children, buffer, config) == over_limits(children, buffer, config),
        node::pressured(buffer, config) == (node::buffer_len(buffer)
            >= config.semantic_buffer_bytes),
{
}

/// A node has no reason to flush exactly where it has no children, or is within
/// its limits, has little buffered and buffers no removal of a fragment below.
pub proof fn law_calm_node_is_within_its_limits(
    children: Seq<ChildView>,
    buffer: Seq<MutationView>,
    config: FragmentMetadataTreeConfig,
)
    requires
        children.len() <= u32::MAX,
        node::buffer_len(buffer) < u64::MAX,
    ensures
        drain::calm(children, buffer, config) <==> children.len() == 0 || {
            &&& !over_limits(children, buffer, config)
            &&& node::buffer_len(buffer) < config.semantic_buffer_bytes
            &&& forall|i: int| 0 <= i < buffer.len() ==> !flush::takes_away(#[trigger] buffer[i])
        },
{
    if drain::any_retires(buffer) {
        let i = choose|i: int| 0 <= i < buffer.len() && (#[trigger] buffer[i]).retires();
        assert(flush::takes_away(buffer[i]));
    }
    assert forall|i: int| 0 <= i < buffer.len() implies flush::takes_away(#[trigger] buffer[i])
        == buffer[i].retires() by {}
}

/// A node flushes under pressure where it is over its limits or its buffer is
/// full, and otherwise only to free what its removals free.
pub proof fn law_pressure_follows_the_limits(
    children: Seq<ChildView>,
    buffer: Seq<MutationView>,
    retiring: bool,
    config: FragmentMetadataTreeConfig,
)
    requires
        children.len() <= u32::MAX,
        node::buffer_len(buffer) < u64::MAX,
    ensures
        drain::urgency(children, wire::capped(node::buffer_len(buffer)), retiring, config) == if
            over_limits(children, buffer, config) || node::buffer_len(buffer)
            >= config.semantic_buffer_bytes {
            Some(Pressure::Pressured)
        } else if retiring {
            Some(Pressure::Relaxed)
        } else {
            None
        },
{
}

/// A leaf is small at a quarter of its target. A node is small where it takes a
/// quarter of its target and has less than a quarter of the children it may, or
/// less than one.
pub proof fn law_small_children_take_a_quarter(
    child: ChildView,
    config: FragmentMetadataTreeConfig,
)
    ensures
        child.height == 0 ==> node::underflows(child, config) == (child.object_size
            <= config.max_leaf_bytes / 4),
        child.height > 0 && config.max_children_per_node >= 4 ==> node::underflows(child, config)
            == (child.object_size <= config.max_node_bytes / 4 && child.num_children
            < config.max_children_per_node / 4),
        child.height > 0 && config.max_children_per_node < 4 ==> node::underflows(child, config)
            == (child.object_size <= config.max_node_bytes / 4 && child.num_children == 0),
{
}

// Joining small children.

/// The bytes of some consecutive children.
pub open spec fn bytes_of(children: Seq<ChildView>, from: int, to: int) -> int
    decreases to - from,
{
    if from >= to {
        0
    } else {
        bytes_of(children, from, to - 1) + children[to - 1].object_size
    }
}

/// How many children some consecutive children have.
pub open spec fn fan_of(children: Seq<ChildView>, from: int, to: int) -> int
    decreases to - from,
{
    if from >= to {
        0
    } else {
        fan_of(children, from, to - 1) + children[to - 1].num_children
    }
}

/// Whether some consecutive children may become one: within three fifths of the
/// target in bytes and, for nodes, with no more children than one may have.
pub open spec fn group_fits(
    children: Seq<ChildView>,
    from: int,
    to: int,
    config: FragmentMetadataTreeConfig,
) -> bool {
    if children[from].height == 0 {
        bytes_of(children, from, to) <= config.max_leaf_bytes * 3 / 5
    } else {
        &&& bytes_of(children, from, to) <= config.max_node_bytes * 3 / 5
        &&& fan_of(children, from, to) <= config.max_children_per_node
    }
}

proof fn lemma_group_end(
    children: Seq<ChildView>,
    config: FragmentMetadataTreeConfig,
    i: int,
    j: int,
)
    requires
        0 <= i < j <= children.len(),
        j > i + 1 ==> group_fits(children, i, j, config),
    ensures
        ({
            let end = merge::group_end(
                children,
                config,
                children[i].height == 0,
                bytes_of(children, i, j),
                fan_of(children, i, j),
                j,
            );
            &&& j <= end <= children.len()
            &&& end > i + 1 ==> group_fits(children, i, end, config)
            &&& end < children.len() ==> !group_fits(children, i, end + 1, config)
        }),
    decreases children.len() - j,
{
    if j < children.len() {
        assert(bytes_of(children, i, j + 1) == bytes_of(children, i, j) + children[j].object_size);
        assert(fan_of(children, i, j + 1) == fan_of(children, i, j) + children[j].num_children);
        if group_fits(children, i, j + 1, config) {
            lemma_group_end(children, config, i, j + 1);
        }
    }
}

/// A small child is joined with those behind it as far as they fit together, and
/// no further. A child that is not small is left alone.
pub proof fn law_small_children_are_joined_as_far_as_they_fit(
    children: Seq<ChildView>,
    config: FragmentMetadataTreeConfig,
    i: int,
)
    requires
        0 <= i < children.len(),
    ensures
        ({
            let end = merge::run_end(children, config, i);
            &&& i < end <= children.len()
            &&& !node::underflows(children[i], config) ==> end == i + 1
            &&& end > i + 1 ==> group_fits(children, i, end, config)
            &&& node::underflows(children[i], config) && end < children.len() ==> !group_fits(
                children,
                i,
                end + 1,
                config,
            )
        }),
{
    reveal_with_fuel(bytes_of, 2);
    reveal_with_fuel(fan_of, 2);
    assert(bytes_of(children, i, i + 1) == children[i].object_size);
    assert(fan_of(children, i, i + 1) == children[i].num_children);
    lemma_group_end(children, config, i, i + 1);
}

// Writing.

/// A level is written as one node that holds exactly it, takes the bytes that
/// it takes and no more than an object may, and stands behind the nodes that
/// were known. Nothing else is written.
pub proof fn law_node_is_written_as_it_is(
    known: StoreView,
    names: Names,
    children: Seq<ChildView>,
    buffer: Seq<MutationView>,
    after: StoreView,
    child: ChildView,
    bytes: u64,
)
    requires
        store::put_node(known, names, children, buffer) == Ok::<(StoreView, ChildView, u64), Halt>(
            (after, child, bytes),
        ),
        children.len() <= u32::MAX,
    ensures
        after.leaves == known.leaves,
        after.nodes.len() == known.nodes.len() + 1,
        forall|i: int| 0 <= i < known.nodes.len() ==> #[trigger] after.nodes[i] == known.nodes[i],
        ({
            let written = after.nodes[known.nodes.len() as int];
            let amounts = reading_laws::node_amounts(children, buffer);
            &&& written.children == children
            &&& written.buffer == buffer
            &&& written.object_size == bytes
            &&& written.loc.path == child.path
            &&& written.loc.base_id is None
            &&& child.base_id is None
            &&& child.object_size == bytes
            &&& child.num_keys == amounts.0
            &&& child.total_rows == amounts.1
            &&& child.visible_rows == amounts.2
            &&& child.num_children == children.len()
            &&& bytes <= known.hard_capacity_bytes
            &&& bytes == node::children_len(children) + node::buffer_len(buffer)
                || known.hard_capacity_bytes == u64::MAX
        }),
{
    let size = wire::capped(node::children_len(children) + node::buffer_len(buffer));
    let path = names.nodes[known.nodes.len() as int];
    let r = node::internal_summary(path, children, buffer, size);
    let plain = node::internal_summary(Seq::empty(), children, buffer, size);
    assert(r is Ok == plain is Ok);
    reading_laws::law_node_reference_counts_its_children(path, children, buffer, size);
}

/// A level that takes more bytes than an object may is refused.
pub proof fn law_too_large_node_is_refused(
    known: StoreView,
    names: Names,
    children: Seq<ChildView>,
    buffer: Seq<MutationView>,
)
    requires
        node::children_len(children) + node::buffer_len(buffer) > known.hard_capacity_bytes,
        known.hard_capacity_bytes < u64::MAX,
    ensures
        store::put_node(known, names, children, buffer) matches Err(
            Halt::Fail(Error::InvalidInput { reason: Reason::NodeTooLarge { .. } }),
        ),
{
}

/// Whether a part of some records takes no more than a leaf may, or is a single
/// record, and no more than an object may.
pub open spec fn part_fits(
    known: StoreView,
    fragments: Seq<FragmentView>,
    part: (int, int),
    config: FragmentMetadataTreeConfig,
) -> bool {
    known.size_of(fragments.subrange(part.0, part.1)) matches Some(bytes) && bytes
        <= config.hard_capacity_bytes && (bytes <= config.max_leaf_bytes || part.1 == part.0 + 1)
}

proof fn lemma_sized_fit(
    known: StoreView,
    fragments: Seq<FragmentView>,
    from: int,
    to: int,
    config: FragmentMetadataTreeConfig,
)
    requires
        0 <= from <= to <= fragments.len(),
    ensures
        store::sized(known, fragments, from, to, config) matches Ok(parts) ==> forall|i: int|
            0 <= i < parts.len() ==> part_fits(known, fragments, #[trigger] parts[i], config),
    decreases to - from,
{
    if from < to {
        let middle = from + (to - from) / 2;
        if to - from > 1 {
            lemma_sized_fit(known, fragments, from, middle, config);
            lemma_sized_fit(known, fragments, middle, to, config);
        }
    }
}

proof fn lemma_sums_known(fragments: Seq<FragmentView>, parts: Seq<(int, int)>, i: int)
    requires
        store::sums_fault(fragments, parts) is None,
        0 <= i < parts.len(),
    ensures
        node::leaf_summary(
            Seq::empty(),
            fragments.subrange(parts[i].0, parts[i].1),
            0,
            0,
        ) is Ok,
    decreases parts.len(),
{
    if i < parts.len() - 1 {
        lemma_sums_known(fragments, parts.drop_last(), i);
        assert(parts.drop_last()[i] == parts[i]);
    }
}

/// Whether parts of some records were written as leaves: one behind the other,
/// each with exactly its records and counted as such, in their known sizes, none
/// larger than a leaf may be but for a single record.
pub open spec fn written_in_parts(
    known: StoreView,
    fragments: Seq<FragmentView>,
    watermark: u64,
    config: FragmentMetadataTreeConfig,
    after: StoreView,
    refs: Seq<ChildView>,
    parts: Seq<(int, int)>,
) -> bool {
    let n = known.leaves.len() as int;
    &&& store::tiles(parts, 0, fragments.len() as int)
    &&& refs.len() == parts.len()
    &&& after.nodes == known.nodes
    &&& after.leaves.len() == n + parts.len()
    &&& forall|i: int| 0 <= i < n ==> #[trigger] after.leaves[i] == known.leaves[i]
    &&& forall|i: int|
        0 <= i < parts.len() ==> {
            let part = fragments.subrange((#[trigger] parts[i]).0, parts[i].1);
            let leaf = after.leaves[n + i];
            let child = refs[i];
            &&& part_fits(known, fragments, parts[i], config)
            &&& leaf.fragments == part
            &&& known.size_of(part) == Some(leaf.object_size)
            &&& leaf.loc.path == child.path
            &&& leaf.loc.base_id is None
            &&& child.base_id is None
            &&& child.object_size == leaf.object_size
            &&& child.height == 0
            &&& child.num_keys == part.len()
            &&& child.total_rows == reading_laws::rows_of(part)
            &&& child.visible_rows == reading_laws::rows_left_of(part)
            &&& child.min_key == part[0].id
            &&& child.materialized_through_action_sequence == watermark
        }
}

proof fn lemma_written_in_parts(
    known: StoreView,
    names: Names,
    fragments: Seq<FragmentView>,
    watermark: u64,
    config: FragmentMetadataTreeConfig,
    parts: Seq<(int, int)>,
)
    requires
        store::tiles(parts, 0, fragments.len() as int),
        store::sums_fault(fragments, parts) is None,
        forall|i: int|
            0 <= i < parts.len() ==> part_fits(known, fragments, #[trigger] parts[i], config),
        fragments.len() <= u64::MAX,
    ensures
        written_in_parts(
            known,
            fragments,
            watermark,
            config,
            store::put_parts(known, names, fragments, parts, watermark),
            store::put_refs(known, names, fragments, parts, watermark),
            parts,
        ),
{
    let n = known.leaves.len() as int;
    let after = store::put_parts(known, names, fragments, parts, watermark);
    let refs = store::put_refs(known, names, fragments, parts, watermark);
    store::lemma_tiles(parts, 0, fragments.len() as int);
    assert forall|i: int| 0 <= i < parts.len() implies {
        let part = fragments.subrange((#[trigger] parts[i]).0, parts[i].1);
        let leaf = after.leaves[n + i];
        let child = refs[i];
        &&& part_fits(known, fragments, parts[i], config)
        &&& leaf.fragments == part
        &&& known.size_of(part) == Some(leaf.object_size)
        &&& leaf.loc.path == child.path
        &&& leaf.loc.base_id is None
        &&& child.base_id is None
        &&& child.object_size == leaf.object_size
        &&& child.height == 0
        &&& child.num_keys == part.len()
        &&& child.total_rows == reading_laws::rows_of(part)
        &&& child.visible_rows == reading_laws::rows_left_of(part)
        &&& child.min_key == part[0].id
        &&& child.materialized_through_action_sequence == watermark
    } by {
        let part = fragments.subrange(parts[i].0, parts[i].1);
        lemma_sums_known(fragments, parts, i);
        assert(part_fits(known, fragments, parts[i], config));
        reading_laws::law_leaf_reference_counts_its_records(
            names.leaves[n + i],
            part,
            known.size_of(part)->0,
            watermark,
        );
        reading_laws::law_leaf_reference_counts_its_records(Seq::empty(), part, 0, 0);
    }
}

/// Records are written as leaves that hold them all, each once and in their
/// order. Records that fit one leaf are written as one.
pub proof fn law_records_are_written_as_leaves(
    known: StoreView,
    names: Names,
    fragments: Seq<FragmentView>,
    watermark: u64,
    config: FragmentMetadataTreeConfig,
    after: StoreView,
    refs: Seq<ChildView>,
)
    requires
        store::put_leaves(known, names, fragments, watermark, config) == Ok::<
            (StoreView, Seq<ChildView>),
            Halt,
        >((after, refs)),
        fragments.len() <= u64::MAX,
    ensures
        exists|parts: Seq<(int, int)>| #[trigger]
            written_in_parts(known, fragments, watermark, config, after, refs, parts),
        fragments.len() > 0 && (known.size_of(fragments) matches Some(bytes) && bytes
            <= config.max_leaf_bytes) ==> refs.len() == 1,
{
    let n = fragments.len() as int;
    let parts = store::halves(known, fragments, 0, n, config.max_leaf_bytes);
    store::lemma_halves(known, fragments, 0, n, config.max_leaf_bytes);
    store::lemma_sized(known, fragments, 0, n, config);
    lemma_sized_fit(known, fragments, 0, n, config);
    lemma_written_in_parts(known, names, fragments, watermark, config, parts);
    assert(written_in_parts(known, fragments, watermark, config, after, refs, parts));
    assert(fragments.subrange(0, n) =~= fragments);
}

/// A record that takes more alone than an object may is refused by its id.
pub proof fn law_too_large_record_is_refused(
    known: StoreView,
    names: Names,
    record: FragmentView,
    watermark: u64,
    config: FragmentMetadataTreeConfig,
)
    requires
        known.size_of(seq![record]) matches Some(bytes) && bytes > config.hard_capacity_bytes,
    ensures
        store::put_leaves(known, names, seq![record], watermark, config) matches Err(
            Halt::Fail(Error::InvalidInput { reason: Reason::LeafTooLarge { id, .. } }),
        ) && id == record.id,
{
    let one = seq![record];
    assert(one.subrange(0, 1) =~= one);
}

// Draining a leaf.

/// Whether a mutation overwrites a record that the subtree below holds.
pub open spec fn overwrites(m: MutationView) -> bool {
    m.fragment_count_delta == 0 && (m.action matches Some(Some(ActionView::AddFragment(_))))
}

proof fn lemma_survivor(
    given: Seq<FragmentView>,
    after: Map<u64, FragmentView>,
    s: Seq<MutationView>,
    n: int,
)
    requires
        0 <= n <= given.len(),
        drain::survivor(given, after, s, n) is None,
    ensures
        forall|i: int|
            0 <= i < n && after.contains_key((#[trigger] given[i]).id) ==> drain::puts(
                s,
                given[i].id,
            ),
    decreases n,
{
    if n > 0 {
        lemma_survivor(given, after, s, n - 1);
    }
}

/// Mutations that claim to remove or overwrite as many records as a leaf holds
/// are applied only where they leave none of them as it was: each is gone or was
/// put anew. No record at or above the end of the leaf's range is kept.
pub proof fn law_rewritten_leaf_keeps_no_claimed_record(
    child: ChildView,
    given: Seq<FragmentView>,
    s: Seq<MutationView>,
    end: u64,
    kept: Seq<FragmentView>,
)
    requires
        drain::leaf_outcome(child, given, s, end) == Ok::<Seq<FragmentView>, Error>(kept),
    ensures
        ({
            let (state, error) = replay::replayed(steps::indexed(given), s, true);
            let gone = s.filter(|m: MutationView| flush::takes_away(m)).len();
            let anew = s.filter(|m: MutationView| overwrites(m)).len();
            &&& error is None
            &&& kept.len() > 0 ==> kept.last().id < end
            &&& gone + anew == child.num_keys ==> forall|i: int|
                0 <= i < given.len() ==> !state.contains_key((#[trigger] given[i]).id) || exists|
                    j: int,
                |
                    0 <= j < s.len() && ((#[trigger] s[j]).action matches Some(
                        Some(ActionView::AddFragment(f)),
                    ) && f.id == given[i].id)
        }),
{
    let (state, error) = replay::replayed(steps::indexed(given), s, true);
    assert((|m: MutationView| m.retires()) =~= (|m: MutationView| flush::takes_away(m)));
    assert((|m: MutationView| m.replaces()) =~= (|m: MutationView| overwrites(m)));
    if drain::claims_all(child, s) {
        lemma_survivor(given, state, s, given.len() as int);
        assert forall|i: int| 0 <= i < given.len() implies !state.contains_key(
            (#[trigger] given[i]).id,
        ) || exists|j: int|
            0 <= j < s.len() && ((#[trigger] s[j]).action matches Some(
                Some(ActionView::AddFragment(f)),
            ) && f.id == given[i].id) by {
            if state.contains_key(given[i].id) {
                assert(drain::puts(s, given[i].id));
                let j = choose|j: int|
                    0 <= j < s.len() && (#[trigger] s[j]).key() == given[i].id && (
                    s[j].known() matches Some(ActionView::AddFragment(_)));
                assert(s[j].action matches Some(Some(ActionView::AddFragment(f))) && f.id
                    == given[i].id);
            }
        }
    }
}

/// A rewritten leaf is current: it is marked with the last place of the commit
/// order that was assigned.
pub proof fn law_rewritten_leaf_is_current(known: StoreView)
    ensures
        known.next_action_sequence > 0 ==> drain::ceiling(known) + 1 == known.next_action_sequence,
        known.next_action_sequence == 0 ==> drain::ceiling(known) == 0,
{
}

// Routing.

/// Whether a mutation may be pending above a child: it names a fragment of the
/// child's range and, above a leaf, comes after what the leaf already holds.
pub open spec fn may_wait_above(child: ChildView, end: u64, m: MutationView) -> bool {
    &&& child.min_key <= m.key() < end
    &&& child.height == 0 ==> m.action_sequence > child.materialized_through_action_sequence
}

pub proof fn lemma_bucket_fault(child: ChildView, end: u64, bucket: Seq<MutationView>)
    ensures
        split::bucket_fault(child, end, bucket) is None == forall|i: int|
            0 <= i < bucket.len() ==> may_wait_above(child, end, #[trigger] bucket[i]),
    decreases bucket.len(),
{
    if bucket.len() > 0 {
        let rest = bucket.drop_last();
        let n = rest.len() as int;
        lemma_bucket_fault(child, end, rest);
        assert(bucket[n] == bucket.last());
        if split::bucket_fault(child, end, rest) is None {
            assert forall|i: int| 0 <= i < n implies may_wait_above(
                child,
                end,
                #[trigger] bucket[i],
            ) by {
                assert(rest[i] == bucket[i]);
            }
        } else {
            let i = choose|i: int|
                0 <= i < rest.len() && !may_wait_above(child, end, #[trigger] rest[i]);
            assert(bucket[i] == rest[i]);
        }
    }
}

/// Whether every mutation of some buckets may be pending above its child.
pub open spec fn all_may_wait(
    children: Seq<ChildView>,
    held: Seq<Seq<MutationView>>,
    parent_end: u64,
    n: int,
) -> bool {
    forall|i: int, j: int|
        0 <= i < n && 0 <= j < held[i].len() ==> may_wait_above(
            children[i],
            if i + 1 < children.len() {
                children[i + 1].min_key
            } else {
                parent_end
            },
            #[trigger] held[i][j],
        )
}

/// Pending mutations are accepted exactly where each may be pending above the
/// child it was routed to.
pub proof fn law_routed_mutations_belong_to_their_children(
    children: Seq<ChildView>,
    held: Seq<Seq<MutationView>>,
    parent_end: u64,
    n: int,
)
    requires
        0 <= n <= children.len(),
        held.len() == children.len(),
    ensures
        split::routing_fault(children, held, parent_end, n) is None == all_may_wait(
            children,
            held,
            parent_end,
            n,
        ),
    decreases n,
{
    if n > 0 {
        law_routed_mutations_belong_to_their_children(children, held, parent_end, n - 1);
        let end = node::end_of(children, n - 1, parent_end);
        lemma_bucket_fault(children[n - 1], end, held[n - 1]);
        if split::routing_fault(children, held, parent_end, n) is None {
            assert forall|i: int, j: int|
                0 <= i < n && 0 <= j < held[i].len() implies may_wait_above(
                children[i],
                if i + 1 < children.len() {
                    children[i + 1].min_key
                } else {
                    parent_end
                },
                #[trigger] held[i][j],
            ) by {
                if i == n - 1 {
                    assert(may_wait_above(children[n - 1], end, held[n - 1][j]));
                }
            }
        }
        if all_may_wait(children, held, parent_end, n) {
            assert(all_may_wait(children, held, parent_end, n - 1));
            assert forall|j: int| 0 <= j < held[n - 1].len() implies may_wait_above(
                children[n - 1],
                end,
                #[trigger] held[n - 1][j],
            ) by {}
        }
    }
}

} // verus!
