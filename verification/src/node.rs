//! Routing, accounting, and splitting of nodes.
//!
//! Node policies use encoded bytes because fragments and actions vary in size.

use vstd::prelude::*;

use crate::action;
use crate::error::{Aggregate, Error, Reason};
use crate::pb::{ChildView, DataFragment, FragmentMetadataChild, FragmentMetadataMutation,
    MutationView};
use crate::record::{Fragment, FragmentView};
use crate::views;
use crate::wire;

verus! {

broadcast use crate::views::group_views;

/// Default routing target. Independent of the leaf target.
pub const DEFAULT_MAX_NODE_BYTES: u64 = 1024 * 1024;

/// Default leaf target.
pub const DEFAULT_MAX_LEAF_BYTES: u64 = 1024 * 1024;

/// Default semantic buffer.
pub const DEFAULT_SEMANTIC_BUFFER_BYTES: u64 = 256 * 1024;

/// Default complete object limit.
pub const DEFAULT_HARD_CAPACITY_BYTES: u64 = 64 * 1024 * 1024;

/// Exclusive end of the last child of a root. Fragment IDs are `u32`.
pub const ROOT_EXCLUSIVE_END: u64 = 0x1_0000_0000;

/// Encoded-byte policy for immutable nodes and semantic buffers.
#[derive(Clone, Copy, Debug, PartialEq, Eq)]
pub struct FragmentMetadataTreeConfig {
    /// Target encoded routing-plus-buffer body size. Routing grows after flushing.
    pub max_node_bytes: u64,
    /// Target encoded leaf size. A single fragment may exceed this target.
    pub max_leaf_bytes: u64,
    /// Pending bytes at which a flush drains children whose batches amortize a
    /// rewrite. Smaller batches stay buffered until `max_node_bytes` forces them.
    pub semantic_buffer_bytes: u64,
    /// Complete object limit, including root envelopes and singleton leaves.
    pub hard_capacity_bytes: u64,
    /// A bounded fanout is useful for structural tests. Dataset writers grow by bytes.
    pub max_children_per_node: u32,
}

impl Default for FragmentMetadataTreeConfig {
    fn default() -> (r: Self)
        ensures
            r == (FragmentMetadataTreeConfig {
                max_node_bytes: DEFAULT_MAX_NODE_BYTES,
                max_leaf_bytes: DEFAULT_MAX_LEAF_BYTES,
                semantic_buffer_bytes: DEFAULT_SEMANTIC_BUFFER_BYTES,
                hard_capacity_bytes: DEFAULT_HARD_CAPACITY_BYTES,
                max_children_per_node: u32::MAX,
            }),
            r.valid(),
    {
        FragmentMetadataTreeConfig {
            max_node_bytes: DEFAULT_MAX_NODE_BYTES,
            max_leaf_bytes: DEFAULT_MAX_LEAF_BYTES,
            semantic_buffer_bytes: DEFAULT_SEMANTIC_BUFFER_BYTES,
            hard_capacity_bytes: DEFAULT_HARD_CAPACITY_BYTES,
            max_children_per_node: u32::MAX,
        }
    }
}

impl FragmentMetadataTreeConfig {
    /// Whether every limit is set and fits the object limit, and every node
    /// can hold two children.
    pub open spec fn valid(self) -> bool {
        &&& 0 < self.max_node_bytes <= self.hard_capacity_bytes
        &&& 0 < self.max_leaf_bytes <= self.hard_capacity_bytes
        &&& 0 < self.semantic_buffer_bytes <= self.hard_capacity_bytes
        &&& self.max_node_bytes <= u64::MAX / 3
        &&& self.max_leaf_bytes <= u64::MAX / 3
        &&& self.max_children_per_node >= 2
    }

    pub open spec fn reason(self) -> Reason {
        Reason::Config {
            max_node_bytes: self.max_node_bytes,
            max_leaf_bytes: self.max_leaf_bytes,
            semantic_buffer_bytes: self.semantic_buffer_bytes,
            hard_capacity_bytes: self.hard_capacity_bytes,
            max_children_per_node: self.max_children_per_node,
        }
    }

    pub fn validate(&self) -> (r: Result<(), Error>)
        ensures
            r == if self.valid() {
                Ok::<(), Error>(())
            } else {
                Err(Error::InvalidInput { reason: self.reason() })
            },
    {
        if self.max_node_bytes == 0 || self.max_leaf_bytes == 0 || self.semantic_buffer_bytes == 0
            || self.hard_capacity_bytes == 0 || self.max_leaf_bytes > self.hard_capacity_bytes
            || self.max_node_bytes > self.hard_capacity_bytes || self.semantic_buffer_bytes
            > self.hard_capacity_bytes || self.max_node_bytes > u64::MAX / 3 || self.max_leaf_bytes
            > u64::MAX / 3 || self.max_children_per_node < 2 {
            return Err(
                Error::InvalidInput {
                    reason: Reason::Config {
                        max_node_bytes: self.max_node_bytes,
                        max_leaf_bytes: self.max_leaf_bytes,
                        semantic_buffer_bytes: self.semantic_buffer_bytes,
                        hard_capacity_bytes: self.hard_capacity_bytes,
                        max_children_per_node: self.max_children_per_node,
                    },
                },
            );
        }
        Ok(())
    }

    /// One byte target for nodes, leaves and buffers, with a bounded fanout.
    pub fn new(max_node_bytes: u64, max_children_per_node: u32) -> (r: Self)
        ensures
            r == (FragmentMetadataTreeConfig {
                max_node_bytes,
                max_leaf_bytes: max_node_bytes,
                semantic_buffer_bytes: max_node_bytes,
                hard_capacity_bytes: DEFAULT_HARD_CAPACITY_BYTES,
                max_children_per_node,
            }),
    {
        let default = FragmentMetadataTreeConfig::default();
        FragmentMetadataTreeConfig {
            max_node_bytes,
            max_leaf_bytes: max_node_bytes,
            semantic_buffer_bytes: max_node_bytes,
            hard_capacity_bytes: default.hard_capacity_bytes,
            max_children_per_node,
        }
    }

    pub fn with_max_leaf_bytes(self, bytes: u64) -> (r: Self)
        ensures
            r == (FragmentMetadataTreeConfig { max_leaf_bytes: bytes, ..self }),
    {
        FragmentMetadataTreeConfig { max_leaf_bytes: bytes, ..self }
    }

    pub fn with_semantic_buffer_bytes(self, bytes: u64) -> (r: Self)
        ensures
            r == (FragmentMetadataTreeConfig { semantic_buffer_bytes: bytes, ..self }),
    {
        FragmentMetadataTreeConfig { semantic_buffer_bytes: bytes, ..self }
    }

    pub fn with_hard_capacity_bytes(self, bytes: u64) -> (r: Self)
        ensures
            r == (FragmentMetadataTreeConfig { hard_capacity_bytes: bytes, ..self }),
    {
        FragmentMetadataTreeConfig { hard_capacity_bytes: bytes, ..self }
    }

    pub fn split_ceiling(&self) -> (r: u64)
        ensures
            r == self.max_node_bytes,
    {
        self.max_node_bytes
    }

    pub fn split_piece_bytes(&self) -> (r: u64)
        ensures
            r == self.max_node_bytes / 2,
    {
        self.max_node_bytes / 2
    }

    pub fn merge_floor(&self) -> (r: u64)
        ensures
            r == self.max_node_bytes / 4,
    {
        self.max_node_bytes / 4
    }

    pub fn coalesce_ceiling(&self) -> (r: u64)
        requires
            self.max_node_bytes <= u64::MAX / 3,
        ensures
            r == self.max_node_bytes * 3 / 5,
    {
        self.max_node_bytes * 3 / 5
    }

    pub fn leaf_split_ceiling(&self) -> (r: u64)
        ensures
            r == self.max_leaf_bytes,
    {
        self.max_leaf_bytes
    }

    pub fn leaf_merge_floor(&self) -> (r: u64)
        ensures
            r == self.max_leaf_bytes / 4,
    {
        self.max_leaf_bytes / 4
    }

    pub fn leaf_coalesce_ceiling(&self) -> (r: u64)
        requires
            self.max_leaf_bytes <= u64::MAX / 3,
        ensures
            r == self.max_leaf_bytes * 3 / 5,
    {
        self.max_leaf_bytes * 3 / 5
    }
}

/// An internal node: child pivots (sorted by `min_key`, contiguous) and the
/// buffer, kept in action sequence (insertion) order.
#[derive(Debug)]
pub struct InternalNode {
    pub children: Vec<FragmentMetadataChild>,
    pub buffer: Vec<FragmentMetadataMutation>,
}

impl Clone for InternalNode {
    fn clone(&self) -> (r: Self)
        ensures
            views::all(r.children@) == views::all(self.children@),
            views::all(r.buffer@) == views::all(self.buffer@),
    {
        InternalNode {
            children: crate::pb::clone_children(&self.children),
            buffer: crate::pb::clone_mutations(&self.buffer),
        }
    }
}

impl Default for InternalNode {
    fn default() -> (r: Self)
        ensures
            r.children@.len() == 0,
            r.buffer@.len() == 0,
    {
        InternalNode { children: Vec::new(), buffer: Vec::new() }
    }
}

/// The target key of a buffered action (the fragment id it mutates).
pub fn action_key(t: &FragmentMetadataMutation) -> (r: u64)
    ensures
        r == t@.key(),
{
    match &t.action {
        Some(a) => match action::target_frag_id(a) {
            Some(id) => id,
            None => 0,
        },
        None => 0,
    }
}

// Sizes.

/// Fragment message bytes, used to bound candidate encoding work and report
/// amplification.
pub fn fragment_logical_bytes(fragment: &Fragment) -> (r: u64)
    ensures
        r == wire::capped(fragment@.encoded().encoded_len()),
{
    wire::fragment_bytes(&DataFragment::encode(fragment))
}

pub open spec fn fragments_len(fragments: Seq<FragmentView>) -> nat
    decreases fragments.len(),
{
    if fragments.len() == 0 {
        0
    } else {
        fragments_len(fragments.drop_last()) + fragments.last().encoded().encoded_len()
    }
}

/// Fragment message bytes before leaf encoding; this is not the leaf capacity
/// metric.
pub fn leaf_logical_bytes(fragments: &Vec<Fragment>) -> (r: u64)
    ensures
        r == wire::capped(fragments_len(views::all(fragments@))),
{
    let ghost all = views::all(fragments@);
    let mut sum: u64 = 0;
    let mut i: usize = 0;
    while i < fragments.len()
        invariant
            i <= fragments@.len(),
            all == views::all(fragments@),
            sum == wire::capped(fragments_len(all.take(i as int))),
        decreases fragments@.len() - i,
    {
        proof {
            assert(all.take(i + 1).drop_last() =~= all.take(i as int));
            assert(all.take(i + 1).last() == fragments@[i as int]@);
        }
        sum = sum.saturating_add(fragment_logical_bytes(&fragments[i]));
        i = i + 1;
    }
    assert(all.take(all.len() as int) =~= all);
    sum
}

/// The bytes of child references as a repeated field.
pub open spec fn children_len(children: Seq<ChildView>) -> nat
    decreases children.len(),
{
    if children.len() == 0 {
        0
    } else {
        children_len(children.drop_last()) + wire::delimited_len(children.last().encoded_len())
    }
}

/// The bytes of mutations as a repeated field.
pub open spec fn buffer_len(buffer: Seq<MutationView>) -> nat
    decreases buffer.len(),
{
    if buffer.len() == 0 {
        0
    } else {
        buffer_len(buffer.drop_last()) + wire::delimited_len(buffer.last().encoded_len())
    }
}

fn varint_bytes(value: u64) -> (r: u64)
    ensures
        r == wire::varint_len(value as nat),
        1 <= r <= 10,
{
    proof {
        wire::lemma_varint_len(value as nat);
    }
    let mut rest: u64 = value;
    let mut bytes: u64 = 1;
    while rest >= 0x80
        invariant
            1 <= bytes,
            bytes + wire::varint_len(rest as nat) == 1 + wire::varint_len(value as nat),
            wire::varint_len(value as nat) <= 10,
        decreases rest,
    {
        assert(rest >> 7 == rest / 0x80) by (bit_vector);
        rest = rest >> 7;
        proof {
            wire::lemma_varint_len(rest as nat);
        }
        bytes = bytes + 1;
    }
    bytes
}

fn repeated_message_bytes(payload_bytes: u64) -> (r: u64)
    ensures
        forall|len: nat|
            payload_bytes == #[trigger] wire::capped(len) ==> r == wire::capped(
                wire::delimited_len(len),
            ),
{
    (1 + varint_bytes(payload_bytes)).saturating_add(payload_bytes)
}

fn children_bytes(children: &Vec<FragmentMetadataChild>) -> (r: u64)
    ensures
        r == wire::capped(children_len(views::all(children@))),
{
    let ghost all = views::all(children@);
    let mut sum: u64 = 0;
    let mut i: usize = 0;
    while i < children.len()
        invariant
            i <= children@.len(),
            all == views::all(children@),
            sum == wire::capped(children_len(all.take(i as int))),
        decreases children@.len() - i,
    {
        proof {
            assert(all.take(i + 1).drop_last() =~= all.take(i as int));
            assert(all.take(i + 1).last() == children@[i as int]@);
        }
        sum = sum.saturating_add(repeated_message_bytes(wire::child_bytes(&children[i])));
        i = i + 1;
    }
    assert(all.take(all.len() as int) =~= all);
    sum
}

fn mutations_bytes(buffer: &Vec<FragmentMetadataMutation>) -> (r: u64)
    ensures
        r == wire::capped(buffer_len(views::all(buffer@))),
{
    let ghost all = views::all(buffer@);
    let mut sum: u64 = 0;
    let mut i: usize = 0;
    while i < buffer.len()
        invariant
            i <= buffer@.len(),
            all == views::all(buffer@),
            sum == wire::capped(buffer_len(all.take(i as int))),
        decreases buffer@.len() - i,
    {
        proof {
            assert(all.take(i + 1).drop_last() =~= all.take(i as int));
            assert(all.take(i + 1).last() == buffer@[i as int]@);
        }
        sum = sum.saturating_add(repeated_message_bytes(wire::mutation_bytes(&buffer[i])));
        i = i + 1;
    }
    assert(all.take(all.len() as int) =~= all);
    sum
}

/// Logical byte size of an internal node: its exact encoded message size.
pub fn internal_logical_bytes(
    children: &Vec<FragmentMetadataChild>,
    buffer: &Vec<FragmentMetadataMutation>,
) -> (r: u64)
    ensures
        r == wire::capped(children_len(views::all(children@)) + buffer_len(views::all(buffer@))),
{
    children_bytes(children).saturating_add(mutations_bytes(buffer))
}

/// Whether a node is over its encoded-byte or fanout limit.
pub open spec fn overflows(
    children: Seq<ChildView>,
    buffer: Seq<MutationView>,
    config: FragmentMetadataTreeConfig,
) -> bool {
    ||| children.len() as u32 > config.max_children_per_node
    ||| wire::capped(children_len(children) + buffer_len(buffer)) >= config.max_node_bytes
}

/// Whether an internal node violates its encoded-byte or fanout limit. This is
/// the structural bound. A node over it must drain or split.
pub fn internal_overflows(
    children: &Vec<FragmentMetadataChild>,
    buffer: &Vec<FragmentMetadataMutation>,
    config: &FragmentMetadataTreeConfig,
) -> (r: bool)
    ensures
        r == overflows(views::all(children@), views::all(buffer@), *config),
{
    children.len() as u32 > config.max_children_per_node || internal_logical_bytes(children, buffer)
        >= config.split_ceiling()
}

/// Whether pending bytes reach the semantic buffer.
pub open spec fn pressured(
    buffer: Seq<MutationView>,
    config: FragmentMetadataTreeConfig,
) -> bool {
    wire::capped(buffer_len(buffer)) >= config.semantic_buffer_bytes
}

/// Whether pending bytes exceed the semantic buffer. This is the soft bound.
/// The writer drains children whose batches amortize a rewrite and keeps the
/// rest buffered until structural pressure forces progress.
pub fn buffer_pressured(
    buffer: &Vec<FragmentMetadataMutation>,
    config: &FragmentMetadataTreeConfig,
) -> (r: bool)
    ensures
        r == pressured(views::all(buffer@), *config),
{
    mutations_bytes(buffer) >= config.semantic_buffer_bytes
}

/// The bytes of mutations on their own, without field keys.
pub open spec fn payload_len(buffer: Seq<MutationView>) -> nat
    decreases buffer.len(),
{
    if buffer.len() == 0 {
        0
    } else {
        payload_len(buffer.drop_last()) + buffer.last().encoded_len()
    }
}

/// Sum of encoded bytes of a set of buffered actions.
pub fn buffer_bytes(buffer: &Vec<FragmentMetadataMutation>) -> (r: u64)
    ensures
        r == wire::capped(payload_len(views::all(buffer@))),
{
    let ghost all = views::all(buffer@);
    let mut sum: u64 = 0;
    let mut i: usize = 0;
    while i < buffer.len()
        invariant
            i <= buffer@.len(),
            all == views::all(buffer@),
            sum == wire::capped(payload_len(all.take(i as int))),
        decreases buffer@.len() - i,
    {
        proof {
            assert(all.take(i + 1).drop_last() =~= all.take(i as int));
            assert(all.take(i + 1).last() == buffer@[i as int]@);
        }
        sum = sum.saturating_add(wire::mutation_bytes(&buffer[i]));
        i = i + 1;
    }
    assert(all.take(all.len() as int) =~= all);
    sum
}

// Routing.

/// The child owning a key: the rightmost child whose `min_key` is at most the
/// key, and the first child for keys below every fence.
pub open spec fn route(children: Seq<ChildView>, key: u64) -> int
    decreases children.len(),
{
    if children.len() <= 1 || children.last().min_key <= key {
        if children.len() == 0 {
            0
        } else {
            children.len() - 1
        }
    } else {
        route(children.drop_last(), key)
    }
}

pub proof fn lemma_route(children: Seq<ChildView>, key: u64)
    ensures
        children.len() > 0 ==> 0 <= route(children, key) < children.len(),
        route(children, key) > 0 ==> children[route(children, key)].min_key <= key,
        forall|i: int|
            route(children, key) < i < children.len() ==> key < (#[trigger] children[i]).min_key,
    decreases children.len(),
{
    if children.len() > 1 && children.last().min_key > key {
        let rest = children.drop_last();
        lemma_route(rest, key);
        assert forall|i: int| route(children, key) < i < children.len() implies key < (
        #[trigger] children[i]).min_key by {
            if i < rest.len() {
                assert(rest[i] == children[i]);
            }
        }
    }
}

/// Index of the child owning `key`.
///
/// Routing invariant: sibling `min_key` values are the only fences. The last
/// child's exclusive end is inherited from its parent (`2^32` at the root).
/// Keys below the first fence belong to the first child, so an emptied
/// node must be dropped rather than kept with `min_key = 0`.
pub fn child_index_for(children: &Vec<FragmentMetadataChild>, key: u64) -> (r: usize)
    ensures
        r == route(views::all(children@), key),
        children@.len() > 0 ==> r < children@.len(),
{
    let ghost all = views::all(children@);
    let mut n: usize = children.len();
    proof {
        lemma_route(all, key);
        assert(all.take(n as int) =~= all);
    }
    while n > 1 && children[n - 1].min_key > key
        invariant
            n <= children@.len(),
            all == views::all(children@),
            route(all.take(n as int), key) == route(all, key),
            children@.len() > 0 ==> n > 0,
        decreases n,
    {
        assert(all.take(n as int).last() == children@[n - 1]@);
        assert(all.take(n as int).drop_last() =~= all.take(n - 1));
        n = n - 1;
    }
    if n == 0 {
        0
    } else {
        assert(all.take(n as int).last() == children@[n - 1]@);
        n - 1
    }
}

/// Pin the first child's fence to the node's lower bound. A rebuilt child list
/// starts at its first stored key, but the range it owns starts where the
/// parent says it does. That is 0 at the root and the parent's entry below it.
pub fn fence(children: &mut Vec<FragmentMetadataChild>, lower_bound: u64)
    requires
        old(children)@.len() > 0 ==> lower_bound <= old(children)@[0].min_key,
    ensures
        views::all(final(children)@) == fenced(views::all(old(children)@), lower_bound),
{
    if children.len() > 0 {
        let ghost before = views::all(children@);
        let mut first = children[0].clone();
        first.min_key = lower_bound;
        children.set(0, first);
        assert(views::all(children@) =~= fenced(before, lower_bound));
    }
}

pub open spec fn fenced(children: Seq<ChildView>, lower_bound: u64) -> Seq<ChildView> {
    if children.len() == 0 {
        children
    } else {
        children.update(0, ChildView { min_key: lower_bound, ..children[0] })
    }
}

/// Where the range of a child ends inside a parent that ends at `parent_end`.
pub open spec fn end_of(children: Seq<ChildView>, index: int, parent_end: u64) -> u64 {
    if 0 <= index + 1 < children.len() {
        children[index + 1].min_key
    } else {
        parent_end
    }
}

/// Exclusive end of `children[index]` inside a parent whose last child ends
/// at `parent_end`.
pub fn exclusive_end(
    children: &Vec<FragmentMetadataChild>,
    index: usize,
    parent_end: u64,
) -> (r: u64)
    ensures
        r == end_of(views::all(children@), index as int, parent_end),
{
    if index < children.len() && index + 1 < children.len() {
        children[index + 1].min_key
    } else {
        parent_end
    }
}

// Child references.

/// Values summed up to the first sum that cannot be represented.
pub open spec fn summed(values: Seq<u64>, name: Aggregate) -> Result<u64, Error>
    decreases values.len(),
{
    if values.len() == 0 {
        Ok(0)
    } else {
        match summed(values.drop_last(), name) {
            Err(error) => Err(error),
            Ok(sum) => if sum + values.last() <= u64::MAX {
                Ok((sum + values.last()) as u64)
            } else {
                Err(
                    Error::InvalidInput {
                        reason: Reason::SumOverflow { name, sum, value: values.last() },
                    },
                )
            },
        }
    }
}

/// Deltas summed up to the first sum that cannot be represented.
pub open spec fn summed_deltas(deltas: Seq<i64>, name: Aggregate) -> Result<i64, Error>
    decreases deltas.len(),
{
    if deltas.len() == 0 {
        Ok(0)
    } else {
        match summed_deltas(deltas.drop_last(), name) {
            Err(error) => Err(error),
            Ok(sum) => if i64::MIN <= sum + deltas.last() <= i64::MAX {
                Ok((sum + deltas.last()) as i64)
            } else {
                Err(
                    Error::InvalidInput {
                        reason: Reason::DeltaSumOverflow {
                            name,
                            delta_sum: sum,
                            delta: deltas.last(),
                        },
                    },
                )
            },
        }
    }
}

/// A sum changed by a delta, where the result can be represented.
pub open spec fn changed(base: u64, delta: i64, name: Aggregate) -> Result<u64, Error> {
    if 0 <= base + delta <= u64::MAX {
        Ok((base + delta) as u64)
    } else if delta >= 0 {
        Err(Error::InvalidInput { reason: Reason::AggregateOverflow { name, base, delta } })
    } else {
        Err(Error::InvalidInput { reason: Reason::AggregateUnderflow { name, base, delta } })
    }
}

pub fn apply_aggregate_delta(base: u64, delta: i64, name: Aggregate) -> (r: Result<u64, Error>)
    ensures
        r == changed(base, delta, name),
{
    if delta >= 0 {
        match base.checked_add(delta as u64) {
            Some(sum) => Ok(sum),
            None => Err(
                Error::InvalidInput { reason: Reason::AggregateOverflow { name, base, delta } },
            ),
        }
    } else {
        let magnitude: u64 = (-(delta as i128)) as u64;
        match base.checked_sub(magnitude) {
            Some(sum) => Ok(sum),
            None => Err(
                Error::InvalidInput { reason: Reason::AggregateUnderflow { name, base, delta } },
            ),
        }
    }
}

pub fn sum_aggregate_deltas(deltas: &Vec<i64>, name: Aggregate) -> (r: Result<i64, Error>)
    ensures
        r == summed_deltas(deltas@, name),
{
    let mut sum: i64 = 0;
    let mut i: usize = 0;
    while i < deltas.len()
        invariant
            i <= deltas@.len(),
            summed_deltas(deltas@.take(i as int), name) == Ok::<i64, Error>(sum),
        decreases deltas@.len() - i,
    {
        let ghost taken = deltas@.take(i + 1);
        assert(taken.drop_last() =~= deltas@.take(i as int));
        assert(taken.last() == deltas@[i as int]);
        match sum.checked_add(deltas[i]) {
            Some(next) => {
                sum = next;
            },
            None => {
                proof {
                    lemma_summed_deltas_prefix(deltas@, i + 1, name);
                }
                return Err(
                    Error::InvalidInput {
                        reason: Reason::DeltaSumOverflow {
                            name,
                            delta_sum: sum,
                            delta: deltas[i],
                        },
                    },
                );
            },
        }
        i = i + 1;
    }
    assert(deltas@.take(deltas@.len() as int) =~= deltas@);
    Ok(sum)
}

proof fn lemma_summed_deltas_prefix(deltas: Seq<i64>, n: int, name: Aggregate)
    requires
        0 <= n <= deltas.len(),
        summed_deltas(deltas.take(n), name) is Err,
    ensures
        summed_deltas(deltas, name) == summed_deltas(deltas.take(n), name),
    decreases deltas.len() - n,
{
    if n < deltas.len() {
        assert(deltas.take(n + 1).drop_last() =~= deltas.take(n));
        lemma_summed_deltas_prefix(deltas, n + 1, name);
    } else {
        assert(deltas.take(n) =~= deltas);
    }
}

fn sum_aggregate_values(values: &Vec<u64>, name: Aggregate) -> (r: Result<u64, Error>)
    ensures
        r == summed(values@, name),
{
    let mut sum: u64 = 0;
    let mut i: usize = 0;
    while i < values.len()
        invariant
            i <= values@.len(),
            summed(values@.take(i as int), name) == Ok::<u64, Error>(sum),
        decreases values@.len() - i,
    {
        let ghost taken = values@.take(i + 1);
        assert(taken.drop_last() =~= values@.take(i as int));
        assert(taken.last() == values@[i as int]);
        match sum.checked_add(values[i]) {
            Some(next) => {
                sum = next;
            },
            None => {
                proof {
                    lemma_summed_prefix(values@, i + 1, name);
                }
                return Err(
                    Error::InvalidInput {
                        reason: Reason::SumOverflow { name, sum, value: values[i] },
                    },
                );
            },
        }
        i = i + 1;
    }
    assert(values@.take(values@.len() as int) =~= values@);
    Ok(sum)
}

proof fn lemma_summed_prefix(values: Seq<u64>, n: int, name: Aggregate)
    requires
        0 <= n <= values.len(),
        summed(values.take(n), name) is Err,
    ensures
        summed(values, name) == summed(values.take(n), name),
    decreases values.len() - n,
{
    if n < values.len() {
        assert(values.take(n + 1).drop_last() =~= values.take(n));
        lemma_summed_prefix(values, n + 1, name);
    } else {
        assert(values.take(n) =~= values);
    }
}

impl FragmentView {
    /// Rows the record holds, with an unknown count taken as none.
    pub open spec fn row_count(self) -> u64 {
        match self.physical_rows {
            Some(rows) => rows as u64,
            None => 0,
        }
    }

    /// Rows that are not deleted, with an unknown count taken as none.
    pub open spec fn visible_count(self) -> u64 {
        match self.num_rows() {
            Some(rows) => rows as u64,
            None => 0,
        }
    }
}

pub open spec fn row_counts(fragments: Seq<FragmentView>) -> Seq<u64> {
    Seq::new(fragments.len(), |i: int| fragments[i].row_count())
}

pub open spec fn visible_counts(fragments: Seq<FragmentView>) -> Seq<u64> {
    Seq::new(fragments.len(), |i: int| fragments[i].visible_count())
}

/// The reference to a leaf that holds some records.
pub open spec fn leaf_summary(
    path: Seq<char>,
    fragments: Seq<FragmentView>,
    object_size: u64,
    materialized_through_action_sequence: u64,
) -> Result<ChildView, Error> {
    match summed(row_counts(fragments), Aggregate::TotalRows) {
        Err(error) => Err(error),
        Ok(total_rows) => match summed(visible_counts(fragments), Aggregate::VisibleRows) {
            Err(error) => Err(error),
            Ok(visible_rows) => Ok(
                ChildView {
                    path,
                    base_id: None,
                    min_key: if fragments.len() == 0 {
                        0
                    } else {
                        fragments[0].id
                    },
                    num_keys: fragments.len() as u64,
                    height: 0,
                    num_children: 0,
                    total_rows,
                    object_size,
                    materialized_through_action_sequence,
                    visible_rows,
                },
            ),
        },
    }
}

/// Build a child reference for a leaf that has just been written.
pub fn leaf_ref(
    path: String,
    fragments: &Vec<Fragment>,
    object_size: u64,
    materialized_through_action_sequence: u64,
) -> (r: Result<FragmentMetadataChild, Error>)
    ensures
        match leaf_summary(
            path@,
            views::all(fragments@),
            object_size,
            materialized_through_action_sequence,
        ) {
            Ok(child) => r is Ok && r->Ok_0@ == child,
            Err(error) => r == Err::<FragmentMetadataChild, Error>(error),
        },
{
    let ghost all = views::all(fragments@);
    let mut rows: Vec<u64> = Vec::new();
    let mut visible: Vec<u64> = Vec::new();
    let mut i: usize = 0;
    while i < fragments.len()
        invariant
            i <= fragments@.len(),
            all == views::all(fragments@),
            rows@ == row_counts(all).take(i as int),
            visible@ == visible_counts(all).take(i as int),
        decreases fragments@.len() - i,
    {
        let physical: u64 = match fragments[i].physical_rows {
            Some(rows) => rows as u64,
            None => 0,
        };
        let live: u64 = match fragments[i].num_rows() {
            Some(rows) => rows as u64,
            None => 0,
        };
        rows.push(physical);
        visible.push(live);
        proof {
            assert(rows@ =~= row_counts(all).take(i + 1));
            assert(visible@ =~= visible_counts(all).take(i + 1));
        }
        i = i + 1;
    }
    proof {
        assert(rows@ =~= row_counts(all));
        assert(visible@ =~= visible_counts(all));
    }
    let total_rows: u64 = match sum_aggregate_values(&rows, Aggregate::TotalRows) {
        Ok(sum) => sum,
        Err(error) => {
            return Err(error);
        },
    };
    let visible_rows: u64 = match sum_aggregate_values(&visible, Aggregate::VisibleRows) {
        Ok(sum) => sum,
        Err(error) => {
            return Err(error);
        },
    };
    let min_key: u64 = if fragments.len() == 0 {
        0
    } else {
        fragments[0].id
    };
    Ok(
        FragmentMetadataChild {
            path,
            base_id: None,
            min_key,
            num_keys: fragments.len() as u64,
            height: 0,
            num_children: 0,
            total_rows,
            object_size,
            materialized_through_action_sequence,
            visible_rows,
        },
    )
}

pub open spec fn key_counts(children: Seq<ChildView>) -> Seq<u64> {
    Seq::new(children.len(), |i: int| children[i].num_keys)
}

pub open spec fn child_rows(children: Seq<ChildView>) -> Seq<u64> {
    Seq::new(children.len(), |i: int| children[i].total_rows)
}

pub open spec fn child_visible(children: Seq<ChildView>) -> Seq<u64> {
    Seq::new(children.len(), |i: int| children[i].visible_rows)
}

/// The tallest child; zero where there is none.
pub open spec fn max_height(children: Seq<ChildView>) -> u32
    decreases children.len(),
{
    if children.len() == 0 {
        0
    } else {
        let rest = max_height(children.drop_last());
        if children.last().height > rest {
            children.last().height
        } else {
            rest
        }
    }
}

/// The sum over a node's children changed by what its buffer adds.
pub open spec fn balance(
    values: Seq<u64>,
    value_name: Aggregate,
    deltas: Seq<i64>,
    delta_name: Aggregate,
) -> Result<u64, Error> {
    match summed_deltas(deltas, delta_name) {
        Err(error) => Err(error),
        Ok(delta) => match summed(values, value_name) {
            Err(error) => Err(error),
            Ok(sum) => changed(sum, delta, value_name),
        },
    }
}

/// The reference to an internal node that holds children and a buffer.
pub open spec fn internal_summary(
    path: Seq<char>,
    children: Seq<ChildView>,
    buffer: Seq<MutationView>,
    object_size: u64,
) -> Result<ChildView, Error> {
    let fragment_deltas = crate::squash::fragment_deltas(buffer);
    let row_deltas = crate::squash::row_deltas(buffer);
    let visible_deltas = crate::squash::visible_deltas(buffer);
    let num_keys = balance(
        key_counts(children),
        Aggregate::NumKeys,
        fragment_deltas,
        Aggregate::FragmentCountDelta,
    );
    let total_rows = balance(
        child_rows(children),
        Aggregate::TotalRows,
        row_deltas,
        Aggregate::TotalRowsDelta,
    );
    let visible_rows = balance(
        child_visible(children),
        Aggregate::VisibleRows,
        visible_deltas,
        Aggregate::VisibleRowsDelta,
    );
    if summed_deltas(fragment_deltas, Aggregate::FragmentCountDelta) is Err {
        Err(summed_deltas(fragment_deltas, Aggregate::FragmentCountDelta)->Err_0)
    } else if summed_deltas(row_deltas, Aggregate::TotalRowsDelta) is Err {
        Err(summed_deltas(row_deltas, Aggregate::TotalRowsDelta)->Err_0)
    } else if num_keys is Err {
        Err(num_keys->Err_0)
    } else if total_rows is Err {
        Err(total_rows->Err_0)
    } else if visible_rows is Err {
        Err(visible_rows->Err_0)
    } else if max_height(children) == u32::MAX {
        Err(Error::CorruptFile { reason: Reason::HeightExceedsU32 })
    } else {
        Ok(
            ChildView {
                path,
                base_id: None,
                min_key: if children.len() == 0 {
                    0
                } else {
                    children[0].min_key
                },
                num_keys: num_keys->Ok_0,
                height: (max_height(children) + 1) as u32,
                num_children: children.len() as u32,
                total_rows: total_rows->Ok_0,
                object_size,
                materialized_through_action_sequence: 0,
                visible_rows: visible_rows->Ok_0,
            },
        )
    }
}

/// Build a child reference for an internal node that has just been written.
pub fn internal_ref(
    path: String,
    children: &Vec<FragmentMetadataChild>,
    buffer: &Vec<FragmentMetadataMutation>,
    object_size: u64,
) -> (r: Result<FragmentMetadataChild, Error>)
    ensures
        match internal_summary(path@, views::all(children@), views::all(buffer@), object_size) {
            Ok(child) => r is Ok && r->Ok_0@ == child,
            Err(error) => r == Err::<FragmentMetadataChild, Error>(error),
        },
{
    let ghost kids = views::all(children@);
    let ghost pending = views::all(buffer@);
    let mut fragment_deltas: Vec<i64> = Vec::new();
    let mut row_deltas: Vec<i64> = Vec::new();
    let mut visible_deltas: Vec<i64> = Vec::new();
    let mut i: usize = 0;
    while i < buffer.len()
        invariant
            i <= buffer@.len(),
            pending == views::all(buffer@),
            fragment_deltas@ == crate::squash::fragment_deltas(pending).take(i as int),
            row_deltas@ == crate::squash::row_deltas(pending).take(i as int),
            visible_deltas@ == crate::squash::visible_deltas(pending).take(i as int),
        decreases buffer@.len() - i,
    {
        fragment_deltas.push(buffer[i].fragment_count_delta);
        row_deltas.push(buffer[i].total_rows_delta);
        visible_deltas.push(buffer[i].visible_rows_delta);
        proof {
            let n = i + 1;
            assert(fragment_deltas@ =~= crate::squash::fragment_deltas(pending).take(n));
            assert(row_deltas@ =~= crate::squash::row_deltas(pending).take(n));
            assert(visible_deltas@ =~= crate::squash::visible_deltas(pending).take(n));
        }
        i = i + 1;
    }
    let mut keys: Vec<u64> = Vec::new();
    let mut rows: Vec<u64> = Vec::new();
    let mut visible: Vec<u64> = Vec::new();
    let mut tallest: u32 = 0;
    let mut j: usize = 0;
    while j < children.len()
        invariant
            j <= children@.len(),
            kids == views::all(children@),
            keys@ == key_counts(kids).take(j as int),
            rows@ == child_rows(kids).take(j as int),
            visible@ == child_visible(kids).take(j as int),
            tallest == max_height(kids.take(j as int)),
        decreases children@.len() - j,
    {
        keys.push(children[j].num_keys);
        rows.push(children[j].total_rows);
        visible.push(children[j].visible_rows);
        proof {
            let n = j + 1;
            assert(keys@ =~= key_counts(kids).take(n));
            assert(rows@ =~= child_rows(kids).take(n));
            assert(visible@ =~= child_visible(kids).take(n));
            assert(kids.take(n).drop_last() =~= kids.take(j as int));
            assert(kids.take(n).last() == children@[j as int]@);
        }
        if children[j].height > tallest {
            tallest = children[j].height;
        }
        j = j + 1;
    }
    proof {
        assert(fragment_deltas@ =~= crate::squash::fragment_deltas(pending));
        assert(row_deltas@ =~= crate::squash::row_deltas(pending));
        assert(visible_deltas@ =~= crate::squash::visible_deltas(pending));
        assert(keys@ =~= key_counts(kids));
        assert(rows@ =~= child_rows(kids));
        assert(visible@ =~= child_visible(kids));
        assert(kids.take(kids.len() as int) =~= kids);
    }
    let fragment_count_delta: i64 = match sum_aggregate_deltas(
        &fragment_deltas,
        Aggregate::FragmentCountDelta,
    ) {
        Ok(sum) => sum,
        Err(error) => {
            return Err(error);
        },
    };
    let total_rows_delta: i64 = match sum_aggregate_deltas(&row_deltas, Aggregate::TotalRowsDelta) {
        Ok(sum) => sum,
        Err(error) => {
            return Err(error);
        },
    };
    let num_keys: u64 = match apply_sum(&keys, fragment_count_delta, Aggregate::NumKeys) {
        Ok(sum) => sum,
        Err(error) => {
            return Err(error);
        },
    };
    let total_rows: u64 = match apply_sum(&rows, total_rows_delta, Aggregate::TotalRows) {
        Ok(sum) => sum,
        Err(error) => {
            return Err(error);
        },
    };
    let visible_rows_delta: i64 = match sum_aggregate_deltas(
        &visible_deltas,
        Aggregate::VisibleRowsDelta,
    ) {
        Ok(sum) => sum,
        Err(error) => {
            return Err(error);
        },
    };
    let visible_rows: u64 = match apply_sum(&visible, visible_rows_delta, Aggregate::VisibleRows) {
        Ok(sum) => sum,
        Err(error) => {
            return Err(error);
        },
    };
    if tallest == u32::MAX {
        return Err(Error::CorruptFile { reason: Reason::HeightExceedsU32 });
    }
    let min_key: u64 = if children.len() == 0 {
        0
    } else {
        children[0].min_key
    };
    Ok(
        FragmentMetadataChild {
            path,
            base_id: None,
            min_key,
            num_keys,
            height: tallest + 1,
            num_children: children.len() as u32,
            total_rows,
            object_size,
            materialized_through_action_sequence: 0,
            visible_rows,
        },
    )
}

fn apply_sum(values: &Vec<u64>, delta: i64, name: Aggregate) -> (r: Result<u64, Error>)
    ensures
        r == match summed(values@, name) {
            Err(error) => Err::<u64, Error>(error),
            Ok(sum) => changed(sum, delta, name),
        },
{
    match sum_aggregate_values(values, name) {
        Ok(sum) => apply_aggregate_delta(sum, delta, name),
        Err(error) => Err(error),
    }
}

/// Whether a child is small enough to be merged with a neighbour.
pub open spec fn underflows(child: ChildView, config: FragmentMetadataTreeConfig) -> bool {
    if child.height == 0 {
        child.object_size <= config.max_leaf_bytes / 4
    } else {
        &&& child.num_children < (if config.max_children_per_node / 4 == 0 {
            1
        } else {
            config.max_children_per_node / 4
        })
        &&& child.object_size <= config.max_node_bytes / 4
    }
}

/// Is this child underflowing (a merge candidate)? Leaves underflow by bytes.
/// Internal nodes must be sparse by both direct-child count and their exact
/// encoded size so a hot buffer is never merged as "small."
pub fn is_underflow(child: &FragmentMetadataChild, config: &FragmentMetadataTreeConfig) -> (r: bool)
    ensures
        r == underflows(child@, *config),
{
    if child.height == 0 {
        child.object_size <= config.leaf_merge_floor()
    } else {
        let quarter: u32 = config.max_children_per_node / 4;
        let fanout_floor: u32 = if quarter == 0 {
            1
        } else {
            quarter
        };
        child.num_children < fanout_floor && child.object_size <= config.merge_floor()
    }
}

} // verus!
