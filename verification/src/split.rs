//! Dividing a node: its buffer by child, and the whole node into pieces.

use vstd::prelude::*;

use crate::error::{Error, Reason};
use crate::node;
use crate::pb::{ChildView, FragmentMetadataChild, FragmentMetadataMutation, MutationView};
use crate::views;
use crate::wire;

verus! {

broadcast use crate::views::group_views;

/// The mutations of a buffer that a child owns, in the order they are held.
pub open spec fn bucket(children: Seq<ChildView>, buffer: Seq<MutationView>, index: int) -> Seq<
    MutationView,
> {
    buffer.filter(|m: MutationView| node::route(children, m.key()) == index)
}

/// A buffer in one bucket per child.
pub open spec fn buckets(children: Seq<ChildView>, buffer: Seq<MutationView>) -> Seq<
    Seq<MutationView>,
> {
    Seq::new(children.len(), |i: int| bucket(children, buffer, i))
}

/// Partition a buffer into one bucket per child by the routing fences. The
/// buffer is consumed. Callers must not pass an empty list of children with
/// anything buffered.
pub fn partition_buffer_by_child(
    children: &Vec<FragmentMetadataChild>,
    buffer: Vec<FragmentMetadataMutation>,
) -> (r: Vec<Vec<FragmentMetadataMutation>>)
    requires
        children@.len() > 0 || buffer@.len() == 0,
    ensures
        r@.len() == children@.len(),
        forall|i: int|
            0 <= i < r@.len() ==> views::all((#[trigger] r@[i])@) == bucket(
                views::all(children@),
                views::all(buffer@),
                i,
            ),
{
    let ghost kids = views::all(children@);
    let ghost all = views::all(buffer@);
    let mut buckets: Vec<Vec<FragmentMetadataMutation>> = Vec::new();
    let mut n: usize = 0;
    while n < children.len()
        invariant
            n <= children@.len(),
            buckets@.len() == n,
            forall|i: int| 0 <= i < n ==> (#[trigger] buckets@[i])@.len() == 0,
        decreases children@.len() - n,
    {
        buckets.push(Vec::new());
        n = n + 1;
    }
    assert(all.take(0) =~= Seq::<MutationView>::empty());
    assert forall|i: int| 0 <= i < buckets@.len() implies views::all(
        (#[trigger] buckets@[i])@,
    ) == bucket(kids, all.take(0), i) by {
        assert(bucket(kids, all.take(0), i) =~= Seq::<MutationView>::empty());
    }
    for tagged in iter: buffer
        invariant
            iter.seq() == buffer@,
            kids == views::all(children@),
            all == views::all(buffer@),
            children@.len() > 0 || buffer@.len() == 0,
            buckets@.len() == children@.len(),
            forall|i: int|
                0 <= i < buckets@.len() ==> views::all((#[trigger] buckets@[i])@) == bucket(
                    kids,
                    all.take(iter.index() as int),
                    i,
                ),
    {
        let index: usize = node::child_index_for(children, node::action_key(&tagged));
        let ghost before = buckets@;
        let ghost m = tagged@;
        let ghost n = iter.index() as int;
        assert(index < buckets@.len());
        buckets[index].push(tagged);
        assert forall|i: int| 0 <= i < buckets@.len() implies views::all(
            (#[trigger] buckets@[i])@,
        ) == bucket(kids, all.take(n + 1), i) by {
            assert(all.take(n + 1) =~= all.take(n).push(m));
            all.take(n).lemma_filter_push(m, |m: MutationView| node::route(kids, m.key()) == i);
            assert(views::all(before[i]@) == bucket(kids, all.take(n), i));
        }
    }
    assert(all.take(all.len() as int) =~= all);
    buckets
}

/// Why a mutation cannot have been routed to a child that ends at `end`.
pub open spec fn misrouted(child: ChildView, end: u64, m: MutationView) -> Option<Reason> {
    if m.key() < child.min_key || m.key() >= end {
        Some(
            Reason::ActionOutsideRange {
                action_sequence: m.action_sequence,
                target: m.key(),
                min_key: child.min_key,
                exclusive_end: end,
            },
        )
    } else if child.height == 0 && m.action_sequence
        <= child.materialized_through_action_sequence {
        Some(
            Reason::ActionBelowWatermark {
                action_sequence: m.action_sequence,
                target: m.key(),
                watermark: child.materialized_through_action_sequence,
            },
        )
    } else {
        None
    }
}

/// The first misrouted mutation of a bucket.
pub open spec fn bucket_fault(child: ChildView, end: u64, bucket: Seq<MutationView>) -> Option<
    Reason,
>
    decreases bucket.len(),
{
    if bucket.len() == 0 {
        None
    } else {
        match bucket_fault(child, end, bucket.drop_last()) {
            Some(reason) => Some(reason),
            None => misrouted(child, end, bucket.last()),
        }
    }
}

/// The first misrouted mutation of the first `n` buckets.
pub open spec fn routing_fault(
    children: Seq<ChildView>,
    buckets: Seq<Seq<MutationView>>,
    parent_end: u64,
    n: int,
) -> Option<Reason>
    decreases n,
{
    if n <= 0 {
        None
    } else {
        match routing_fault(children, buckets, parent_end, n - 1) {
            Some(reason) => Some(reason),
            None => bucket_fault(
                children[n - 1],
                node::end_of(children, n - 1, parent_end),
                buckets[n - 1],
            ),
        }
    }
}

/// The views of some buckets.
pub open spec fn bucket_views(buckets: Seq<Vec<FragmentMetadataMutation>>) -> Seq<
    Seq<MutationView>,
> {
    Seq::new(buckets.len(), |i: int| views::all(buckets[i]@))
}

fn check_bucket(
    child: &FragmentMetadataChild,
    end: u64,
    bucket: &Vec<FragmentMetadataMutation>,
) -> (r: Option<Reason>)
    ensures
        r == bucket_fault(child@, end, views::all(bucket@)),
{
    let ghost all = views::all(bucket@);
    let mut i: usize = 0;
    while i < bucket.len()
        invariant
            i <= bucket@.len(),
            all == views::all(bucket@),
            bucket_fault(child@, end, all.take(i as int)) is None,
        decreases bucket@.len() - i,
    {
        let tagged = &bucket[i];
        let target: u64 = node::action_key(tagged);
        proof {
            assert(all.take(i + 1).drop_last() =~= all.take(i as int));
            assert(all.take(i + 1).last() == tagged@);
        }
        let mut fault: Option<Reason> = None;
        if target < child.min_key || target >= end {
            fault = Some(
                Reason::ActionOutsideRange {
                    action_sequence: tagged.action_sequence,
                    target,
                    min_key: child.min_key,
                    exclusive_end: end,
                },
            );
        } else if child.height == 0 && tagged.action_sequence
            <= child.materialized_through_action_sequence {
            fault = Some(
                Reason::ActionBelowWatermark {
                    action_sequence: tagged.action_sequence,
                    target,
                    watermark: child.materialized_through_action_sequence,
                },
            );
        }
        if fault.is_some() {
            proof {
                lemma_bucket_fault_prefix(child@, end, all, i + 1);
            }
            return fault;
        }
        i = i + 1;
    }
    assert(all.take(all.len() as int) =~= all);
    None
}

proof fn lemma_bucket_fault_prefix(child: ChildView, end: u64, s: Seq<MutationView>, n: int)
    requires
        0 <= n <= s.len(),
        bucket_fault(child, end, s.take(n)) is Some,
    ensures
        bucket_fault(child, end, s) == bucket_fault(child, end, s.take(n)),
    decreases s.len() - n,
{
    if n < s.len() {
        assert(s.take(n + 1).drop_last() =~= s.take(n));
        lemma_bucket_fault_prefix(child, end, s, n + 1);
    } else {
        assert(s.take(n) =~= s);
    }
}

/// A bucket without a fault holds only mutations its child owns.
pub proof fn lemma_bucket_fault(child: ChildView, end: u64, s: Seq<MutationView>)
    requires
        bucket_fault(child, end, s) is None,
    ensures
        forall|i: int| 0 <= i < s.len() ==> misrouted(child, end, #[trigger] s[i]) is None,
    decreases s.len(),
{
    if s.len() > 0 {
        let rest = s.drop_last();
        lemma_bucket_fault(child, end, rest);
        assert forall|i: int| 0 <= i < s.len() implies misrouted(
            child,
            end,
            #[trigger] s[i],
        ) is None by {
            if i < rest.len() {
                assert(rest[i] == s[i]);
            }
        }
    }
}

proof fn lemma_routing_fault_prefix(
    children: Seq<ChildView>,
    buckets: Seq<Seq<MutationView>>,
    parent_end: u64,
    n: int,
    m: int,
)
    requires
        0 <= n <= m,
        routing_fault(children, buckets, parent_end, n) is Some,
    ensures
        routing_fault(children, buckets, parent_end, m) == routing_fault(
            children,
            buckets,
            parent_end,
            n,
        ),
    decreases m - n,
{
    if n < m {
        lemma_routing_fault_prefix(children, buckets, parent_end, n + 1, m);
    }
}

/// Routing without a fault leaves every bucket without one.
pub proof fn lemma_routing_fault(
    children: Seq<ChildView>,
    buckets: Seq<Seq<MutationView>>,
    parent_end: u64,
    n: int,
)
    requires
        routing_fault(children, buckets, parent_end, n) is None,
    ensures
        forall|i: int|
            0 <= i < n ==> bucket_fault(
                #[trigger] children[i],
                node::end_of(children, i, parent_end),
                buckets[i],
            ) is None,
    decreases n,
{
    if n > 0 {
        lemma_routing_fault(children, buckets, parent_end, n - 1);
    }
}

/// Reject buckets that routing could only have produced from a corrupt node.
/// A target outside the child's inherited range, or at or below its leaf
/// watermark, is already applied or was never owned by this child.
pub fn validate_routed(
    children: &Vec<FragmentMetadataChild>,
    buckets: &Vec<Vec<FragmentMetadataMutation>>,
    parent_end: u64,
) -> (r: Result<(), Error>)
    ensures
        ({
            let n = if children@.len() < buckets@.len() {
                children@.len() as int
            } else {
                buckets@.len() as int
            };
            r == match routing_fault(
                views::all(children@),
                bucket_views(buckets@),
                parent_end,
                n,
            ) {
                Some(reason) => Err::<(), Error>(Error::CorruptFile { reason }),
                None => Ok(()),
            }
        }),
{
    let ghost kids = views::all(children@);
    let ghost held = bucket_views(buckets@);
    let n: usize = if children.len() < buckets.len() {
        children.len()
    } else {
        buckets.len()
    };
    let mut i: usize = 0;
    while i < n
        invariant
            i <= n <= children@.len(),
            n <= buckets@.len(),
            kids == views::all(children@),
            held == bucket_views(buckets@),
            routing_fault(kids, held, parent_end, i as int) is None,
            n == if children@.len() < buckets@.len() {
                children@.len() as int
            } else {
                buckets@.len() as int
            },
        decreases n - i,
    {
        let end: u64 = node::exclusive_end(children, i, parent_end);
        match check_bucket(&children[i], end, &buckets[i]) {
            Some(reason) => {
                proof {
                    assert(routing_fault(kids, held, parent_end, i + 1) == Some(reason));
                    lemma_routing_fault_prefix(kids, held, parent_end, i + 1, n as int);
                }
                return Err(Error::CorruptFile { reason });
            },
            None => {},
        }
        i = i + 1;
    }
    Ok(())
}

// Splitting.

/// The bytes a child and the mutations it owns take in a node.
pub open spec fn unit_len(children: Seq<ChildView>, buffer: Seq<MutationView>, index: int) -> nat {
    wire::delimited_len(children[index].encoded_len()) + node::buffer_len(
        bucket(children, buffer, index),
    )
}

pub open spec fn units(children: Seq<ChildView>, buffer: Seq<MutationView>) -> Seq<nat> {
    Seq::new(children.len(), |i: int| unit_len(children, buffer, i))
}

/// The bytes of some consecutive units.
pub open spec fn span(units: Seq<nat>, from: int, to: int) -> nat
    decreases to - from,
{
    if from >= to {
        0
    } else {
        span(units, from, to - 1) + units[to - 1]
    }
}

/// How many units each piece takes when pieces are filled from the left, a
/// piece taking a unit when it has room for one more child and the unit's
/// bytes. A piece always takes one.
pub open spec fn packed(units: Seq<nat>, piece_bytes: u64, max_children: int) -> Seq<int>
    decreases units.len(),
{
    if units.len() == 0 {
        Seq::empty()
    } else {
        let rest = packed(units.drop_last(), piece_bytes, max_children);
        let n = units.len() - 1;
        if rest.len() == 0 {
            seq![1]
        } else if rest.last() >= max_children || wire::capped(
            span(units, n - rest.last(), n) + units[n],
        ) > piece_bytes {
            rest.push(1)
        } else {
            rest.update(rest.len() - 1, rest.last() + 1)
        }
    }
}

/// Packing that left one child at the right edge borrows the preceding one
/// when the piece before keeps two and both fit. Otherwise the piece before
/// takes it in, where it has two children and room for one more: a node with a
/// single child is never read back.
pub open spec fn repaired(cut: Seq<int>, units: Seq<nat>, piece_bytes: u64, max_children: int) -> Seq<
    int,
> {
    let last = cut.len() - 1;
    let n = units.len();
    if cut.len() > 1 && cut[last] == 1 && cut[last - 1] > 2 && max_children >= 2 && wire::capped(
        units[n - 1] + units[n - 2],
    ) <= piece_bytes {
        cut.update(last - 1, cut[last - 1] - 1).update(last, 2)
    } else if cut.len() > 1 && cut[last] == 1 && 2 <= cut[last - 1] < max_children {
        cut.drop_last().update(last - 1, cut[last - 1] + 1)
    } else {
        cut
    }
}

/// Where a node is cut: how many children each piece takes.
pub open spec fn cut(
    children: Seq<ChildView>,
    buffer: Seq<MutationView>,
    piece_bytes: u64,
    max_children_per_node: u32,
) -> Seq<int> {
    let bytes: u64 = if piece_bytes == 0 {
        1
    } else {
        piece_bytes
    };
    let most: int = if max_children_per_node == 0 {
        1
    } else {
        max_children_per_node as int
    };
    let sizes = units(children, buffer);
    repaired(packed(sizes, bytes, most), sizes, bytes, most)
}

/// How many children the first `n` pieces take.
pub open spec fn taken(cut: Seq<int>, n: int) -> int
    decreases n,
{
    if n <= 0 {
        0
    } else {
        taken(cut, n - 1) + cut[n - 1]
    }
}

/// The mutations owned by some consecutive children, child by child.
pub open spec fn joined(
    children: Seq<ChildView>,
    buffer: Seq<MutationView>,
    from: int,
    to: int,
) -> Seq<MutationView>
    decreases to - from,
{
    if from >= to {
        Seq::empty()
    } else {
        joined(children, buffer, from, to - 1) + bucket(children, buffer, to - 1)
    }
}

proof fn lemma_taken_update(cut: Seq<int>, at: int, value: int, n: int)
    requires
        0 <= at < cut.len(),
        n <= cut.len(),
    ensures
        taken(cut.update(at, value), n) == if n <= at {
            taken(cut, n)
        } else {
            taken(cut, n) - cut[at] + value
        },
    decreases n,
{
    if n > 0 {
        lemma_taken_update(cut, at, value, n - 1);
    }
}

proof fn lemma_taken_push(cut: Seq<int>, value: int, n: int)
    requires
        n <= cut.len(),
    ensures
        taken(cut.push(value), n) == taken(cut, n),
    decreases n,
{
    if n > 0 {
        lemma_taken_push(cut, value, n - 1);
    }
}

pub proof fn lemma_packed(sizes: Seq<nat>, piece_bytes: u64, most: int)
    requires
        most >= 1,
    ensures
        ({
            let cut = packed(sizes, piece_bytes, most);
            &&& taken(cut, cut.len() as int) == sizes.len()
            &&& forall|i: int| 0 <= i < cut.len() ==> 1 <= #[trigger] cut[i] <= most
            &&& sizes.len() > 0 ==> cut.len() > 0
            &&& sizes.len() == 0 ==> cut.len() == 0
        }),
    decreases sizes.len(),
{
    if sizes.len() > 0 {
        lemma_packed(sizes.drop_last(), piece_bytes, most);
        let rest = packed(sizes.drop_last(), piece_bytes, most);
        if rest.len() == 0 {
            assert(seq![1int].len() == 1);
            reveal_with_fuel(taken, 2);
        } else {
            lemma_taken_push(rest, 1, rest.len() as int);
            lemma_taken_update(
                rest,
                rest.len() - 1,
                rest.last() + 1,
                rest.len() as int,
            );
        }
    }
}

/// A node is cut into pieces of at least one child that together take every
/// child.
pub proof fn lemma_cut(
    children: Seq<ChildView>,
    buffer: Seq<MutationView>,
    piece_bytes: u64,
    max_children_per_node: u32,
)
    ensures
        ({
            let c = cut(children, buffer, piece_bytes, max_children_per_node);
            &&& taken(c, c.len() as int) == children.len()
            &&& forall|i: int| 0 <= i < c.len() ==> 1 <= #[trigger] c[i]
            &&& max_children_per_node >= 1 ==> forall|i: int|
                0 <= i < c.len() ==> #[trigger] c[i] <= max_children_per_node
            &&& children.len() > 0 ==> c.len() > 0
        }),
{
    let bytes: u64 = if piece_bytes == 0 {
        1
    } else {
        piece_bytes
    };
    let most: int = if max_children_per_node == 0 {
        1
    } else {
        max_children_per_node as int
    };
    let sizes = units(children, buffer);
    lemma_packed(sizes, bytes, most);
    let p = packed(sizes, bytes, most);
    let last = p.len() - 1;
    if p.len() > 1 {
        lemma_taken_update(p, last - 1, p[last - 1] - 1, p.len() as int);
        lemma_taken_update(
            p.update(last - 1, p[last - 1] - 1),
            last,
            2,
            p.len() as int,
        );
        lemma_taken_update(p.drop_last(), last - 1, p[last - 1] + 1, last);
        lemma_taken_prefix(p, last);
    }
}

proof fn lemma_taken_prefix(cut: Seq<int>, n: int)
    requires
        0 <= n < cut.len(),
    ensures
        taken(cut.drop_last(), n) == taken(cut, n),
    decreases n,
{
    if n > 0 {
        lemma_taken_prefix(cut, n - 1);
    }
}

pub proof fn lemma_taken_monotone(cut: Seq<int>, a: int, b: int)
    requires
        0 <= a <= b <= cut.len(),
        forall|i: int| 0 <= i < cut.len() ==> 1 <= #[trigger] cut[i],
    ensures
        taken(cut, a) + (b - a) <= taken(cut, b),
        taken(cut, a) >= a,
    decreases b,
{
    if b > a {
        lemma_taken_monotone(cut, a, b - 1);
    } else if a > 0 {
        lemma_taken_monotone(cut, a - 1, a - 1);
    }
}

fn unit_sizes(
    children: &Vec<FragmentMetadataChild>,
    buckets: &Vec<Vec<FragmentMetadataMutation>>,
    Ghost(buffer): Ghost<Seq<MutationView>>,
) -> (r: Vec<u64>)
    requires
        buckets@.len() == children@.len(),
        forall|i: int|
            0 <= i < buckets@.len() ==> views::all((#[trigger] buckets@[i])@) == bucket(
                views::all(children@),
                buffer,
                i,
            ),
    ensures
        r@.len() == children@.len(),
        forall|i: int|
            0 <= i < r@.len() ==> #[trigger] r@[i] == wire::capped(
                units(views::all(children@), buffer)[i],
            ),
{
    let mut sizes: Vec<u64> = Vec::new();
    let none: Vec<FragmentMetadataMutation> = Vec::new();
    let mut i: usize = 0;
    while i < children.len()
        invariant
            i <= children@.len(),
            buckets@.len() == children@.len(),
            sizes@.len() == i,
            forall|i: int|
                0 <= i < buckets@.len() ==> views::all((#[trigger] buckets@[i])@) == bucket(
                    views::all(children@),
                    buffer,
                    i,
                ),
            forall|k: int|
                0 <= k < i ==> #[trigger] sizes@[k] == wire::capped(
                    units(views::all(children@), buffer)[k],
                ),
        decreases children@.len() - i,
    {
        let mut one: Vec<FragmentMetadataChild> = Vec::new();
        one.push(children[i].clone());
        proof {
            let kid = views::all(children@)[i as int];
            assert(views::all(one@) =~= seq![kid]);
            assert(seq![kid].drop_last() =~= Seq::<ChildView>::empty());
            reveal_with_fuel(node::children_len, 2);
            assert(views::all(buckets@[i as int]@) == bucket(
                views::all(children@),
                buffer,
                i as int,
            ));
        }
        sizes.push(node::internal_logical_bytes(&one, &buckets[i]));
        i = i + 1;
    }
    sizes
}

/// How many children each piece takes.
fn pack(
    sizes: &Vec<u64>,
    piece_bytes: u64,
    max_children: u32,
    Ghost(exact): Ghost<Seq<nat>>,
) -> (r: Vec<usize>)
    requires
        sizes@.len() == exact.len(),
        forall|i: int| 0 <= i < sizes@.len() ==> #[trigger] sizes@[i] == wire::capped(exact[i]),
        max_children >= 1,
    ensures
        ({
            let c = repaired(
                packed(exact, piece_bytes, max_children as int),
                exact,
                piece_bytes,
                max_children as int,
            );
            &&& r@.len() == c.len()
            &&& forall|i: int| 0 <= i < r@.len() ==> #[trigger] r@[i] == c[i]
        }),
{
    let mut cut: Vec<usize> = Vec::new();
    let mut encoded_bytes: u64 = 0;
    let mut i: usize = 0;
    let ghost most = max_children as int;
    while i < sizes.len()
        invariant
            i <= sizes@.len(),
            sizes@.len() == exact.len(),
            forall|i: int|
                0 <= i < sizes@.len() ==> #[trigger] sizes@[i] == wire::capped(exact[i]),
            max_children >= 1,
            most == max_children,
            cut@.len() == packed(exact.take(i as int), piece_bytes, most).len(),
            forall|k: int|
                0 <= k < cut@.len() ==> #[trigger] cut@[k] == packed(
                    exact.take(i as int),
                    piece_bytes,
                    most,
                )[k],
            i == 0 ==> cut@.len() == 0,
            i > 0 ==> cut@.len() > 0 && cut@[cut@.len() - 1] <= i && encoded_bytes
                == wire::capped(span(exact, i - cut@[cut@.len() - 1], i as int)),
        decreases sizes@.len() - i,
    {
        let ghost taken = exact.take(i + 1);
        let ghost before = cut@;
        proof {
            assert(taken.drop_last() =~= exact.take(i as int));
            assert(taken[i as int] == exact[i as int]);
            if i > 0 {
                let back = cut@[cut@.len() - 1] as int;
                lemma_span_take(exact, i - back, i as int, i + 1);
            }
        }
        let full = if cut.len() == 0 {
            true
        } else {
            cut[cut.len() - 1] as u64 >= max_children as u64 || encoded_bytes.saturating_add(
                sizes[i],
            ) > piece_bytes
        };
        if full {
            cut.push(1);
            encoded_bytes = sizes[i];
            proof {
                assert(span(exact, i as int, i + 1) == exact[i as int]) by {
                    reveal_with_fuel(span, 2);
                }
            }
        } else {
            let last: usize = cut.len() - 1;
            let count: usize = cut[last] + 1;
            cut.set(last, count);
            encoded_bytes = encoded_bytes.saturating_add(sizes[i]);
            proof {
                assert(i + 1 - count == i - before[last as int]);
            }
        }
        i = i + 1;
    }
    proof {
        assert(exact.take(exact.len() as int) =~= exact);
    }
    let pieces: usize = cut.len();
    if pieces > 1 && cut[pieces - 1] == 1 {
        let n: usize = sizes.len();
        let left: usize = cut[pieces - 2];
        proof {
            lemma_packed(exact, piece_bytes, most);
            let c = packed(exact, piece_bytes, most);
            lemma_taken_monotone(c, 0, c.len() as int);
        }
        if left > 2 && max_children >= 2 && sizes[n - 1].saturating_add(sizes[n - 2])
            <= piece_bytes {
            cut.set(pieces - 2, left - 1);
            cut.set(pieces - 1, 2);
        } else if left >= 2 && (left as u64) < max_children as u64 {
            let _ = cut.pop();
            cut.set(pieces - 2, left + 1);
        }
    }
    cut
}

proof fn lemma_span_take(exact: Seq<nat>, from: int, to: int, n: int)
    requires
        0 <= from <= to <= n <= exact.len(),
    ensures
        span(exact.take(n), from, to) == span(exact, from, to),
    decreases to - from,
{
    if from < to {
        lemma_span_take(exact, from, to - 1, n);
    }
}

/// One list after another.
fn join_buckets(
    buckets: Vec<Vec<FragmentMetadataMutation>>,
    Ghost(children): Ghost<Seq<ChildView>>,
    Ghost(buffer): Ghost<Seq<MutationView>>,
    Ghost(from): Ghost<int>,
) -> (r: Vec<FragmentMetadataMutation>)
    requires
        forall|i: int|
            0 <= i < buckets@.len() ==> views::all((#[trigger] buckets@[i])@) == bucket(
                children,
                buffer,
                from + i,
            ),
    ensures
        views::all(r@) == joined(children, buffer, from, from + buckets@.len()),
{
    let mut list: Vec<FragmentMetadataMutation> = Vec::new();
    for actions in iter: buckets
        invariant
            iter.seq() == buckets@,
            forall|i: int|
                0 <= i < buckets@.len() ==> views::all((#[trigger] buckets@[i])@) == bucket(
                    children,
                    buffer,
                    from + i,
                ),
            views::all(list@) == joined(children, buffer, from, from + iter.index()),
    {
        let mut actions = actions;
        assert(views::all(actions@) == bucket(children, buffer, from + iter.index()));
        list.append(&mut actions);
    }
    list
}

/// Split an internal node's children and buffer into contiguous pieces
/// targeting `piece_bytes` and at most `max_children_per_node` children each.
/// The buffer follows its child by key range. A single indivisible
/// child-plus-message unit may exceed the byte target.
///
/// Greedy byte packing can leave one child at the right edge. It then borrows
/// the preceding range when both resulting nodes still fit the target; the
/// messages move with the routing fence, including inserts in gaps. Where they
/// do not fit, the piece before takes the lone child in.
pub fn split_internal(
    children: Vec<FragmentMetadataChild>,
    buffer: Vec<FragmentMetadataMutation>,
    piece_bytes: u64,
    max_children_per_node: u32,
) -> (r: Vec<(Vec<FragmentMetadataChild>, Vec<FragmentMetadataMutation>)>)
    ensures
        children@.len() == 0 ==> r@.len() == 1 && r@[0].0@.len() == 0 && views::all(r@[0].1@)
            == views::all(buffer@),
        children@.len() > 0 ==> {
            let kids = views::all(children@);
            let pending = views::all(buffer@);
            let c = cut(kids, pending, piece_bytes, max_children_per_node);
            &&& r@.len() == c.len()
            &&& forall|i: int|
                0 <= i < r@.len() ==> {
                    &&& views::all((#[trigger] r@[i]).0@) == kids.subrange(
                        taken(c, i),
                        taken(c, i + 1),
                    )
                    &&& views::all(r@[i].1@) == joined(
                        kids,
                        pending,
                        taken(c, i),
                        taken(c, i + 1),
                    )
                }
        },
{
    if children.len() == 0 {
        let mut whole: Vec<(Vec<FragmentMetadataChild>, Vec<FragmentMetadataMutation>)> =
            Vec::new();
        whole.push((children, buffer));
        return whole;
    }
    let ghost kids = views::all(children@);
    let ghost pending = views::all(buffer@);
    let mut buckets = partition_buffer_by_child(&children, buffer);
    let bytes: u64 = if piece_bytes == 0 {
        1
    } else {
        piece_bytes
    };
    let most: u32 = if max_children_per_node == 0 {
        1
    } else {
        max_children_per_node
    };
    let sizes = unit_sizes(&children, &buckets, Ghost(pending));
    let counts = pack(&sizes, bytes, most, Ghost(units(kids, pending)));
    let ghost c = cut(kids, pending, piece_bytes, max_children_per_node);
    proof {
        lemma_cut(kids, pending, piece_bytes, max_children_per_node);
    }
    let mut rest = children;
    let mut pieces: Vec<(Vec<FragmentMetadataChild>, Vec<FragmentMetadataMutation>)> = Vec::new();
    let mut n: usize = counts.len();
    assert(kids.take(kids.len() as int) =~= kids);
    while n > 0
        invariant
            n <= counts@.len(),
            counts@.len() == c.len(),
            forall|i: int| 0 <= i < c.len() ==> #[trigger] counts@[i] == c[i],
            forall|i: int| 0 <= i < c.len() ==> 1 <= #[trigger] c[i],
            taken(c, c.len() as int) == kids.len(),
            rest@.len() == taken(c, n as int),
            buckets@.len() == rest@.len(),
            views::all(rest@) == kids.take(rest@.len() as int),
            forall|i: int|
                0 <= i < buckets@.len() ==> views::all((#[trigger] buckets@[i])@) == bucket(
                    kids,
                    pending,
                    i,
                ),
            pieces@.len() == c.len() - n,
            forall|i: int|
                0 <= i < pieces@.len() ==> {
                    &&& views::all((#[trigger] pieces@[i]).0@) == kids.subrange(
                        taken(c, n + i),
                        taken(c, n + i + 1),
                    )
                    &&& views::all(pieces@[i].1@) == joined(
                        kids,
                        pending,
                        taken(c, n + i),
                        taken(c, n + i + 1),
                    )
                },
        decreases n,
    {
        let ghost to = taken(c, n as int);
        proof {
            lemma_taken_monotone(c, n - 1, n as int);
            lemma_taken_monotone(c, n as int, c.len() as int);
        }
        assert(counts@[n - 1] == c[n - 1]);
        let from: usize = rest.len() - counts[n - 1];
        let ghost before = rest@;
        let ghost held = buckets@;
        let ghost old_pieces = pieces@;
        let piece_children = rest.split_off(from);
        let piece_buckets = buckets.split_off(from);
        assert(from == taken(c, n - 1));
        assert(views::all(piece_children@) =~= kids.subrange(from as int, to));
        assert(views::all(rest@) =~= kids.take(from as int));
        assert forall|i: int| 0 <= i < piece_buckets@.len() implies views::all(
            (#[trigger] piece_buckets@[i])@,
        ) == bucket(kids, pending, from + i) by {
            assert(piece_buckets@[i] == held[from + i]);
        }
        let piece_buffer = join_buckets(
            piece_buckets,
            Ghost(kids),
            Ghost(pending),
            Ghost(from as int),
        );
        pieces.insert(0, (piece_children, piece_buffer));
        n = n - 1;
        assert forall|i: int| 0 <= i < pieces@.len() implies {
            &&& views::all((#[trigger] pieces@[i]).0@) == kids.subrange(
                taken(c, n + i),
                taken(c, n + i + 1),
            )
            &&& views::all(pieces@[i].1@) == joined(
                kids,
                pending,
                taken(c, n + i),
                taken(c, n + i + 1),
            )
        } by {
            if i > 0 {
                assert(pieces@[i] == old_pieces[i - 1]);
            }
        }
        assert forall|i: int| 0 <= i < buckets@.len() implies views::all(
            (#[trigger] buckets@[i])@,
        ) == bucket(kids, pending, i) by {
            assert(buckets@[i] == held[i]);
        }
    }
    pieces
}

/// Whether a piece takes more than one unit only where its bytes stay within
/// the limit.
pub open spec fn piece_fits(cut: Seq<int>, sizes: Seq<nat>, piece_bytes: int, i: int) -> bool {
    cut[i] > 1 ==> span(sizes, taken(cut, i), taken(cut, i + 1)) <= piece_bytes
}

/// Whether a piece ends before another unit only where it has as many as it may
/// or that unit would not fit.
pub open spec fn piece_full(
    cut: Seq<int>,
    sizes: Seq<nat>,
    piece_bytes: int,
    most: int,
    i: int,
) -> bool {
    cut[i] == most || span(sizes, taken(cut, i), taken(cut, i + 1)) + sizes[taken(cut, i + 1)]
        > piece_bytes
}

/// Whether the first pieces of a cut are filled.
pub open spec fn filled(
    cut: Seq<int>,
    sizes: Seq<nat>,
    piece_bytes: int,
    most: int,
    pieces: int,
) -> bool {
    &&& forall|i: int| 0 <= i < pieces ==> #[trigger] piece_fits(cut, sizes, piece_bytes, i)
    &&& forall|i: int|
        0 <= i < pieces && i + 1 < cut.len() ==> #[trigger] piece_full(
            cut,
            sizes,
            piece_bytes,
            most,
            i,
        )
}

proof fn lemma_taken_same(a: Seq<int>, b: Seq<int>, n: int)
    requires
        0 <= n <= a.len(),
        n <= b.len(),
        forall|i: int| 0 <= i < n ==> #[trigger] a[i] == b[i],
    ensures
        taken(a, n) == taken(b, n),
    decreases n,
{
    if n > 0 {
        lemma_taken_same(a, b, n - 1);
        assert(a[n - 1] == b[n - 1]);
    }
}

/// A piece of a cut is a piece of every longer cut of more units.
proof fn lemma_piece_kept(
    rest: Seq<int>,
    cut: Seq<int>,
    sizes: Seq<nat>,
    n: int,
    piece_bytes: int,
    most: int,
    i: int,
)
    requires
        0 <= i < rest.len(),
        i < cut.len(),
        forall|k: int| 0 <= k <= i ==> #[trigger] cut[k] == rest[k],
        forall|k: int| 0 <= k < rest.len() ==> 1 <= #[trigger] rest[k],
        0 <= n <= sizes.len(),
        taken(rest, rest.len() as int) == n,
    ensures
        piece_fits(rest, sizes.take(n), piece_bytes, i) ==> piece_fits(cut, sizes, piece_bytes, i),
        i + 1 < rest.len() && piece_full(rest, sizes.take(n), piece_bytes, most, i) ==> piece_full(
            cut,
            sizes,
            piece_bytes,
            most,
            i,
        ),
{
    let m = rest.len() as int;
    lemma_taken_same(cut, rest, i);
    lemma_taken_same(cut, rest, i + 1);
    lemma_taken_monotone(rest, i, i + 1);
    lemma_taken_monotone(rest, i + 1, m);
    lemma_span_take(sizes, taken(rest, i), taken(rest, i + 1), n);
    assert(cut[i] == rest[i]);
    if i + 1 < m {
        assert(taken(rest, i + 1) < n);
        assert(sizes.take(n)[taken(rest, i + 1)] == sizes[taken(rest, i + 1)]);
    }
}

proof fn lemma_packed_filled(sizes: Seq<nat>, piece_bytes: u64, most: int)
    requires
        most >= 1,
        piece_bytes < u64::MAX,
    ensures
        ({
            let cut = packed(sizes, piece_bytes, most);
            filled(cut, sizes, piece_bytes as int, most, cut.len() as int)
        }),
    decreases sizes.len(),
{
    if sizes.len() > 0 {
        let shorter = sizes.drop_last();
        let n = shorter.len() as int;
        let limit = piece_bytes as int;
        lemma_packed_filled(shorter, piece_bytes, most);
        lemma_packed(shorter, piece_bytes, most);
        let rest = packed(shorter, piece_bytes, most);
        let cut = packed(sizes, piece_bytes, most);
        let m = rest.len() as int;
        assert(shorter =~= sizes.take(n));
        if m > 0 {
            lemma_taken_monotone(rest, m - 1, m);
            assert(taken(rest, m) == taken(rest, m - 1) + rest[m - 1]);
            let whole = rest.last() < most && wire::capped(
                span(sizes, n - rest.last(), n) + sizes[n],
            ) <= piece_bytes;
            assert forall|i: int| 0 <= i < cut.len() implies #[trigger] piece_fits(
                cut,
                sizes,
                limit,
                i,
            ) by {
                if i < m - 1 || (i == m - 1 && !whole) {
                    assert(piece_fits(rest, shorter, limit, i));
                    lemma_piece_kept(rest, cut, sizes, n, limit, most, i);
                } else if i == m - 1 {
                    lemma_taken_same(cut, rest, m - 1);
                    assert(taken(cut, m) == n + 1);
                }
            }
            assert forall|i: int| 0 <= i < cut.len() && i + 1 < cut.len() implies #[trigger]
            piece_full(cut, sizes, limit, most, i) by {
                if i < m - 1 {
                    assert(piece_full(rest, shorter, limit, most, i));
                    lemma_piece_kept(rest, cut, sizes, n, limit, most, i);
                } else {
                    lemma_taken_same(cut, rest, m - 1);
                    lemma_taken_same(cut, rest, m);
                    assert(cut[m - 1] == rest[m - 1]);
                    assert(taken(cut, m) == n);
                }
            }
        } else {
            assert(cut == seq![1int]);
        }
    }
}

/// A split fills its pieces from the left, in encoded bytes and in children.
/// Only the last two pieces may differ, where the last would have held a single
/// child: it takes in its neighbour's last child, or its neighbour takes it. One
/// child is left alone at the right only beside another single child or a piece
/// that has as many as it may.
pub proof fn law_split_fills_its_pieces(
    children: Seq<ChildView>,
    buffer: Seq<MutationView>,
    piece_bytes: u64,
    max_children_per_node: u32,
)
    requires
        children.len() > 0,
        0 < piece_bytes < u64::MAX,
        max_children_per_node >= 2,
    ensures
        ({
            let c = cut(children, buffer, piece_bytes, max_children_per_node);
            let sizes = Seq::new(
                children.len(),
                |i: int|
                    (wire::delimited_len(children[i].encoded_len()) + node::buffer_len(
                        buffer.filter(|m: MutationView| node::route(children, m.key()) == i),
                    )) as nat,
            );
            &&& filled(
                c,
                sizes,
                piece_bytes as int,
                max_children_per_node as int,
                c.len() - 2,
            )
            &&& c.len() > 1 && c.last() == 1 ==> c[c.len() - 2] == 1 || c[c.len() - 2]
                == max_children_per_node
        }),
{
    let most = max_children_per_node as int;
    let sizes = units(children, buffer);
    let p = packed(sizes, piece_bytes, most);
    let c = cut(children, buffer, piece_bytes, max_children_per_node);
    lemma_packed(sizes, piece_bytes, most);
    lemma_packed_filled(sizes, piece_bytes, most);
    assert(sizes =~= Seq::new(
        children.len(),
        |i: int|
            (wire::delimited_len(children[i].encoded_len()) + node::buffer_len(
                buffer.filter(|m: MutationView| node::route(children, m.key()) == i),
            )) as nat,
    ));
    let k = c.len() - 2;
    let limit = piece_bytes as int;
    assert forall|i: int| 0 <= i < k implies #[trigger] piece_fits(c, sizes, limit, i) by {
        lemma_taken_same(c, p, i);
        lemma_taken_same(c, p, i + 1);
        assert(piece_fits(p, sizes, limit, i));
    }
    assert forall|i: int| 0 <= i < k && i + 1 < c.len() implies #[trigger] piece_full(
        c,
        sizes,
        limit,
        most,
        i,
    ) by {
        lemma_taken_same(c, p, i);
        lemma_taken_same(c, p, i + 1);
        assert(piece_full(p, sizes, limit, most, i));
    }
    if c.len() > 1 && c.last() == 1 {
        assert(p[p.len() - 2] <= most);
    }
}

} // verus!
