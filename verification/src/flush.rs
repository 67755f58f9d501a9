//! Drain policy: which children a pressured buffer drains, and how many at once.
//!
//! Qualified for root-to-leaf scatter. An interior child's drain recurses, so
//! its object size understates the work below it.

use vstd::prelude::*;

use crate::node;
use crate::node::FragmentMetadataTreeConfig;
use crate::pb::{Action, ActionView, ChildView, FragmentMetadataChild, FragmentMetadataMutation,
    MutationView};
use crate::split;
use crate::squash;
use crate::views;
use crate::wire;

verus! {

broadcast use crate::views::group_views;

/// Drain at most this many children per batch.
pub const MAX_CONCURRENT_LEAF_DRAINS: usize = 8;

/// Drain at most this many encoded child-object bytes per batch. Decoded
/// fragments and replacement buffers can use more memory.
pub const MAX_BATCH_OBJECT_BYTES: u64 = 32 * 1024 * 1024;

/// Soft-pressure target. Once pending edits reach this fraction of the
/// child object's encoded size, further batching has diminishing value against
/// the read and write of that object.
pub const REWRITE_AMORTIZATION_DIVISOR: u64 = 16;

/// The larger of a number and one.
pub open spec fn at_least_one(value: u64) -> u64 {
    if value == 0 {
        1
    } else {
        value
    }
}

/// What a rewrite of a child is worth waiting for.
pub open spec fn rewrite_share(child: ChildView) -> u64 {
    child.object_size / REWRITE_AMORTIZATION_DIVISOR
}

pub open spec fn pressured_gate(fair_share: u64, child: ChildView) -> u64 {
    at_least_one(
        if fair_share < rewrite_share(child) {
            fair_share
        } else {
            rewrite_share(child)
        },
    )
}

/// Pending bytes a child must hold before draining it under semantic pressure.
///
/// The fair share of the node's remaining routing room guarantees progress by
/// pigeonhole no later than structural pressure. The object fraction keeps a
/// narrow directory from waiting on a share larger than a rewrite deserves.
pub fn amortization_gate(fair_share: u64, child: &FragmentMetadataChild) -> (r: u64)
    ensures
        r == pressured_gate(fair_share, child@),
{
    let share: u64 = child.object_size / REWRITE_AMORTIZATION_DIVISOR;
    let gate: u64 = if fair_share < share {
        fair_share
    } else {
        share
    };
    if gate == 0 {
        1
    } else {
        gate
    }
}

/// The lengths of some buckets in a node, summed.
pub open spec fn held_len(held: Seq<Seq<MutationView>>) -> nat
    decreases held.len(),
{
    if held.len() == 0 {
        0
    } else {
        held_len(held.drop_last()) + node::buffer_len(held.last())
    }
}

/// How many mutations some buckets hold.
pub open spec fn held_count(held: Seq<Seq<MutationView>>) -> nat
    decreases held.len(),
{
    if held.len() == 0 {
        0
    } else {
        held_count(held.drop_last()) + held.last().len()
    }
}

/// Buckets one after the other.
pub open spec fn flattened(held: Seq<Seq<MutationView>>) -> Seq<MutationView>
    decreases held.len(),
{
    if held.len() == 0 {
        Seq::empty()
    } else {
        flattened(held.drop_last()) + held.last()
    }
}

/// A node's pending actions partitioned by child, with each bucket's encoded
/// bytes. A drain consumes its bucket and splices new children in its place,
/// which leaves every other bucket and its size unchanged, so one partition
/// serves every flush pass.
pub struct Buckets {
    actions: Vec<Vec<FragmentMetadataMutation>>,
    bytes: Vec<u64>,
}

impl Buckets {
    /// The pending mutations of each child.
    pub closed spec fn held(self) -> Seq<Seq<MutationView>> {
        split::bucket_views(self.actions@)
    }

    #[verifier::type_invariant]
    spec fn measured(self) -> bool {
        &&& self.bytes@.len() == self.actions@.len()
        &&& forall|i: int|
            0 <= i < self.bytes@.len() ==> #[trigger] self.bytes@[i] == wire::capped(
                node::buffer_len(split::bucket_views(self.actions@)[i]),
            )
    }

    pub fn new(actions: Vec<Vec<FragmentMetadataMutation>>) -> (r: Self)
        ensures
            r.held() == split::bucket_views(actions@),
    {
        let none: Vec<FragmentMetadataChild> = Vec::new();
        let mut bytes: Vec<u64> = Vec::new();
        let mut i: usize = 0;
        while i < actions.len()
            invariant
                i <= actions@.len(),
                bytes@.len() == i,
                none@.len() == 0,
                forall|k: int|
                    0 <= k < i ==> #[trigger] bytes@[k] == wire::capped(
                        node::buffer_len(split::bucket_views(actions@)[k]),
                    ),
            decreases actions@.len() - i,
        {
            bytes.push(node::internal_logical_bytes(&none, &actions[i]));
            i = i + 1;
        }
        Buckets { actions, bytes }
    }

    pub fn len(&self) -> (r: usize)
        ensures
            r == self.held().len(),
    {
        self.actions.len()
    }

    pub fn actions(&self) -> (r: &Vec<Vec<FragmentMetadataMutation>>)
        ensures
            split::bucket_views(r@) == self.held(),
    {
        &self.actions
    }

    pub fn bucket(&self, idx: usize) -> (r: &Vec<FragmentMetadataMutation>)
        requires
            idx < self.held().len(),
        ensures
            views::all(r@) == self.held()[idx as int],
    {
        &self.actions[idx]
    }

    fn bytes_of(&self, idx: usize) -> (r: u64)
        requires
            idx < self.held().len(),
        ensures
            r == wire::capped(node::buffer_len(self.held()[idx as int])),
    {
        proof {
            use_type_invariant(self);
        }
        self.bytes[idx]
    }

    pub fn total_bytes(&self) -> (r: u64)
        ensures
            r == wire::capped(held_len(self.held())),
    {
        proof {
            use_type_invariant(self);
        }
        let ghost held = self.held();
        let mut sum: u64 = 0;
        let mut i: usize = 0;
        while i < self.bytes.len()
            invariant
                i <= self.bytes@.len(),
                held == self.held(),
                self.bytes@.len() == held.len(),
                forall|i: int|
                    0 <= i < self.bytes@.len() ==> #[trigger] self.bytes@[i] == wire::capped(
                        node::buffer_len(held[i]),
                    ),
                sum == wire::capped(held_len(held.take(i as int))),
            decreases self.bytes@.len() - i,
        {
            assert(held.take(i + 1).drop_last() =~= held.take(i as int));
            sum = sum.saturating_add(self.bytes[i]);
            i = i + 1;
        }
        assert(held.take(held.len() as int) =~= held);
        sum
    }

    pub fn pending(&self) -> (r: u64)
        ensures
            r == wire::capped(held_count(self.held())),
    {
        let ghost held = self.held();
        let mut sum: u64 = 0;
        let mut i: usize = 0;
        while i < self.actions.len()
            invariant
                i <= self.actions@.len(),
                held == self.held(),
                sum == wire::capped(held_count(held.take(i as int))),
            decreases self.actions@.len() - i,
        {
            assert(held.take(i + 1).drop_last() =~= held.take(i as int));
            sum = sum.saturating_add(self.actions[i].len() as u64);
            i = i + 1;
        }
        assert(held.take(held.len() as int) =~= held);
        sum
    }

    /// Take a child's mutations, leaving its bucket empty.
    pub fn take(self, idx: usize) -> (r: (Self, Vec<FragmentMetadataMutation>))
        requires
            idx < self.held().len(),
        ensures
            views::all(r.1@) == self.held()[idx as int],
            r.0.held() == self.held().update(idx as int, Seq::empty()),
    {
        proof {
            use_type_invariant(&self);
        }
        let ghost before = self.held();
        let Buckets { actions: mut actions, bytes: mut bytes } = self;
        let mut list: Vec<FragmentMetadataMutation> = Vec::new();
        core::mem::swap(&mut list, &mut actions[idx]);
        bytes.set(idx, 0);
        let rest = Buckets { actions, bytes };
        assert(rest.held() =~= before.update(idx as int, Seq::empty()));
        (rest, list)
    }

    /// Replace a drained child's bucket with one empty bucket per new child.
    pub fn replace(self, idx: usize, children: usize) -> (r: Self)
        requires
            idx < self.held().len(),
        ensures
            r.held() == self.held().take(idx as int) + Seq::new(
                children as nat,
                |i: int| Seq::<MutationView>::empty(),
            ) + self.held().skip(idx + 1),
    {
        proof {
            use_type_invariant(&self);
        }
        let ghost before = self.held();
        let Buckets { actions: mut actions, bytes: mut bytes } = self;
        let mut later_actions = actions.split_off(idx);
        let mut later_bytes = bytes.split_off(idx);
        let _ = later_actions.remove(0);
        let _ = later_bytes.remove(0);
        let ghost kept = split::bucket_views(actions@);
        let ghost behind = split::bucket_views(later_actions@);
        assert(kept =~= before.take(idx as int));
        assert(behind =~= before.skip(idx + 1));
        let ghost kept_bytes = bytes@;
        let mut n: usize = 0;
        while n < children
            invariant
                n <= children,
                actions@.len() == idx + n,
                bytes@.len() == idx + n,
                split::bucket_views(actions@) == kept + Seq::new(
                    n as nat,
                    |i: int| Seq::<MutationView>::empty(),
                ),
                kept.len() == idx,
                forall|i: int|
                    0 <= i < bytes@.len() ==> #[trigger] bytes@[i] == wire::capped(
                        node::buffer_len(split::bucket_views(actions@)[i]),
                    ),
            decreases children - n,
        {
            let ghost previous = split::bucket_views(actions@);
            actions.push(Vec::new());
            bytes.push(0);
            assert(split::bucket_views(actions@) =~= previous.push(Seq::empty()));
            assert(split::bucket_views(actions@) =~= kept + Seq::new(
                (n + 1) as nat,
                |i: int| Seq::<MutationView>::empty(),
            ));
            n = n + 1;
        }
        let ghost front = split::bucket_views(actions@);
        let ghost front_bytes = bytes@;
        actions.append(&mut later_actions);
        bytes.append(&mut later_bytes);
        assert(split::bucket_views(actions@) =~= front + behind);
        assert forall|i: int| 0 <= i < bytes@.len() implies #[trigger] bytes@[i] == wire::capped(
            node::buffer_len(split::bucket_views(actions@)[i]),
        ) by {
            if i < front.len() {
                assert(bytes@[i] == front_bytes[i]);
            }
        }
        Buckets { actions, bytes }
    }

    /// Every pending mutation, child by child.
    pub fn into_buffer(self) -> (r: Vec<FragmentMetadataMutation>)
        ensures
            views::all(r@) == flattened(self.held()),
    {
        let ghost held = self.held();
        let Buckets { actions, bytes: _ } = self;
        let mut list: Vec<FragmentMetadataMutation> = Vec::new();
        for bucket in iter: actions
            invariant
                iter.seq() == actions@,
                held == split::bucket_views(actions@),
                views::all(list@) == flattened(held.take(iter.index() as int)),
        {
            let mut bucket = bucket;
            assert(held.take(iter.index() + 1).drop_last() =~= held.take(iter.index() as int));
            assert(held.take(iter.index() + 1).last() == views::all(bucket@));
            list.append(&mut bucket);
        }
        assert(held.take(held.len() as int) =~= held);
        list
    }
}

impl MutationView {
    /// Whether a mutation removes a fragment the subtree below still holds.
    pub open spec fn retires(self) -> bool {
        self.fragment_count_delta < 0 && (self.known() matches Some(ActionView::RemoveFragment(_)))
    }

    /// Whether a mutation overwrites a record the subtree below holds.
    pub open spec fn replaces(self) -> bool {
        self.fragment_count_delta == 0 && (self.known() matches Some(ActionView::AddFragment(_)))
    }
}

/// Whether a buffered action removes a fragment the subtree below still
/// holds. A squashed append-then-remove keeps a removal that retires nothing.
pub fn retires_fragment(mutation: &FragmentMetadataMutation) -> (r: bool)
    ensures
        r == mutation@.retires(),
{
    match squash::known_action(mutation) {
        Some(Action::RemoveFragment(_)) => mutation.fragment_count_delta < 0,
        _ => false,
    }
}

/// Whether a buffered action overwrites a record the subtree below holds.
/// After squashing, a whole-record action that does not change the fragment
/// count replaces a stored record.
pub fn replaces_fragment(mutation: &FragmentMetadataMutation) -> (r: bool)
    ensures
        r == mutation@.replaces(),
{
    match squash::known_action(mutation) {
        Some(Action::AddFragment(_)) => mutation.fragment_count_delta == 0,
        _ => false,
    }
}

/// Whether a mutation puts a whole record.
pub fn puts_fragment(mutation: &FragmentMetadataMutation) -> (r: bool)
    ensures
        r == (mutation@.known() matches Some(ActionView::AddFragment(_))),
{
    match squash::known_action(mutation) {
        Some(Action::AddFragment(_)) => true,
        _ => false,
    }
}

/// How many fragments draining some mutations removes.
pub open spec fn retired(actions: Seq<MutationView>) -> nat {
    actions.filter(|m: MutationView| m.retires()).len()
}

/// Fragments of a child that draining `actions` removes.
pub fn retired_keys(actions: &Vec<FragmentMetadataMutation>) -> (r: u64)
    ensures
        r == retired(views::all(actions@)),
        r <= actions@.len(),
{
    let ghost all = views::all(actions@);
    let ghost pred = |m: MutationView| m.retires();
    let mut count: u64 = 0;
    let mut i: usize = 0;
    assert(all.take(0).filter(pred) =~= Seq::<MutationView>::empty());
    while i < actions.len()
        invariant
            i <= actions@.len(),
            all == views::all(actions@),
            pred == (|m: MutationView| m.retires()),
            count == all.take(i as int).filter(pred).len(),
            count <= i,
        decreases actions@.len() - i,
    {
        proof {
            assert(all.take(i + 1) =~= all.take(i as int).push(actions@[i as int]@));
            all.take(i as int).lemma_filter_push(actions@[i as int]@, pred);
        }
        if retires_fragment(&actions[i]) {
            count = count + 1;
        }
        i = i + 1;
    }
    assert(all.take(all.len() as int) =~= all);
    count
}

/// Estimated child bytes reclaimed by the removed fragments: their share of
/// the object.
pub open spec fn reclaimed(child: ChildView, actions: Seq<MutationView>) -> u64 {
    let keys: int = if retired(actions) < child.num_keys {
        retired(actions) as int
    } else {
        child.num_keys as int
    };
    let of: int = if child.num_keys == 0 {
        1
    } else {
        child.num_keys as int
    };
    (child.object_size * keys / of) as u64
}

fn reclaimed_bytes(
    child: &FragmentMetadataChild,
    actions: &Vec<FragmentMetadataMutation>,
) -> (r: u64)
    ensures
        r == reclaimed(child@, views::all(actions@)),
{
    let retired: u64 = retired_keys(actions);
    let keys: u64 = if retired < child.num_keys {
        retired
    } else {
        child.num_keys
    };
    let of: u64 = if child.num_keys == 0 {
        1
    } else {
        child.num_keys
    };
    let size: u64 = child.object_size;
    assert(0 <= size * keys <= size * of && size * of <= 0xffff_ffff_ffff_ffff * 0xffff_ffff_ffff_ffff
        && 0 <= (size * keys) / (of as int) <= size) by (nonlinear_arith)
        requires
            0 <= keys <= of,
            1 <= of <= u64::MAX,
            0 <= size <= u64::MAX,
    ;
    let share: u128 = size as u128 * keys as u128 / of as u128;
    share as u64
}

pub open spec fn share_of(children: Seq<ChildView>, config: FragmentMetadataTreeConfig) -> u64 {
    let routing = wire::capped(node::children_len(children));
    let room: u64 = if config.max_node_bytes < routing {
        0
    } else {
        (config.max_node_bytes - routing) as u64
    };
    room / at_least_one(children.len() as u64)
}

/// The part of a node's remaining routing room that each child may fill.
pub fn fair_share(
    children: &Vec<FragmentMetadataChild>,
    config: &FragmentMetadataTreeConfig,
) -> (r: u64)
    ensures
        r == share_of(views::all(children@), *config),
{
    let none: Vec<FragmentMetadataMutation> = Vec::new();
    let routing: u64 = node::internal_logical_bytes(children, &none);
    let room: u64 = config.split_ceiling().saturating_sub(routing);
    let sharers: u64 = if children.len() == 0 {
        1
    } else {
        children.len() as u64
    };
    room / sharers
}

/// Whether the buffer holding a batch is over a byte budget.
#[derive(Clone, Copy, Debug, PartialEq, Eq, Structural)]
pub enum Pressure {
    /// Over the semantic or structural budget: drain batches that amortize
    /// their rewrite, counting both pending and reclaimed bytes.
    Pressured,
    /// Within budget: drain only batches whose removals retire at least the
    /// amortization fraction of their child, so shrinking tables contract.
    Relaxed,
}

/// What draining a child's mutations is worth.
pub open spec fn credit(child: ChildView, actions: Seq<MutationView>, pressure: Pressure) -> u64 {
    match pressure {
        Pressure::Pressured => wire::capped(
            (wire::capped(node::buffer_len(actions)) + reclaimed(child, actions)) as nat,
        ),
        Pressure::Relaxed => reclaimed(child, actions),
    }
}

/// What draining a child has to be worth.
pub open spec fn gate(fair_share: u64, child: ChildView, pressure: Pressure) -> u64 {
    match pressure {
        Pressure::Pressured => pressured_gate(fair_share, child),
        Pressure::Relaxed => at_least_one(rewrite_share(child)),
    }
}

/// Whether a child is worth draining.
pub open spec fn worthwhile(
    children: Seq<ChildView>,
    held: Seq<Seq<MutationView>>,
    config: FragmentMetadataTreeConfig,
    pressure: Pressure,
    i: int,
) -> bool {
    &&& held[i].len() > 0
    &&& credit(children[i], held[i], pressure) >= gate(
        share_of(children, config),
        children[i],
        pressure,
    )
}

/// A position ranked among others by credit, the highest first. It goes
/// before equals.
pub open spec fn ranked_in(ranked: Seq<int>, credits: Seq<u64>, i: int) -> Seq<int>
    decreases ranked.len(),
{
    if ranked.len() == 0 || credits[ranked.last()] > credits[i] {
        ranked.push(i)
    } else {
        ranked_in(ranked.drop_last(), credits, i).push(ranked.last())
    }
}

/// What each child's drain is worth.
pub open spec fn credits_of(
    children: Seq<ChildView>,
    held: Seq<Seq<MutationView>>,
    pressure: Pressure,
) -> Seq<u64> {
    Seq::new(held.len(), |i: int| credit(children[i], held[i], pressure))
}

/// The first `n` children that are worth draining, the most worthwhile first
/// and the later one before an equal one.
pub open spec fn ranking(
    children: Seq<ChildView>,
    held: Seq<Seq<MutationView>>,
    config: FragmentMetadataTreeConfig,
    pressure: Pressure,
    n: int,
) -> Seq<int>
    decreases n,
{
    if n <= 0 {
        Seq::empty()
    } else {
        let rest = ranking(children, held, config, pressure, n - 1);
        if worthwhile(children, held, config, pressure, n - 1) {
            ranked_in(rest, credits_of(children, held, pressure), n - 1)
        } else {
            rest
        }
    }
}

/// The object bytes of the first `n` children of a ranking.
pub open spec fn batch_len(children: Seq<ChildView>, ranked: Seq<int>, n: int) -> nat
    decreases n,
{
    if n <= 0 {
        0
    } else {
        batch_len(children, ranked, n - 1) + children[ranked[n - 1]].object_size as nat
    }
}

/// How much of a ranking one batch drains, given that it drains `n`: one
/// child always, further ones while all are leaves and neither the count nor
/// the bytes of the batch are exceeded.
pub open spec fn admitted(children: Seq<ChildView>, ranked: Seq<int>, limit: int, n: int) -> int
    decreases ranked.len() - n,
{
    if n >= ranked.len() {
        n
    } else if n > 0 && (children[ranked[n - 1]].height > 0 || children[ranked[n]].height > 0 || n
        >= limit || wire::capped(batch_len(children, ranked, n + 1)) > MAX_BATCH_OBJECT_BYTES) {
        n
    } else {
        admitted(children, ranked, limit, n + 1)
    }
}

pub open spec fn drain_limit(io_parallelism: usize) -> int {
    if io_parallelism < 1 {
        1
    } else if io_parallelism > MAX_CONCURRENT_LEAF_DRAINS {
        MAX_CONCURRENT_LEAF_DRAINS as int
    } else {
        io_parallelism as int
    }
}

/// The children one batch drains.
pub open spec fn selection(
    children: Seq<ChildView>,
    held: Seq<Seq<MutationView>>,
    config: FragmentMetadataTreeConfig,
    io_parallelism: usize,
    pressure: Pressure,
) -> Seq<int> {
    let ranked = ranking(children, held, config, pressure, held.len() as int);
    ranked.take(admitted(children, ranked, drain_limit(io_parallelism), 0))
}

proof fn lemma_ranked_in_at(ranked: Seq<int>, credits: Seq<u64>, i: int, at: int)
    requires
        0 <= at <= ranked.len(),
        forall|k: int| at <= k < ranked.len() ==> credits[#[trigger] ranked[k]] <= credits[i],
        at == 0 || credits[ranked[at - 1]] > credits[i],
    ensures
        ranked_in(ranked, credits, i) == ranked.insert(at, i),
    decreases ranked.len(),
{
    if at == ranked.len() {
        assert(ranked.push(i) =~= ranked.insert(at, i));
    } else {
        assert(credits[ranked[ranked.len() - 1]] <= credits[i]);
        lemma_ranked_in_at(ranked.drop_last(), credits, i, at);
        assert(ranked.drop_last().insert(at, i).push(ranked.last()) =~= ranked.insert(at, i));
    }
}

proof fn lemma_ranked_in(ranked: Seq<int>, credits: Seq<u64>, i: int) -> (at: int)
    ensures
        0 <= at <= ranked.len(),
        ranked_in(ranked, credits, i) == ranked.insert(at, i),
    decreases ranked.len(),
{
    if ranked.len() == 0 || credits[ranked.last()] > credits[i] {
        assert(ranked.push(i) =~= ranked.insert(ranked.len() as int, i));
        ranked.len() as int
    } else {
        let at = lemma_ranked_in(ranked.drop_last(), credits, i);
        assert(ranked.drop_last().insert(at, i).push(ranked.last()) =~= ranked.insert(at, i));
        at
    }
}

/// A ranking names each worthwhile child once and no other.
pub proof fn lemma_ranking(
    children: Seq<ChildView>,
    held: Seq<Seq<MutationView>>,
    config: FragmentMetadataTreeConfig,
    pressure: Pressure,
    n: int,
)
    requires
        0 <= n <= held.len(),
    ensures
        ({
            let r = ranking(children, held, config, pressure, n);
            &&& forall|k: int|
                0 <= k < r.len() ==> 0 <= #[trigger] r[k] < n && worthwhile(
                    children,
                    held,
                    config,
                    pressure,
                    r[k],
                )
            &&& r.no_duplicates()
            &&& forall|i: int|
                0 <= i < n && worthwhile(children, held, config, pressure, i) ==> #[trigger]
                r.contains(i)
        }),
    decreases n,
{
    if n > 0 {
        lemma_ranking(children, held, config, pressure, n - 1);
        let rest = ranking(children, held, config, pressure, n - 1);
        let r = ranking(children, held, config, pressure, n);
        if worthwhile(children, held, config, pressure, n - 1) {
            let at = lemma_ranked_in(rest, credits_of(children, held, pressure), n - 1);
            assert(r == rest.insert(at, n - 1));
            assert forall|k: int| 0 <= k < r.len() implies 0 <= #[trigger] r[k] < n && worthwhile(
                children,
                held,
                config,
                pressure,
                r[k],
            ) by {
                if k < at {
                    assert(r[k] == rest[k]);
                } else if k > at {
                    assert(r[k] == rest[k - 1]);
                }
            }
            assert forall|a: int, b: int| 0 <= a < b < r.len() implies r[a] != r[b] by {
                let a2 = if a < at { a } else { a - 1 };
                let b2 = if b < at { b } else { b - 1 };
                if a != at {
                    assert(r[a] == rest[a2]);
                }
                if b != at {
                    assert(r[b] == rest[b2]);
                }
            }
            assert forall|i: int|
                0 <= i < n && worthwhile(children, held, config, pressure, i) implies #[trigger]
            r.contains(i) by {
                if i == n - 1 {
                    assert(r[at] == i);
                } else {
                    assert(rest.contains(i));
                    let k = choose|k: int| 0 <= k < rest.len() && rest[k] == i;
                    let k2 = if k < at { k } else { k + 1 };
                    assert(r[k2] == i);
                }
            }
        }
    }
}

proof fn lemma_admitted(children: Seq<ChildView>, ranked: Seq<int>, limit: int, n: int)
    requires
        0 <= n <= ranked.len(),
    ensures
        n <= admitted(children, ranked, limit, n) <= ranked.len(),
        n == 0 && ranked.len() > 0 ==> admitted(children, ranked, limit, n) > 0,
    decreases ranked.len() - n,
{
    if n < ranked.len() {
        lemma_admitted(children, ranked, limit, n + 1);
    }
}

/// A batch drains children that are worth it, each once, and drains one
/// whenever any is worth it.
pub proof fn law_selection_is_worthwhile(
    children: Seq<ChildView>,
    held: Seq<Seq<MutationView>>,
    config: FragmentMetadataTreeConfig,
    io_parallelism: usize,
    pressure: Pressure,
)
    ensures
        ({
            let s = selection(children, held, config, io_parallelism, pressure);
            &&& forall|k: int|
                0 <= k < s.len() ==> 0 <= #[trigger] s[k] < held.len() && worthwhile(
                    children,
                    held,
                    config,
                    pressure,
                    s[k],
                )
            &&& s.no_duplicates()
            &&& s.len() == 0 ==> forall|i: int|
                0 <= i < held.len() ==> !#[trigger] worthwhile(
                    children,
                    held,
                    config,
                    pressure,
                    i,
                )
        }),
{
    let n = held.len() as int;
    let ranked = ranking(children, held, config, pressure, n);
    lemma_ranking(children, held, config, pressure, n);
    lemma_admitted(children, ranked, drain_limit(io_parallelism), 0);
    let s = selection(children, held, config, io_parallelism, pressure);
    assert forall|k: int| 0 <= k < s.len() implies 0 <= #[trigger] s[k] < held.len()
        && worthwhile(children, held, config, pressure, s[k]) by {
        assert(s[k] == ranked[k]);
    }
    assert forall|a: int, b: int| 0 <= a < b < s.len() implies s[a] != s[b] by {
        assert(s[a] == ranked[a] && s[b] == ranked[b]);
    }
    if s.len() == 0 {
        assert(ranked.len() == 0);
        assert forall|i: int| 0 <= i < held.len() implies !#[trigger] worthwhile(
            children,
            held,
            config,
            pressure,
            i,
        ) by {
            if worthwhile(children, held, config, pressure, i) {
                assert(ranked.contains(i));
            }
        }
    }
}

/// A number among others as a position.
pub open spec fn positions(s: Seq<usize>) -> Seq<int> {
    Seq::new(s.len(), |i: int| s[i] as int)
}

/// Children worth draining now, fullest first, bounded for one batch.
///
/// A byte overflow always leaves one bucket at or above the fair share by
/// pigeonhole, so structural pressure needs no separate path here. When the
/// result is empty only routing or fanout overflows, which the caller splits.
pub fn select_children(
    children: &Vec<FragmentMetadataChild>,
    buckets: &Buckets,
    config: &FragmentMetadataTreeConfig,
    io_parallelism: usize,
    pressure: Pressure,
) -> (r: Vec<usize>)
    requires
        buckets.held().len() <= children@.len(),
    ensures
        positions(r@) == selection(
            views::all(children@),
            buckets.held(),
            *config,
            io_parallelism,
            pressure,
        ),
{
    let ghost kids = views::all(children@);
    let ghost held = buckets.held();
    let ghost all_credits = credits_of(kids, held, pressure);
    let share: u64 = fair_share(children, config);
    let count: usize = buckets.len();
    let mut credits: Vec<u64> = Vec::new();
    let mut ranked: Vec<usize> = Vec::new();
    let mut idx: usize = 0;
    while idx < count
        invariant
            idx <= count,
            count == held.len(),
            held == buckets.held(),
            held.len() <= children@.len(),
            kids == views::all(children@),
            share == share_of(kids, *config),
            all_credits == credits_of(kids, held, pressure),
            credits@ == all_credits.take(idx as int),
            positions(ranked@) == ranking(kids, held, *config, pressure, idx as int),
            forall|k: int| 0 <= k < ranked@.len() ==> #[trigger] ranked@[k] < idx,
        decreases count - idx,
    {
        let actions = buckets.bucket(idx);
        let child = &children[idx];
        assert(kids[idx as int] == child@);
        let back: u64 = reclaimed_bytes(child, actions);
        let worth: u64 = match pressure {
            Pressure::Pressured => buckets.bytes_of(idx).saturating_add(back),
            Pressure::Relaxed => back,
        };
        let needed: u64 = match pressure {
            Pressure::Pressured => amortization_gate(share, child),
            Pressure::Relaxed => {
                let part: u64 = child.object_size / REWRITE_AMORTIZATION_DIVISOR;
                if part == 0 {
                    1
                } else {
                    part
                }
            },
        };
        assert(worth == all_credits[idx as int]);
        credits.push(worth);
        assert(credits@ =~= all_credits.take(idx + 1));
        if actions.len() > 0 && worth >= needed {
            let mut at: usize = ranked.len();
            let ghost before = positions(ranked@);
            while at > 0 && credits[ranked[at - 1]] <= worth
                invariant
                    at <= ranked@.len(),
                    before == positions(ranked@),
                    idx < held.len(),
                    all_credits.len() == held.len(),
                    credits@ == all_credits.take(idx + 1),
                    worth == all_credits[idx as int],
                    forall|k: int| 0 <= k < ranked@.len() ==> #[trigger] ranked@[k] < idx,
                    forall|k: int|
                        at <= k < before.len() ==> all_credits[#[trigger] before[k]]
                            <= all_credits[idx as int],
                decreases at,
            {
                at = at - 1;
                assert(before[at as int] == ranked@[at as int]);
            }
            proof {
                if at > 0 {
                    assert(before[at - 1] == ranked@[at - 1]);
                    assert(ranked@[at - 1] < idx);
                }
                lemma_ranked_in_at(before, all_credits, idx as int, at as int);
            }
            ranked.insert(at, idx);
            assert(positions(ranked@) =~= before.insert(at as int, idx as int));
        }
        idx = idx + 1;
    }
    let limit: usize = if io_parallelism < 1 {
        1
    } else if io_parallelism > MAX_CONCURRENT_LEAF_DRAINS {
        MAX_CONCURRENT_LEAF_DRAINS
    } else {
        io_parallelism
    };
    let ghost order = positions(ranked@);
    let ghost most = drain_limit(io_parallelism);
    let mut selected: Vec<usize> = Vec::new();
    let mut batch_bytes: u64 = 0;
    let mut n: usize = 0;
    while n < ranked.len()
        invariant_except_break
            admitted(kids, order, most, 0) == admitted(kids, order, most, n as int),
        invariant
            n <= ranked@.len(),
            order == positions(ranked@),
            order == ranking(kids, held, *config, pressure, held.len() as int),
            kids == views::all(children@),
            held.len() <= children@.len(),
            forall|k: int| 0 <= k < ranked@.len() ==> #[trigger] ranked@[k] < held.len(),
            limit == most,
            selected@.len() == n,
            positions(selected@) == order.take(n as int),
            batch_bytes == wire::capped(batch_len(kids, order, n as int)),
        ensures
            n == admitted(kids, order, most, 0),
            positions(selected@) == order.take(n as int),
        decreases ranked@.len() - n,
    {
        let idx: usize = ranked[n];
        assert(order[n as int] == idx);
        let child = &children[idx];
        assert(kids[idx as int] == child@);
        if n > 0 {
            let previous: usize = ranked[n - 1];
            assert(order[n - 1] == previous);
            assert(kids[previous as int] == children@[previous as int]@);
            // Interior drains recurse, so running them together would
            // multiply the bound.
            if children[previous].height > 0 || child.height > 0 || n >= limit
                || batch_bytes.saturating_add(child.object_size) > MAX_BATCH_OBJECT_BYTES {
                break ;
            }
        }
        selected.push(idx);
        batch_bytes = batch_bytes.saturating_add(child.object_size);
        assert(positions(selected@) =~= order.take(n + 1));
        n = n + 1;
    }
    selected
}

/// Whether a mutation removes a fragment that the subtree below holds.
pub open spec fn takes_away(m: MutationView) -> bool {
    m.fragment_count_delta < 0 && (m.action matches Some(Some(ActionView::RemoveFragment(_))))
}

/// How many fragments some mutations take away, at most as many as a child has.
pub open spec fn taken_away(child: ChildView, bucket: Seq<MutationView>) -> int {
    let gone = bucket.filter(|m: MutationView| takes_away(m)).len() as int;
    if gone < child.num_keys {
        gone
    } else {
        child.num_keys as int
    }
}

/// What draining a child is worth in bytes: the share of its object that its
/// removed fragments free and, under pressure, the bytes that are drained.
pub open spec fn worth(child: ChildView, bucket: Seq<MutationView>, pressure: Pressure) -> int {
    let freed = if child.num_keys == 0 {
        0
    } else {
        child.object_size * taken_away(child, bucket) / child.num_keys as int
    };
    match pressure {
        Pressure::Pressured => node::buffer_len(bucket) + freed,
        Pressure::Relaxed => freed,
    }
}

/// What draining a child has to be worth: one sixteenth of its object and,
/// under pressure, no more than its part of the room that the routing leaves in
/// the node; one byte at least.
pub open spec fn price(
    children: Seq<ChildView>,
    config: FragmentMetadataTreeConfig,
    child: ChildView,
    pressure: Pressure,
) -> int {
    let share = child.object_size as int / 16;
    let room = if node::children_len(children) < config.max_node_bytes {
        config.max_node_bytes - node::children_len(children)
    } else {
        0
    };
    let part = room / children.len() as int;
    let asked = if pressure is Pressured && part < share {
        part
    } else {
        share
    };
    if asked < 1 {
        1
    } else {
        asked
    }
}

proof fn lemma_taken_away(child: ChildView, bucket: Seq<MutationView>)
    ensures
        reclaimed(child, bucket) == if child.num_keys == 0 {
            0
        } else {
            child.object_size * taken_away(child, bucket) / child.num_keys as int
        },
        0 <= reclaimed(child, bucket) <= child.object_size,
{
    assert(bucket.filter(|m: MutationView| m.retires()) == bucket.filter(
        |m: MutationView| takes_away(m),
    )) by {
        assert forall|m: MutationView| #[trigger] m.retires() == takes_away(m) by {}
        assert((|m: MutationView| m.retires()) =~= (|m: MutationView| takes_away(m)));
    }
    let size = child.object_size as int;
    let keys = taken_away(child, bucket);
    let of: int = if child.num_keys == 0 {
        1
    } else {
        child.num_keys as int
    };
    assert(0 <= size * keys / of <= size) by (nonlinear_arith)
        requires
            0 <= keys <= of,
            of > 0,
            size >= 0,
    ;
    assert(size * 0 == 0) by (nonlinear_arith);
}

/// A child is drained only where it has anything pending and draining it is
/// worth its price, and where nothing is drained no child is.
pub proof fn law_drained_children_pay_for_it(
    children: Seq<ChildView>,
    held: Seq<Seq<MutationView>>,
    config: FragmentMetadataTreeConfig,
    io_parallelism: usize,
    pressure: Pressure,
    i: int,
)
    requires
        held.len() == children.len(),
        children.len() <= u64::MAX,
        node::children_len(children) <= u64::MAX,
        0 <= i < held.len(),
        node::buffer_len(held[i]) + children[i].object_size <= u64::MAX,
    ensures
        ({
            let s = selection(children, held, config, io_parallelism, pressure);
            let pays = held[i].len() > 0 && worth(children[i], held[i], pressure) >= price(
                children,
                config,
                children[i],
                pressure,
            );
            &&& s.contains(i) ==> pays
            &&& s.len() == 0 ==> !pays
        }),
{
    law_selection_is_worthwhile(children, held, config, io_parallelism, pressure);
    lemma_taken_away(children[i], held[i]);
    let s = selection(children, held, config, io_parallelism, pressure);
    if s.contains(i) {
        let k = choose|k: int| 0 <= k < s.len() && s[k] == i;
        assert(worthwhile(children, held, config, pressure, s[k]));
    }
    assert(worthwhile(children, held, config, pressure, i) == (held[i].len() > 0 && worth(
        children[i],
        held[i],
        pressure,
    ) >= price(children, config, children[i], pressure)));
}

proof fn lemma_ranking_descends(
    children: Seq<ChildView>,
    held: Seq<Seq<MutationView>>,
    config: FragmentMetadataTreeConfig,
    pressure: Pressure,
    n: int,
)
    requires
        0 <= n <= held.len(),
    ensures
        ({
            let r = ranking(children, held, config, pressure, n);
            let credits = credits_of(children, held, pressure);
            forall|a: int, b: int|
                0 <= a < b < r.len() ==> credits[#[trigger] r[a]] >= credits[#[trigger] r[b]]
        }),
    decreases n,
{
    if n > 0 {
        lemma_ranking_descends(children, held, config, pressure, n - 1);
        let rest = ranking(children, held, config, pressure, n - 1);
        let r = ranking(children, held, config, pressure, n);
        let credits = credits_of(children, held, pressure);
        if worthwhile(children, held, config, pressure, n - 1) {
            lemma_ranked_in_descends(rest, credits, n - 1);
        }
    }
}

proof fn lemma_ranked_in_descends(ranked: Seq<int>, credits: Seq<u64>, i: int)
    requires
        forall|a: int, b: int|
            0 <= a < b < ranked.len() ==> credits[#[trigger] ranked[a]] >= credits[
            #[trigger] ranked[b]],
    ensures
        ({
            let r = ranked_in(ranked, credits, i);
            &&& r.len() == ranked.len() + 1
            &&& forall|a: int, b: int|
                0 <= a < b < r.len() ==> credits[#[trigger] r[a]] >= credits[#[trigger] r[b]]
            &&& forall|k: int|
                0 <= k < r.len() ==> #[trigger] r[k] == i || ranked.contains(r[k])
        }),
    decreases ranked.len(),
{
    let r = ranked_in(ranked, credits, i);
    if ranked.len() == 0 || credits[ranked.last()] > credits[i] {
        let n = ranked.len() as int;
        assert forall|a: int, b: int| 0 <= a < b < r.len() implies credits[#[trigger] r[a]]
            >= credits[#[trigger] r[b]] by {
            if b == n {
                assert(r[a] == ranked[a]);
                if a < n - 1 {
                    assert(credits[ranked[a]] >= credits[ranked[n - 1]]);
                }
            } else {
                assert(r[a] == ranked[a] && r[b] == ranked[b]);
            }
        }
        assert forall|k: int| 0 <= k < r.len() implies #[trigger] r[k] == i || ranked.contains(
            r[k],
        ) by {
            if k < n {
                assert(r[k] == ranked[k]);
            }
        }
    } else {
        let rest = ranked.drop_last();
        let n = rest.len() as int;
        assert forall|a: int, b: int| 0 <= a < b < rest.len() implies credits[#[trigger] rest[a]]
            >= credits[#[trigger] rest[b]] by {
            assert(rest[a] == ranked[a] && rest[b] == ranked[b]);
        }
        lemma_ranked_in_descends(rest, credits, i);
        let inner = ranked_in(rest, credits, i);
        assert(r == inner.push(ranked.last()));
        assert forall|a: int, b: int| 0 <= a < b < r.len() implies credits[#[trigger] r[a]]
            >= credits[#[trigger] r[b]] by {
            if b < inner.len() {
                assert(r[a] == inner[a] && r[b] == inner[b]);
            } else {
                assert(r[a] == inner[a]);
                if inner[a] != i {
                    let k = choose|k: int| 0 <= k < rest.len() && rest[k] == inner[a];
                    assert(ranked[k] == inner[a]);
                    assert(credits[ranked[k]] >= credits[ranked[n]]);
                }
            }
        }
        assert forall|k: int| 0 <= k < r.len() implies #[trigger] r[k] == i || ranked.contains(
            r[k],
        ) by {
            if k < inner.len() {
                assert(r[k] == inner[k]);
                if inner[k] != i {
                    let j = choose|j: int| 0 <= j < rest.len() && rest[j] == inner[k];
                    assert(ranked[j] == inner[k]);
                }
            } else {
                assert(ranked[n] == r[k]);
            }
        }
    }
}

proof fn lemma_admitted_limits(children: Seq<ChildView>, ranked: Seq<int>, limit: int, n: int)
    requires
        0 <= n <= ranked.len(),
        n > 1 ==> n <= limit && batch_len(children, ranked, n) <= MAX_BATCH_OBJECT_BYTES,
        n > 1 ==> forall|k: int| 0 <= k < n ==> children[#[trigger] ranked[k]].height == 0,
        limit >= 1,
    ensures
        ({
            let m = admitted(children, ranked, limit, n);
            m > 1 ==> {
                &&& m <= limit
                &&& batch_len(children, ranked, m) <= MAX_BATCH_OBJECT_BYTES
                &&& forall|k: int| 0 <= k < m ==> children[#[trigger] ranked[k]].height == 0
            }
        }),
    decreases ranked.len() - n,
{
    if n >= ranked.len() {
    } else if n > 0 && (children[ranked[n - 1]].height > 0 || children[ranked[n]].height > 0 || n
        >= limit || wire::capped(batch_len(children, ranked, n + 1)) > MAX_BATCH_OBJECT_BYTES) {
    } else {
        lemma_admitted_limits(children, ranked, limit, n + 1);
    }
}

/// A batch drains the children that are worth most first. It drains more than
/// one only of leaves, no more of them than are read at once, and no more bytes
/// than a batch may hold.
pub proof fn law_batch_is_bounded(
    children: Seq<ChildView>,
    held: Seq<Seq<MutationView>>,
    config: FragmentMetadataTreeConfig,
    io_parallelism: usize,
    pressure: Pressure,
)
    requires
        held.len() == children.len(),
        forall|i: int|
            0 <= i < held.len() ==> node::buffer_len(#[trigger] held[i]) + children[i].object_size
                <= u64::MAX,
    ensures
        ({
            let s = selection(children, held, config, io_parallelism, pressure);
            &&& forall|a: int, b: int|
                0 <= a < b < s.len() ==> worth(
                    children[#[trigger] s[a]],
                    held[s[a]],
                    pressure,
                ) >= worth(children[#[trigger] s[b]], held[s[b]], pressure)
            &&& s.len() > 1 ==> {
                &&& s.len() <= io_parallelism
                &&& s.len() <= 8
                &&& batch_len(children, s, s.len() as int) <= 0x200_0000
                &&& forall|k: int| 0 <= k < s.len() ==> children[#[trigger] s[k]].height == 0
            }
        }),
{
    let n = held.len() as int;
    let ranked = ranking(children, held, config, pressure, n);
    let limit = drain_limit(io_parallelism);
    let s = selection(children, held, config, io_parallelism, pressure);
    let credits = credits_of(children, held, pressure);
    lemma_ranking(children, held, config, pressure, n);
    lemma_ranking_descends(children, held, config, pressure, n);
    lemma_admitted(children, ranked, limit, 0);
    lemma_admitted_limits(children, ranked, limit, 0);
    assert forall|a: int, b: int| 0 <= a < b < s.len() implies worth(
        children[#[trigger] s[a]],
        held[s[a]],
        pressure,
    ) >= worth(children[#[trigger] s[b]], held[s[b]], pressure) by {
        assert(s[a] == ranked[a] && s[b] == ranked[b]);
        assert(credits[ranked[a]] >= credits[ranked[b]]);
        lemma_taken_away(children[s[a]], held[s[a]]);
        lemma_taken_away(children[s[b]], held[s[b]]);
        assert(node::buffer_len(held[s[a]]) + children[s[a]].object_size <= u64::MAX);
        assert(node::buffer_len(held[s[b]]) + children[s[b]].object_size <= u64::MAX);
    }
    if s.len() > 1 {
        lemma_batch_prefix(children, ranked, s, s.len() as int);
        assert forall|k: int| 0 <= k < s.len() implies children[#[trigger] s[k]].height == 0 by {
            assert(s[k] == ranked[k]);
        }
    }
}

proof fn lemma_batch_prefix(children: Seq<ChildView>, ranked: Seq<int>, s: Seq<int>, n: int)
    requires
        0 <= n <= s.len() <= ranked.len(),
        s == ranked.take(s.len() as int),
    ensures
        batch_len(children, s, n) == batch_len(children, ranked, n),
    decreases n,
{
    if n > 0 {
        lemma_batch_prefix(children, ranked, s, n - 1);
        assert(s[n - 1] == ranked[n - 1]);
    }
}

/// What draining each child is credited with is what it is worth, and what it
/// has to be worth is its price.
pub proof fn lemma_credit_is_worth(
    children: Seq<ChildView>,
    held: Seq<Seq<MutationView>>,
    config: FragmentMetadataTreeConfig,
    pressure: Pressure,
)
    requires
        held.len() == children.len(),
        children.len() <= u64::MAX,
        node::children_len(children) <= u64::MAX,
        forall|k: int|
            0 <= k < held.len() ==> node::buffer_len(#[trigger] held[k]) + children[k].object_size
                <= u64::MAX,
    ensures
        forall|k: int|
            0 <= k < held.len() ==> #[trigger] credits_of(children, held, pressure)[k] == worth(
                children[k],
                held[k],
                pressure,
            ),
        forall|k: int|
            0 <= k < held.len() ==> #[trigger] worthwhile(children, held, config, pressure, k) == (
            held[k].len() > 0 && worth(children[k], held[k], pressure) >= price(
                children,
                config,
                children[k],
                pressure,
            )),
{
    assert forall|k: int| 0 <= k < held.len() implies #[trigger] credits_of(
        children,
        held,
        pressure,
    )[k] == worth(children[k], held[k], pressure) by {
        lemma_taken_away(children[k], held[k]);
        assert(node::buffer_len(held[k]) + children[k].object_size <= u64::MAX);
    }
    assert forall|k: int| 0 <= k < held.len() implies #[trigger] worthwhile(
        children,
        held,
        config,
        pressure,
        k,
    ) == (held[k].len() > 0 && worth(children[k], held[k], pressure) >= price(
        children,
        config,
        children[k],
        pressure,
    )) by {
        assert(credits_of(children, held, pressure)[k] == worth(children[k], held[k], pressure));
    }
}

} // verus!
