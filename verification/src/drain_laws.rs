//! Which children a batch drains, and what draining them counts as.

use vstd::prelude::*;

use crate::bulk;
use crate::drain;
use crate::flush;
use crate::flush::Pressure;
use crate::merge;
use crate::merge::WriteAcc;
use crate::node;
use crate::node::FragmentMetadataTreeConfig;
use crate::pb::{ChildView, MutationView};
use crate::policy_laws;
use crate::record::FragmentView;
use crate::split;
use crate::squash;
use crate::steps;
use crate::store;
use crate::store::{Halt, Names, StoreView};
use crate::wire;

verus! {

/// Whether draining a child comes before draining another: it is worth more, or
/// as much and stands further right.
pub open spec fn comes_first(
    children: Seq<ChildView>,
    held: Seq<Seq<MutationView>>,
    pressure: Pressure,
    x: int,
    y: int,
) -> bool {
    let a = flush::worth(children[x], held[x], pressure);
    let b = flush::worth(children[y], held[y], pressure);
    a > b || (a == b && x > y)
}

/// Whether a child has anything pending whose draining is worth its price.
pub open spec fn pays(
    children: Seq<ChildView>,
    held: Seq<Seq<MutationView>>,
    config: FragmentMetadataTreeConfig,
    pressure: Pressure,
    i: int,
) -> bool {
    held[i].len() > 0 && flush::worth(children[i], held[i], pressure) >= flush::price(
        children,
        config,
        children[i],
        pressure,
    )
}

/// The object bytes of some children.
pub open spec fn bytes_drained(children: Seq<ChildView>, chosen: Seq<int>) -> int
    decreases chosen.len(),
{
    if chosen.len() == 0 {
        0
    } else {
        bytes_drained(children, chosen.drop_last()) + children[chosen.last()].object_size
    }
}

/// Whether a batch has no room for one more child: one of both is a node, the
/// batch has as many children as are read at once or eight, or its bytes would
/// exceed 32 MiB.
pub open spec fn no_room(
    children: Seq<ChildView>,
    chosen: Seq<int>,
    io_parallelism: usize,
    j: int,
) -> bool {
    ||| children[chosen.last()].height > 0
    ||| children[j].height > 0
    ||| chosen.len() >= io_parallelism
    ||| chosen.len() >= 8
    ||| bytes_drained(children, chosen) + children[j].object_size > 0x200_0000
}

spec fn ranks(credits: Seq<u64>, x: int, y: int) -> bool {
    credits[x] > credits[y] || (credits[x] == credits[y] && x > y)
}

spec fn in_rank(credits: Seq<u64>, r: Seq<int>) -> bool {
    forall|a: int, b: int| 0 <= a < b < r.len() ==> ranks(credits, #[trigger] r[a], #[trigger] r[b])
}

proof fn lemma_ranked_in_rank(ranked: Seq<int>, credits: Seq<u64>, i: int)
    requires
        in_rank(credits, ranked),
        forall|k: int| 0 <= k < ranked.len() ==> #[trigger] ranked[k] < i,
    ensures
        in_rank(credits, flush::ranked_in(ranked, credits, i)),
        flush::ranked_in(ranked, credits, i).len() == ranked.len() + 1,
        forall|k: int|
            0 <= k < ranked.len() + 1 ==> (#[trigger] flush::ranked_in(ranked, credits, i)[k]) == i
                || ranked.contains(flush::ranked_in(ranked, credits, i)[k]),
    decreases ranked.len(),
{
    let r = flush::ranked_in(ranked, credits, i);
    let n = ranked.len() as int;
    if n == 0 || credits[ranked.last()] > credits[i] {
        assert forall|a: int, b: int| 0 <= a < b < r.len() implies ranks(
            credits,
            #[trigger] r[a],
            #[trigger] r[b],
        ) by {
            assert(r[a] == ranked[a]);
            if b == n {
                if a < n - 1 {
                    assert(ranks(credits, ranked[a], ranked[n - 1]));
                }
            } else {
                assert(r[b] == ranked[b]);
            }
        }
        assert forall|k: int| 0 <= k < n + 1 implies (#[trigger] r[k]) == i || ranked.contains(
            r[k],
        ) by {
            if k < n {
                assert(r[k] == ranked[k]);
            }
        }
    } else {
        let rest = ranked.drop_last();
        assert forall|a: int, b: int| 0 <= a < b < rest.len() implies ranks(
            credits,
            #[trigger] rest[a],
            #[trigger] rest[b],
        ) by {
            assert(rest[a] == ranked[a] && rest[b] == ranked[b]);
        }
        assert forall|k: int| 0 <= k < rest.len() implies #[trigger] rest[k] < i by {
            assert(rest[k] == ranked[k]);
        }
        lemma_ranked_in_rank(rest, credits, i);
        let inner = flush::ranked_in(rest, credits, i);
        assert(r == inner.push(ranked.last()));
        assert forall|a: int, b: int| 0 <= a < b < r.len() implies ranks(
            credits,
            #[trigger] r[a],
            #[trigger] r[b],
        ) by {
            assert(r[a] == inner[a]);
            if b < n {
                assert(r[b] == inner[b]);
            } else if inner[a] != i {
                let k = choose|k: int| 0 <= k < rest.len() && rest[k] == inner[a];
                assert(ranked[k] == inner[a]);
                assert(ranks(credits, ranked[k], ranked[n - 1]));
            } else {
                assert(ranked[n - 1] < i);
            }
        }
        assert forall|k: int| 0 <= k < n + 1 implies (#[trigger] r[k]) == i || ranked.contains(
            r[k],
        ) by {
            if k < n {
                assert(r[k] == inner[k]);
                if inner[k] != i {
                    let j = choose|j: int| 0 <= j < rest.len() && rest[j] == inner[k];
                    assert(ranked[j] == inner[k]);
                }
            } else {
                assert(ranked[n - 1] == r[k]);
            }
        }
    }
}

proof fn lemma_ranking_in_rank(
    children: Seq<ChildView>,
    held: Seq<Seq<MutationView>>,
    config: FragmentMetadataTreeConfig,
    pressure: Pressure,
    n: int,
)
    requires
        0 <= n <= held.len(),
    ensures
        in_rank(
            flush::credits_of(children, held, pressure),
            flush::ranking(children, held, config, pressure, n),
        ),
    decreases n,
{
    if n > 0 {
        let credits = flush::credits_of(children, held, pressure);
        lemma_ranking_in_rank(children, held, config, pressure, n - 1);
        flush::lemma_ranking(children, held, config, pressure, n - 1);
        if flush::worthwhile(children, held, config, pressure, n - 1) {
            lemma_ranked_in_rank(
                flush::ranking(children, held, config, pressure, n - 1),
                credits,
                n - 1,
            );
        }
    }
}

proof fn lemma_bytes_drained(children: Seq<ChildView>, ranked: Seq<int>, n: int)
    requires
        0 <= n <= ranked.len(),
    ensures
        bytes_drained(children, ranked.take(n)) == flush::batch_len(children, ranked, n),
    decreases n,
{
    if n > 0 {
        lemma_bytes_drained(children, ranked, n - 1);
        assert(ranked.take(n).drop_last() =~= ranked.take(n - 1));
    }
}

proof fn lemma_stopped(
    children: Seq<ChildView>,
    ranked: Seq<int>,
    io_parallelism: usize,
    n: int,
)
    requires
        0 <= n <= ranked.len(),
    ensures
        ({
            let m = flush::admitted(children, ranked, flush::drain_limit(io_parallelism), n);
            &&& n <= m <= ranked.len()
            &&& n == 0 && ranked.len() > 0 ==> m > 0
            &&& 0 < m < ranked.len() ==> no_room(
                children,
                ranked.take(m),
                io_parallelism,
                ranked[m],
            )
        }),
    decreases ranked.len() - n,
{
    if n < ranked.len() {
        if n > 0 && (children[ranked[n - 1]].height > 0 || children[ranked[n]].height > 0 || n
            >= flush::drain_limit(io_parallelism) || wire::capped(
            flush::batch_len(children, ranked, n + 1),
        ) > flush::MAX_BATCH_OBJECT_BYTES) {
            lemma_bytes_drained(children, ranked, n);
            assert(ranked.take(n).last() == ranked[n - 1]);
        } else {
            lemma_stopped(children, ranked, io_parallelism, n + 1);
        }
    }
}

/// Where a child that pays is left out of a batch, every child of the batch
/// comes before it, and the batch had no room for the first one left out.
pub proof fn law_batch_takes_the_first_that_fit(
    children: Seq<ChildView>,
    held: Seq<Seq<MutationView>>,
    config: FragmentMetadataTreeConfig,
    io_parallelism: usize,
    pressure: Pressure,
    i: int,
)
    requires
        held.len() == children.len(),
        children.len() <= u64::MAX,
        node::children_len(children) <= u64::MAX,
        forall|k: int|
            0 <= k < held.len() ==> node::buffer_len(#[trigger] held[k]) + children[k].object_size
                <= u64::MAX,
        0 <= i < held.len(),
        pays(children, held, config, pressure, i),
        !flush::selection(children, held, config, io_parallelism, pressure).contains(i),
    ensures
        ({
            let s = flush::selection(children, held, config, io_parallelism, pressure);
            &&& s.len() > 0
            &&& forall|k: int|
                0 <= k < s.len() ==> comes_first(children, held, pressure, #[trigger] s[k], i)
            &&& exists|j: int|
                0 <= j < held.len() && !s.contains(j) && (j == i || comes_first(
                    children,
                    held,
                    pressure,
                    j,
                    i,
                )) && #[trigger] no_room(children, s, io_parallelism, j)
        }),
{
    let n = held.len() as int;
    let credits = flush::credits_of(children, held, pressure);
    let ranked = flush::ranking(children, held, config, pressure, n);
    let s = flush::selection(children, held, config, io_parallelism, pressure);
    let m = s.len() as int;
    flush::lemma_ranking(children, held, config, pressure, n);
    lemma_ranking_in_rank(children, held, config, pressure, n);
    lemma_stopped(children, ranked, io_parallelism, 0);
    flush::lemma_credit_is_worth(children, held, config, pressure);
    assert(flush::worthwhile(children, held, config, pressure, i));
    assert(ranked.contains(i));
    let at = choose|at: int| 0 <= at < ranked.len() && ranked[at] == i;
    if at < m {
        assert(s[at] == i);
    }
    assert forall|k: int| 0 <= k < s.len() implies comes_first(
        children,
        held,
        pressure,
        #[trigger] s[k],
        i,
    ) by {
        assert(s[k] == ranked[k]);
        assert(ranks(credits, ranked[k], ranked[at]));
    }
    let j = ranked[m];
    if s.contains(j) {
        let k = choose|k: int| 0 <= k < s.len() && s[k] == j;
        assert(ranked[k] == ranked[m]);
    }
    if at > m {
        assert(ranks(credits, ranked[m], ranked[at]));
    }
    assert(no_room(children, s, io_parallelism, j));
}

/// Of two children that are drained, the one that comes first is named first.
pub proof fn law_batch_is_in_its_order(
    children: Seq<ChildView>,
    held: Seq<Seq<MutationView>>,
    config: FragmentMetadataTreeConfig,
    io_parallelism: usize,
    pressure: Pressure,
    a: int,
    b: int,
)
    requires
        held.len() == children.len(),
        children.len() <= u64::MAX,
        node::children_len(children) <= u64::MAX,
        forall|k: int|
            0 <= k < held.len() ==> node::buffer_len(#[trigger] held[k]) + children[k].object_size
                <= u64::MAX,
        0 <= a < b < flush::selection(children, held, config, io_parallelism, pressure).len(),
    ensures
        ({
            let s = flush::selection(children, held, config, io_parallelism, pressure);
            comes_first(children, held, pressure, s[a], s[b])
        }),
{
    let n = held.len() as int;
    let ranked = flush::ranking(children, held, config, pressure, n);
    let s = flush::selection(children, held, config, io_parallelism, pressure);
    flush::lemma_ranking(children, held, config, pressure, n);
    lemma_ranking_in_rank(children, held, config, pressure, n);
    lemma_stopped(children, ranked, io_parallelism, 0);
    flush::lemma_credit_is_worth(children, held, config, pressure);
    assert(s[a] == ranked[a] && s[b] == ranked[b]);
    assert(ranks(flush::credits_of(children, held, pressure), ranked[a], ranked[b]));
}

/// Rewriting a leaf counts the bytes of the leaves that came of it, a split for
/// each beyond the first, and every mutation that it took in.
pub proof fn law_rewritten_leaf_counts_its_work(
    known: StoreView,
    names: Names,
    child: ChildView,
    incoming: Seq<MutationView>,
    end: u64,
    config: FragmentMetadataTreeConfig,
    after: StoreView,
    refs: Seq<ChildView>,
    work: WriteAcc,
)
    requires
        drain::leaf_ingested(known, names, child, incoming, end, config) == Ok::<
            (StoreView, Seq<ChildView>, WriteAcc),
            Halt,
        >((after, refs, work)),
        incoming.len() <= u64::MAX,
        refs.len() <= u64::MAX,
        policy_laws::bytes_of(refs, 0, refs.len() as int) <= u64::MAX,
    ensures
        work.io_bytes == policy_laws::bytes_of(refs, 0, refs.len() as int),
        work.splits == if refs.len() > 0 {
            refs.len() - 1
        } else {
            0
        },
        work.materialized == incoming.len(),
        work.flushes == 0,
        work.merges == 0,
        work.squashed == 0,
        work.max_flush_depth == 0,
{
    reveal(drain::leaf_ingested);
    let records = drain::leaf_source(known, child, incoming)->Ok_0;
    let kept = drain::leaf_outcome(child, records, incoming, end)->Ok_0;
    let plain = store::put_leaves(known, names, kept, drain::ceiling(known), config)->Ok_0.1;
    lemma_bytes(refs, refs.len() as int);
    lemma_bytes(plain, plain.len() as int);
    lemma_same_bytes(plain, refs, plain.len() as int);
    assert(refs.take(refs.len() as int) =~= refs);
    assert(plain.take(plain.len() as int) =~= plain);
}

proof fn lemma_bytes(refs: Seq<ChildView>, n: int)
    requires
        0 <= n <= refs.len(),
    ensures
        store::ref_bytes(refs.take(n)) == policy_laws::bytes_of(refs, 0, n),
    decreases n,
{
    if n > 0 {
        lemma_bytes(refs, n - 1);
        assert(refs.take(n).drop_last() =~= refs.take(n - 1));
        assert(refs.take(n).last() == refs[n - 1]);
    }
}

proof fn lemma_same_bytes(a: Seq<ChildView>, b: Seq<ChildView>, n: int)
    requires
        0 <= n <= a.len(),
        a.len() == b.len(),
        forall|i: int| 0 <= i < a.len() ==> (#[trigger] a[i]).object_size == b[i].object_size,
    ensures
        policy_laws::bytes_of(a, 0, n) == policy_laws::bytes_of(b, 0, n),
    decreases n,
{
    if n > 0 {
        lemma_same_bytes(a, b, n - 1);
        assert(a[n - 1].object_size == b[n - 1].object_size);
    }
}

/// Draining a child counts as one flush beside the work that it took, at the
/// depth of the child where nothing went deeper.
pub proof fn law_drain_counts_as_a_flush(acc: WriteAcc, more: WriteAcc, depth: u32)
    requires
        acc.flushes + more.flushes < u64::MAX,
        acc.io_bytes + more.io_bytes <= u64::MAX,
        acc.splits + more.splits <= u64::MAX,
        acc.merges + more.merges <= u64::MAX,
        acc.materialized + more.materialized <= u64::MAX,
        acc.squashed + more.squashed <= u64::MAX,
    ensures
        ({
            let work = drain::drain_work(acc, more, depth);
            &&& work.flushes == acc.flushes + more.flushes + 1
            &&& work.io_bytes == acc.io_bytes + more.io_bytes
            &&& work.splits == acc.splits + more.splits
            &&& work.merges == acc.merges + more.merges
            &&& work.materialized == acc.materialized + more.materialized
            &&& work.squashed == acc.squashed + more.squashed
            &&& work.max_flush_depth >= depth
            &&& work.max_flush_depth >= acc.max_flush_depth
            &&& work.max_flush_depth >= more.max_flush_depth
            &&& work.max_flush_depth == depth || work.max_flush_depth == acc.max_flush_depth
                || work.max_flush_depth == more.max_flush_depth
        }),
{
}

/// Applying mutations to a leaf of a materialization counts as one flush at its
/// depth and materializes each of them.
pub proof fn law_applied_leaf_counts_as_a_flush(
    acc: WriteAcc,
    actions: Seq<MutationView>,
    depth: u32,
)
    requires
        acc.flushes < u64::MAX,
        acc.materialized + actions.len() <= u64::MAX,
    ensures
        ({
            let work = bulk::apply_work(acc, actions, depth);
            &&& work.flushes == acc.flushes + 1
            &&& work.materialized == acc.materialized + actions.len()
            &&& work.io_bytes == acc.io_bytes
            &&& work.splits == acc.splits
            &&& work.merges == acc.merges
            &&& work.squashed == acc.squashed
            &&& work.max_flush_depth >= depth
            &&& work.max_flush_depth >= acc.max_flush_depth
            &&& work.max_flush_depth == depth || work.max_flush_depth == acc.max_flush_depth
        }),
{
}

/// A node that took mutations in is dropped where it has no children left, stays
/// one node where it is within its limits, and is else split in pieces of half a
/// node's target, which counts as one split. What comes of it starts where the
/// node started.
pub proof fn law_node_stays_one_within_its_limits(
    known: StoreView,
    names: Names,
    child: ChildView,
    incoming: Seq<MutationView>,
    depth: u32,
    end: u64,
    config: FragmentMetadataTreeConfig,
    height: nat,
    down: spec_fn(StoreView, ChildView, Seq<MutationView>, u32, u64) -> Result<
        (StoreView, Seq<ChildView>, WriteAcc),
        Halt,
    >,
    middle: StoreView,
    kids: Seq<ChildView>,
    rest: Seq<MutationView>,
    acc: WriteAcc,
    after: StoreView,
    refs: Seq<ChildView>,
    work: WriteAcc,
)
    requires
        drain::node_settled(
            known,
            names,
            child,
            incoming,
            depth,
            end,
            config,
            height,
            down,
        ) == Ok::<(StoreView, Seq<ChildView>, Seq<MutationView>, WriteAcc), Halt>(
            (middle, kids, rest, acc),
        ),
        drain::node_ingested(
            known,
            names,
            child,
            incoming,
            depth,
            end,
            config,
            height,
            down,
        ) == Ok::<(StoreView, Seq<ChildView>, WriteAcc), Halt>((after, refs, work)),
        kids.len() <= u32::MAX,
        acc.splits < u64::MAX,
    ensures
        kids.len() == 0 ==> refs.len() == 0 && after == middle && work == acc,
        kids.len() > 0 && !policy_laws::over_limits(kids, rest, config) ==> {
            &&& refs.len() == 1
            &&& after.nodes.len() == middle.nodes.len() + 1
            &&& after.nodes.last().children == kids
            &&& after.nodes.last().buffer == rest
            &&& work.splits == acc.splits
        },
        kids.len() > 0 && policy_laws::over_limits(kids, rest, config) ==> {
            &&& refs.len() == split::cut(
                kids,
                rest,
                (config.max_node_bytes / 2) as u64,
                config.max_children_per_node,
            ).len()
            &&& work.splits == acc.splits + 1
        },
        work.flushes == acc.flushes,
        work.merges == acc.merges,
        work.materialized == acc.materialized,
        work.squashed == acc.squashed,
        refs.len() > 0 ==> refs[0].min_key == child.min_key,
        !(kids.len() == 1 && kids[0].height > 0 && kids[0].num_children == 1),
{
    reveal(drain::node_ingested);
    policy_laws::law_node_overflows_at_its_limits(kids, rest, config);
    if kids.len() > 0 && node::overflows(kids, rest, config) {
        let half = (config.max_node_bytes / 2) as u64;
        let most = config.max_children_per_node;
        let lists = merge::cut_children(kids, rest, half, most);
        let buffers = merge::cut_buffers(kids, rest, half, most);
        lemma_pieces(middle, names, lists, buffers, 0, Seq::empty(), 0);
    }
}

proof fn lemma_pieces(
    known: StoreView,
    names: Names,
    lists: Seq<Seq<ChildView>>,
    buffers: Seq<Seq<MutationView>>,
    i: int,
    refs: Seq<ChildView>,
    bytes: u64,
)
    requires
        0 <= i <= lists.len(),
        refs.len() == i,
    ensures
        merge::put_pieces(known, names, lists, buffers, i, refs, bytes) matches Ok(out)
            ==> out.1.len() == lists.len(),
    decreases lists.len() - i,
{
    reveal_with_fuel(merge::put_pieces, 2);
    if i < lists.len() {
        if let Ok((after, child, more)) = store::put_node(known, names, lists[i], buffers[i]) {
            lemma_pieces(
                after,
                names,
                lists,
                buffers,
                i + 1,
                refs.push(child),
                merge::summed(bytes, more),
            );
        }
    }
}

/// Two neighbours, one of which has a single child, become one node, which
/// counts as a merge, unless the joined node is over its limits and can be cut
/// in pieces just below them that have two children each.
pub proof fn law_lone_child_joins_its_neighbour(
    known: StoreView,
    names: Names,
    pair: Seq<ChildView>,
    config: FragmentMetadataTreeConfig,
    below: spec_fn(StoreView, Seq<ChildView>) -> Result<
        (StoreView, Seq<ChildView>, WriteAcc),
        Halt,
    >,
    middle: StoreView,
    kids: Seq<ChildView>,
    buffer: Seq<MutationView>,
    acc: WriteAcc,
    after: StoreView,
    refs: Seq<ChildView>,
    work: WriteAcc,
    cut: bool,
)
    requires
        config.max_node_bytes > 0,
        merge::joined_level(known, names, pair, below) == Ok::<
            (StoreView, Seq<ChildView>, Seq<MutationView>, WriteAcc),
            Halt,
        >((middle, kids, buffer, acc)),
        merge::rebalanced(known, names, pair, config, below) == Ok::<
            (StoreView, Seq<ChildView>, WriteAcc, bool),
            Halt,
        >((after, refs, work, cut)),
        kids.len() <= u32::MAX,
        acc.merges < u64::MAX,
    ensures
        cut ==> policy_laws::over_limits(kids, buffer, config),
        cut ==> refs.len() == split::cut(
            kids,
            buffer,
            (config.max_node_bytes - 1) as u64,
            config.max_children_per_node,
        ).len(),
        !policy_laws::over_limits(kids, buffer, config) ==> !cut,
        !cut ==> {
            &&& refs.len() == 1
            &&& after.nodes.len() == middle.nodes.len() + 1
            &&& after.nodes.last().children == kids
            &&& after.nodes.last().buffer == buffer
        },
        work.merges == acc.merges + if cut {
            0int
        } else {
            1
        },
        work.flushes == acc.flushes,
        work.splits == acc.splits,
        work.materialized == acc.materialized,
        work.squashed == acc.squashed,
{
    reveal(merge::rebalanced);
    policy_laws::law_node_overflows_at_its_limits(kids, buffer, config);
    let budget = (config.max_node_bytes - 1) as u64;
    let most = config.max_children_per_node;
    lemma_pieces(
        middle,
        names,
        merge::cut_children(kids, buffer, budget, most),
        merge::cut_buffers(kids, buffer, budget, most),
        0,
        Seq::empty(),
        0,
    );
}

/// A group of a new tree's records ends with the record that brings their
/// messages to a leaf's target, or with the last one.
pub proof fn law_group_ends_at_the_leaf_target(
    fragments: Seq<FragmentView>,
    start: int,
    end: int,
    max_leaf_bytes: u64,
    k: int,
)
    requires
        0 <= start <= end <= fragments.len(),
        max_leaf_bytes < u64::MAX,
    ensures
        ({
            let stop = store::group_end(fragments, start, end, max_leaf_bytes);
            &&& end <= stop <= fragments.len()
            &&& stop < fragments.len() ==> node::fragments_len(fragments.subrange(start, stop))
                >= max_leaf_bytes
            &&& end <= k < stop ==> node::fragments_len(fragments.subrange(start, k))
                < max_leaf_bytes
        }),
    decreases fragments.len() - end,
{
    if end < fragments.len() {
        law_group_ends_at_the_leaf_target(fragments, start, end + 1, max_leaf_bytes, k);
    }
}

/// Neighbouring parts of a new tree's records become one leaf exactly where
/// their leaves together and the joined leaf are within a leaf's target, and
/// their messages within three times as much.
pub proof fn law_parts_join_within_the_leaf_target(
    known: StoreView,
    fragments: Seq<FragmentView>,
    a: (int, int),
    b: (int, int),
    max_leaf_bytes: u64,
)
    requires
        max_leaf_bytes * 3 < u64::MAX,
    ensures
        store::joins(known, fragments, a, b, max_leaf_bytes) == {
            &&& known.size_of(fragments.subrange(a.0, a.1)) matches Some(x) && known.size_of(
                fragments.subrange(b.0, b.1),
            ) matches Some(y) && x + y <= max_leaf_bytes
            &&& known.size_of(fragments.subrange(a.0, b.1)) matches Some(z) && z <= max_leaf_bytes
            &&& node::fragments_len(fragments.subrange(a.0, b.1)) <= 3 * max_leaf_bytes
        },
{
}

/// A leaf that several leaves are joined in is marked with the lowest of their
/// marks, so that no mutation which one of them lacks is passed over.
pub proof fn law_joined_leaf_takes_the_lowest_mark(group: Seq<ChildView>)
    requires
        group.len() > 0,
    ensures
        forall|i: int|
            0 <= i < group.len() ==> steps::lowest_mark(group) <= (
            #[trigger] group[i]).materialized_through_action_sequence,
        exists|i: int|
            0 <= i < group.len() && steps::lowest_mark(group) == (
            #[trigger] group[i]).materialized_through_action_sequence,
    decreases group.len(),
{
    let n = group.len() - 1;
    assert(group[n] == group.last());
    if n > 0 {
        let rest = group.drop_last();
        law_joined_leaf_takes_the_lowest_mark(rest);
        let k = choose|k: int|
            0 <= k < rest.len() && steps::lowest_mark(rest) == (
            #[trigger] rest[k]).materialized_through_action_sequence;
        assert(group[k] == rest[k]);
        assert forall|i: int| 0 <= i < group.len() implies steps::lowest_mark(group) <= (
        #[trigger] group[i]).materialized_through_action_sequence by {
            if i < n {
                assert(group[i] == rest[i]);
            }
        }
    } else {
        assert(group[0].materialized_through_action_sequence == steps::lowest_mark(group));
    }
}

proof fn lemma_merges_grow(
    known: StoreView,
    names: Names,
    children: Seq<ChildView>,
    config: FragmentMetadataTreeConfig,
    leaf: bool,
    below: spec_fn(StoreView, Seq<ChildView>) -> Result<
        (StoreView, Seq<ChildView>, WriteAcc),
        Halt,
    >,
    i: int,
    out: Seq<ChildView>,
    acc: WriteAcc,
)
    ensures
        merge::runs_coalesced(known, names, children, config, leaf, below, i, out, acc) matches Ok(
            r,
        ) ==> r.2.merges >= acc.merges,
    decreases children.len() - i,
{
    reveal_with_fuel(merge::runs_coalesced, 2);
    let end = merge::run_end(children, config, i);
    if i >= children.len() || end <= i || end > children.len() {
    } else if end == i + 1 {
        lemma_merges_grow(
            known,
            names,
            children,
            config,
            leaf,
            below,
            end,
            out + children.subrange(i, end),
            acc,
        );
    } else if let Ok((after, joined, more)) = merge::coalesced(
        known,
        names,
        children.subrange(i, end),
        config,
        leaf,
        below,
    ) {
        let work = acc.with(more);
        lemma_merges_grow(
            after,
            names,
            children,
            config,
            leaf,
            below,
            end,
            out + node::fenced(joined, children[i].min_key),
            WriteAcc { merges: merge::summed(work.merges, 1), ..work },
        );
    }
}

/// Joining a group of more than one child counts as a merge.
pub proof fn law_joined_group_counts_as_a_merge(
    known: StoreView,
    names: Names,
    children: Seq<ChildView>,
    config: FragmentMetadataTreeConfig,
    leaf: bool,
    below: spec_fn(StoreView, Seq<ChildView>) -> Result<
        (StoreView, Seq<ChildView>, WriteAcc),
        Halt,
    >,
    i: int,
    out: Seq<ChildView>,
    acc: WriteAcc,
)
    requires
        0 <= i,
        i + 1 < merge::run_end(children, config, i) <= children.len(),
        merge::runs_coalesced(known, names, children, config, leaf, below, i, out, acc) is Ok,
    ensures
        ({
            let work = merge::runs_coalesced(
                known,
                names,
                children,
                config,
                leaf,
                below,
                i,
                out,
                acc,
            )->Ok_0.2;
            work.merges > acc.merges || work.merges == u64::MAX
        }),
{
    reveal_with_fuel(merge::runs_coalesced, 2);
    let end = merge::run_end(children, config, i);
    let (after, joined, more) = merge::coalesced(
        known,
        names,
        children.subrange(i, end),
        config,
        leaf,
        below,
    )->Ok_0;
    let work = acc.with(more);
    lemma_merges_grow(
        after,
        names,
        children,
        config,
        leaf,
        below,
        end,
        out + node::fenced(joined, children[i].min_key),
        WriteAcc { merges: merge::summed(work.merges, 1), ..work },
    );
}

/// What a node that takes mutations in drops of them counts as squashed.
pub proof fn law_dropped_mutations_count_as_squashed(
    known: StoreView,
    names: Names,
    child: ChildView,
    incoming: Seq<MutationView>,
    depth: u32,
    end: u64,
    config: FragmentMetadataTreeConfig,
    height: nat,
    down: spec_fn(StoreView, ChildView, Seq<MutationView>, u32, u64) -> Result<
        (StoreView, Seq<ChildView>, WriteAcc),
        Halt,
    >,
    children: Seq<ChildView>,
    buffer: Seq<MutationView>,
    middle: StoreView,
    kids: Seq<ChildView>,
    rest: Seq<MutationView>,
    acc: WriteAcc,
)
    requires
        merge::opened(known, child) == Ok::<(Seq<ChildView>, Seq<MutationView>), Halt>(
            (children, buffer),
        ),
        drain::node_settled(
            known,
            names,
            child,
            incoming,
            depth,
            end,
            config,
            height,
            down,
        ) == Ok::<(StoreView, Seq<ChildView>, Seq<MutationView>, WriteAcc), Halt>(
            (middle, kids, rest, acc),
        ),
        buffer.len() + incoming.len() <= u64::MAX,
    ensures
        acc.squashed + squash::normal(buffer + incoming).len() >= buffer.len() + incoming.len()
            || acc.squashed == u64::MAX,
{
    reveal(drain::node_settled);
}

/// The leaves of a materialization that are written anew count their bytes, and
/// a split for each beyond the first.
pub proof fn law_rewritten_leaves_count_their_splits(
    p: bulk::Progress,
    names: Names,
    records: Seq<FragmentView>,
    config: FragmentMetadataTreeConfig,
    q: bulk::Progress,
)
    requires
        bulk::pending_written(p, names, records, config) == Ok::<bulk::Progress, Halt>(q),
        0 <= p.from <= p.next <= p.level.len(),
        records.len() > 0,
        p.acc.splits + q.level.len() <= u64::MAX,
        q.level.len() + p.next >= p.level.len() + p.from + 1,
    ensures
        q.acc.splits + 1 == p.acc.splits + q.level.len() + p.next - p.level.len() - p.from,
        q.acc.flushes == p.acc.flushes,
        q.acc.merges == p.acc.merges,
        q.acc.materialized == p.acc.materialized,
        q.pending is None,
        q.from == q.next,
        q.level.take(p.from) == p.level.take(p.from),
        q.level.skip(q.next) == p.level.skip(p.next),
{
    let refs = store::put_leaves(p.store, names, records, drain::ceiling(p.store), config)->Ok_0.1;
    assert(q.level.len() == p.from + refs.len() + p.level.len() - p.next);
    assert(q.level.take(p.from) =~= p.level.take(p.from));
    assert(q.level.skip(q.next) =~= p.level.skip(p.next));
}

proof fn lemma_selected_depth(
    known: StoreView,
    children: Seq<ChildView>,
    held: Seq<Seq<MutationView>>,
    chosen: Seq<int>,
    ends: Seq<u64>,
    depth: u32,
    down: spec_fn(StoreView, ChildView, Seq<MutationView>, u32, u64) -> Result<
        (StoreView, Seq<ChildView>, WriteAcc),
        Halt,
    >,
    at: int,
    acc: WriteAcc,
)
    ensures
        drain::selected_drained(
            known,
            children,
            held,
            chosen,
            ends,
            depth,
            down,
            at,
            acc,
        ) matches Ok(r) ==> {
            &&& r.3.max_flush_depth >= acc.max_flush_depth
            &&& r.3.flushes >= acc.flushes
            &&& (exists|k: int| 0 <= k < at && #[trigger] chosen.contains(k))
                ==> r.3.max_flush_depth >= depth && r.3.flushes > 0
        },
    decreases at,
{
    reveal_with_fuel(drain::selected_drained, 2);
    if at > 0 {
        if chosen.contains(at - 1) {
            if let Ok((after, refs, more)) = down(
                known,
                children[at - 1],
                held[at - 1],
                depth,
                ends[at - 1],
            ) {
                lemma_selected_depth(
                    after,
                    children.take(at - 1) + refs + children.skip(at),
                    drain::drained(held, at - 1, refs.len()),
                    chosen,
                    ends,
                    depth,
                    down,
                    at - 1,
                    drain::drain_work(acc, more, depth),
                );
            }
        } else {
            lemma_selected_depth(
                known,
                children,
                held,
                chosen,
                ends,
                depth,
                down,
                at - 1,
                acc,
            );
            if exists|k: int| 0 <= k < at && #[trigger] chosen.contains(k) {
                let k = choose|k: int| 0 <= k < at && #[trigger] chosen.contains(k);
                assert(0 <= k < at - 1);
            }
        }
    }
}

proof fn lemma_drained_depth(
    known: StoreView,
    children: Seq<ChildView>,
    held: Seq<Seq<MutationView>>,
    depth: u32,
    end: u64,
    config: FragmentMetadataTreeConfig,
    down: spec_fn(StoreView, ChildView, Seq<MutationView>, u32, u64) -> Result<
        (StoreView, Seq<ChildView>, WriteAcc),
        Halt,
    >,
    acc: WriteAcc,
)
    ensures
        drain::drained_through(known, children, held, depth, end, config, down, acc) matches Ok(r)
            ==> {
            &&& r.3.max_flush_depth >= acc.max_flush_depth
            &&& r.3.flushes >= acc.flushes
            &&& held.len() == children.len() && !drain::settled(
                children,
                held,
                config,
                known.io_parallelism,
            ) ==> r.3.max_flush_depth >= depth && r.3.flushes > 0
        },
    decreases flush::held_count(held),
{
    reveal_with_fuel(drain::drained_through, 2);
    let bytes = wire::capped(flush::held_len(held));
    let pressure = drain::urgency(children, bytes, drain::any_bucket_retires(held), config);
    let chosen = flush::selection(children, held, config, known.io_parallelism, pressure->0);
    if !(children.len() == 0 || pressure is None || chosen.len() == 0) {
        let ends = drain::child_ends(children, end);
        let n = children.len() as int;
        lemma_selected_depth(
            known,
            children,
            held,
            chosen,
            ends,
            depth,
            down,
            n,
            WriteAcc::nothing(),
        );
        flush::law_selection_is_worthwhile(
            children,
            held,
            config,
            known.io_parallelism,
            pressure->0,
        );
        if held.len() == children.len() {
            assert(0 <= chosen[0] < held.len());
            assert(chosen.contains(chosen[0]));
        }
        if let Ok((after, kids, left, more)) = drain::selected_drained(
            known,
            children,
            held,
            chosen,
            ends,
            depth,
            down,
            n,
            WriteAcc::nothing(),
        ) {
            if flush::held_count(left) < flush::held_count(held) {
                lemma_drained_depth(after, kids, left, depth, end, config, down, acc.with(more));
            }
        }
    }
}

/// A node that drains a child reports a flush, and a depth of at least one more
/// than its own.
pub proof fn law_deeper_flush_is_counted_deeper(
    known: StoreView,
    names: Names,
    child: ChildView,
    incoming: Seq<MutationView>,
    depth: u32,
    end: u64,
    config: FragmentMetadataTreeConfig,
    height: nat,
    down: spec_fn(StoreView, ChildView, Seq<MutationView>, u32, u64) -> Result<
        (StoreView, Seq<ChildView>, WriteAcc),
        Halt,
    >,
    children: Seq<ChildView>,
    buffer: Seq<MutationView>,
    middle: StoreView,
    kids: Seq<ChildView>,
    rest: Seq<MutationView>,
    acc: WriteAcc,
)
    requires
        depth < u32::MAX,
        merge::opened(known, child) == Ok::<(Seq<ChildView>, Seq<MutationView>), Halt>(
            (children, buffer),
        ),
        drain::node_settled(
            known,
            names,
            child,
            incoming,
            depth,
            end,
            config,
            height,
            down,
        ) == Ok::<(StoreView, Seq<ChildView>, Seq<MutationView>, WriteAcc), Halt>(
            (middle, kids, rest, acc),
        ),
        !drain::calm(children, squash::normal(buffer + incoming), config),
        !drain::settled(
            children,
            split::buckets(children, squash::normal(buffer + incoming)),
            config,
            known.io_parallelism,
        ),
    ensures
        acc.max_flush_depth >= depth + 1,
        acc.flushes > 0,
{
    reveal(drain::node_settled);
    reveal(drain::level_flushed);
    let normal = squash::normal(buffer + incoming);
    lemma_drained_depth(
        known,
        children,
        split::buckets(children, normal),
        (depth + 1) as u32,
        end,
        config,
        down,
        WriteAcc::nothing(),
    );
}

} // verus!
