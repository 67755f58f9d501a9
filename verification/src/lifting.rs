//! Moving what a level holds between the levels above and below it.

use vstd::prelude::*;

use crate::error::Error;
use crate::levels;
use crate::node;
use crate::order;
use crate::pb::{ChildView, MutationView};
use crate::record::FragmentView;
use crate::replay_laws;
use crate::split;
use crate::squash;
use crate::squash_laws;
use crate::world;
use crate::world::World;

verus! {

/// The children one piece of a cut takes.
pub open spec fn piece(children: Seq<ChildView>, cut: Seq<int>, j: int) -> Seq<ChildView> {
    children.subrange(split::taken(cut, j), split::taken(cut, j + 1))
}

/// Whether a cut takes every child, at least one a piece.
pub open spec fn whole(children: Seq<ChildView>, cut: Seq<int>) -> bool {
    &&& split::taken(cut, cut.len() as int) == children.len()
    &&& forall|i: int| 0 <= i < cut.len() ==> 1 <= #[trigger] cut[i]
    &&& cut.len() > 0
}

/// Whether a key is routed into a piece.
pub open spec fn in_piece(children: Seq<ChildView>, cut: Seq<int>, j: int, key: u64) -> bool {
    split::taken(cut, j) <= node::route(children, key) < split::taken(cut, j + 1)
}

/// Whether each piece of a buffer holds the mutations its children own.
pub open spec fn dealt(
    children: Seq<ChildView>,
    buffer: Seq<MutationView>,
    cut: Seq<int>,
    buffers: Seq<Seq<MutationView>>,
) -> bool {
    &&& buffers.len() == cut.len()
    &&& forall|j: int, key: u64|
        #![trigger buffers[j], node::route(children, key)]
        0 <= j < cut.len() && in_piece(children, cut, j, key) ==> world::same_run(
            buffers[j],
            buffer,
            key,
        )
    &&& forall|j: int, key: u64|
        0 <= j < cut.len() && !in_piece(children, cut, j, key) ==> #[trigger] order::of_key(
            buffers[j],
            key,
        ) == Seq::<MutationView>::empty()
}

pub proof fn lemma_piece(children: Seq<ChildView>, cut: Seq<int>, j: int)
    requires
        whole(children, cut),
        0 <= j < cut.len(),
    ensures
        0 <= split::taken(cut, j) < split::taken(cut, j + 1) <= children.len(),
        split::taken(cut, j + 1) == children.len() <==> j + 1 == cut.len(),
        split::taken(cut, j) == 0 <==> j == 0,
        piece(children, cut, j).len() > 0,
        piece(children, cut, j)[0] == children[split::taken(cut, j)],
        children == children.take(split::taken(cut, j)) + piece(children, cut, j)
            + children.skip(split::taken(cut, j + 1)),
{
    split::lemma_taken_monotone(cut, j, j + 1);
    split::lemma_taken_monotone(cut, j + 1, cut.len() as int);
    let a = split::taken(cut, j);
    let b = split::taken(cut, j + 1);
    assert(children =~= children.take(a) + children.subrange(a, b) + children.skip(b));
}

/// Which piece a key is routed into.
proof fn lemma_which_piece(children: Seq<ChildView>, cut: Seq<int>, key: u64) -> (j: int)
    requires
        whole(children, cut),
    ensures
        0 <= j < cut.len(),
        in_piece(children, cut, j, key),
{
    node::lemma_route(children, key);
    split::lemma_taken_monotone(cut, 0, cut.len() as int);
    lemma_find_piece(cut, node::route(children, key), cut.len() as int)
}

proof fn lemma_find_piece(cut: Seq<int>, at: int, n: int) -> (j: int)
    requires
        0 <= n <= cut.len(),
        0 <= at < split::taken(cut, n),
    ensures
        0 <= j < n,
        split::taken(cut, j) <= at < split::taken(cut, j + 1),
    decreases n,
{
    if split::taken(cut, n - 1) <= at {
        n - 1
    } else {
        lemma_find_piece(cut, at, n - 1)
    }
}

/// What one piece of a level holds.
proof fn lemma_piece_holds(
    w: World,
    children: Seq<ChildView>,
    buffer: Seq<MutationView>,
    cut: Seq<int>,
    buffers: Seq<Seq<MutationView>>,
    j: int,
)
    requires
        world::sound(w, children, buffer),
        whole(children, cut),
        dealt(children, buffer, cut, buffers),
        0 <= j < cut.len(),
    ensures
        world::sound(w, piece(children, cut, j), buffers[j]),
        forall|key: u64|
            #![trigger world::cell(w, piece(children, cut, j), buffers[j], key)]
            in_piece(children, cut, j, key) ==> world::cell(
                w,
                piece(children, cut, j),
                buffers[j],
                key,
            ) == world::cell(w, children, buffer, key) && world::frontier(
                w,
                piece(children, cut, j),
                buffers[j],
                key,
            ) == world::frontier(w, children, buffer, key) && world::mark_at(
                w,
                piece(children, cut, j),
                key,
            ) == world::mark_at(w, children, key),
        forall|key: u64|
            #![trigger world::cell(w, piece(children, cut, j), buffers[j], key)]
            !in_piece(children, cut, j, key) ==> world::cell(
                w,
                piece(children, cut, j),
                buffers[j],
                key,
            ) == Ok::<Option<FragmentView>, Error>(None) && world::frontier(
                w,
                piece(children, cut, j),
                buffers[j],
                key,
            ) == 0,
        world::reach_over(w, piece(children, cut, j)) <= world::reach_over(w, children),
        j + 1 < cut.len() ==> world::reach_over(w, piece(children, cut, j))
            < children[split::taken(cut, j + 1)].min_key,
        forall|bound: nat| #[trigger]
            world::capped(w, children, bound) ==> world::capped(
                w,
                piece(children, cut, j),
                bound,
            ),
{
    lemma_piece(children, cut, j);
    let a = split::taken(cut, j);
    let b = split::taken(cut, j + 1);
    let x = children.take(a);
    let s = piece(children, cut, j);
    let y = children.skip(b);
    let p = buffers[j];
    levels::lemma_middle(w, x, s, y);
    if j + 1 < cut.len() {
        assert(y[0] == children[b]);
    }
    assert forall|key: u64| #![trigger levels::inside(x, s, y, key)]
        levels::inside(x, s, y, key) == in_piece(children, cut, j, key) by {}
    assert forall|key: u64|
        #![trigger world::cell(w, s, p, key)]
        in_piece(children, cut, j, key) implies world::cell(w, s, p, key) == world::cell(
        w,
        children,
        buffer,
        key,
    ) && world::frontier(w, s, p, key) == world::frontier(w, children, buffer, key)
        && world::mark_at(w, s, key) == world::mark_at(w, children, key) by {
        let c = world::base_at(w, s, key);
        assert(levels::inside(x, s, y, key));
        node::lemma_route(children, key);
        assert(world::same_run(buffers[j], buffer, key));
        world::lemma_same_run_latest(p, buffer, key);
    }
    assert forall|key: u64|
        #![trigger world::cell(w, s, p, key)]
        !in_piece(children, cut, j, key) implies world::cell(w, s, p, key) == Ok::<
        Option<FragmentView>,
        Error,
    >(None) && world::frontier(w, s, p, key) == 0 by {
        let c = world::base_at(w, s, key);
        assert(!levels::inside(x, s, y, key));
        assert(order::of_key(buffers[j], key) == Seq::<MutationView>::empty());
        levels::lemma_empty_run(p, key);
    }
    assert(world::apart(p)) by {
        assert forall|key: u64| order::distinct(#[trigger] order::of_key(p, key)) by {
            if in_piece(children, cut, j, key) {
                node::lemma_route(children, key);
                assert(world::same_run(buffers[j], buffer, key));
                assert(order::distinct(order::of_key(buffer, key)));
            } else {
                assert(order::of_key(buffers[j], key) == Seq::<MutationView>::empty());
            }
        }
    }
    assert(world::fresh(w, s, p)) by {
        assert forall|i: int| 0 <= i < p.len() implies world::newest_at(
            w,
            s,
            (#[trigger] p[i]).key(),
        ) <= p[i].action_sequence && world::mark_at(w, s, p[i].key()) < p[i].action_sequence by {
            let key = p[i].key();
            assert(p.contains(p[i]));
            order::lemma_of_key_contains(p, key, p[i]);
            if !in_piece(children, cut, j, key) {
                assert(order::of_key(buffers[j], key) == Seq::<MutationView>::empty());
                assert(false);
            }
            node::lemma_route(children, key);
            assert(world::same_run(buffers[j], buffer, key));
            order::lemma_of_key_contains(buffer, key, p[i]);
            let k = choose|k: int| 0 <= k < buffer.len() && buffer[k] == p[i];
            let c = world::base_at(w, s, key);
            assert(levels::inside(x, s, y, key));
            assert(world::newest_at(w, children, buffer[k].key()) <= buffer[k].action_sequence);
        }
    }
    assert forall|key: u64| world::good(#[trigger] world::cell(w, s, p, key), key) by {
        assert(world::good(world::cell(w, children, buffer, key), key));
        if !in_piece(children, cut, j, key) {
        }
    }
    assert forall|bound: nat| #[trigger] world::capped(w, children, bound) implies world::capped(
        w,
        s,
        bound,
    ) by {
        assert forall|i: int| 0 <= i < s.len() implies w.peak_of(#[trigger] s[i]) <= bound by {
            assert(s[i] == children[a + i]);
        }
    }
}

/// Writing the pieces of a level as nodes makes a level above it that holds
/// the same.
pub proof fn lemma_lift(
    w: World,
    children: Seq<ChildView>,
    buffer: Seq<MutationView>,
    cut: Seq<int>,
    buffers: Seq<Seq<MutationView>>,
    refs: Seq<ChildView>,
)
    requires
        world::sound(w, children, buffer),
        whole(children, cut),
        dealt(children, buffer, cut, buffers),
        refs.len() == cut.len(),
        forall|j: int|
            0 <= j < cut.len() ==> (#[trigger] refs[j]).height == children[0].height + 1
                && refs[j].min_key == children[split::taken(cut, j)].min_key && world::node_agrees(
                w,
                refs[j].loc(),
                piece(children, cut, j),
                buffers[j],
            ),
    ensures
        forall|j: int|
            0 <= j < cut.len() ==> world::sound(w, piece(children, cut, j), #[trigger] buffers[j]),
        world::refines(w, children, buffer, refs, levels::no_mutations(), -1),
{
    assert forall|j: int| 0 <= j < cut.len() implies world::sound(
        w,
        piece(children, cut, j),
        #[trigger] buffers[j],
    ) by {
        lemma_piece_holds(w, children, buffer, cut, buffers, j);
    }
    // Fences.
    assert forall|i: int, j: int| 0 <= i < j < refs.len() implies (#[trigger] refs[i]).min_key < (
    #[trigger] refs[j]).min_key && w.reach_of(refs[i]) < refs[j].min_key by {
        lemma_piece(children, cut, i);
        lemma_piece(children, cut, j);
        split::lemma_taken_monotone(cut, i + 1, j);
        lemma_piece_holds(w, children, buffer, cut, buffers, i);
        let a = split::taken(cut, i + 1);
        let b = split::taken(cut, j);
        if a < b {
            assert(children[a].min_key < children[b].min_key);
        }
    }
    assert(world::fences(refs));
    // Each key finds its piece.
    assert forall|key: u64|
        #![trigger world::base_at(w, refs, key)]
        world::cell(w, children, buffer, key) == Ok::<Option<FragmentView>, Error>(
            world::base_at(w, refs, key),
        ) && world::newest_at(w, refs, key) == world::frontier(w, children, buffer, key)
            && world::mark_at(w, refs, key) == world::mark_at(w, children, key) by {
        let j = lemma_lifted_route(children, cut, refs, key);
        lemma_piece_holds(w, children, buffer, cut, buffers, j);
        let s = piece(children, cut, j);
        let c = world::cell(w, s, buffers[j], key);
        assert(world::good(world::cell(w, children, buffer, key), key));
        assert((w.record)(refs[j].loc(), key) == c->Ok_0);
        assert((w.newest)(refs[j].loc(), key) == world::frontier(w, s, buffers[j], key));
        assert((w.mark)(refs[j].loc(), key) == world::mark_at(w, s, key));
    }
    assert(world::sane(w, refs)) by {
        assert forall|i: int, key: u64|
            0 <= i < refs.len() && node::route(refs, key) != i implies #[trigger] w.rec(
            refs[i],
            key,
        ) is None && w.newest_of(refs[i], key) == 0 by {
            let j = lemma_lifted_route(children, cut, refs, key);
            lemma_piece_holds(w, children, buffer, cut, buffers, i);
            let s = piece(children, cut, i);
            if in_piece(children, cut, i, key) {
                if i < j {
                    split::lemma_taken_monotone(cut, i + 1, j);
                } else {
                    split::lemma_taken_monotone(cut, j + 1, i);
                }
                assert(false);
            }
            let c = world::cell(w, s, buffers[i], key);
            assert((w.record)(refs[i].loc(), key) == c->Ok_0);
            assert((w.newest)(refs[i].loc(), key) == world::frontier(w, s, buffers[i], key));
        }
        assert forall|i: int, key: u64| 0 <= i < refs.len() implies world::proper(
            #[trigger] w.rec(refs[i], key),
            key,
        ) by {
            if node::route(refs, key) == i {
                assert(world::good(world::cell(w, children, buffer, key), key));
                let b = world::base_at(w, refs, key);
            } else {
                assert(w.rec(refs[i], key) is None);
            }
        }
        assert(refs[0].height == children[0].height + 1);
    }
    levels::lemma_bare_sound(w, refs);
    let none = levels::no_mutations();
    assert forall|key: u64| #[trigger]
        world::cell(w, refs, none, key) == world::cell(w, children, buffer, key) by {
        levels::lemma_bare_cell(w, refs, key);
        let b = world::base_at(w, refs, key);
    }
    assert forall|key: u64| #[trigger]
        world::frontier(w, refs, none, key) <= world::frontier(w, children, buffer, key) by {
        levels::lemma_bare_cell(w, refs, key);
        let b = world::base_at(w, refs, key);
    }
    assert forall|key: u64| #[trigger] world::mark_at(w, refs, key) <= world::mark_at(
        w,
        children,
        key,
    ) by {
        let b = world::base_at(w, refs, key);
    }
    assert forall|bound: nat| #[trigger] world::capped(w, children, bound) implies world::capped(
        w,
        refs,
        bound,
    ) by {
        assert forall|i: int| 0 <= i < refs.len() implies w.peak_of(#[trigger] refs[i])
            <= bound by {
            lemma_piece_holds(w, children, buffer, cut, buffers, i);
            assert(world::capped(w, piece(children, cut, i), bound));
        }
    }
    assert forall|end: nat| #[trigger] world::bounded(w, children, buffer, end) implies
        world::bounded(w, refs, none, end) by {
        assert forall|i: int| 0 <= i < refs.len() implies (#[trigger] refs[i]).min_key < end
            && w.reach_of(refs[i]) < end by {
            lemma_piece(children, cut, i);
            lemma_piece_holds(w, children, buffer, cut, buffers, i);
            world::lemma_reach_over(w, children);
            assert(children[split::taken(cut, i)].min_key <= world::reach_over(w, children));
        }
        world::lemma_reach_below(w, refs, end);
        assert forall|key: u64| key >= end implies #[trigger] world::cell(w, refs, none, key)
            == Ok::<Option<FragmentView>, Error>(None) && world::frontier(w, refs, none, key)
            == 0 by {
            assert(world::cell(w, children, buffer, key) == Ok::<Option<FragmentView>, Error>(
                None,
            ));
            assert(world::frontier(w, refs, none, key) <= world::frontier(
                w,
                children,
                buffer,
                key,
            ));
        }
    }
}

proof fn lemma_lifted_route(
    children: Seq<ChildView>,
    cut: Seq<int>,
    refs: Seq<ChildView>,
    key: u64,
) -> (j: int)
    requires
        world::fences(children),
        world::fences(refs),
        whole(children, cut),
        refs.len() == cut.len(),
        forall|j: int|
            0 <= j < cut.len() ==> (#[trigger] refs[j]).min_key == children[split::taken(
                cut,
                j,
            )].min_key,
    ensures
        0 <= j < cut.len(),
        in_piece(children, cut, j, key),
        node::route(refs, key) == j,
{
    let j = lemma_which_piece(children, cut, key);
    lemma_piece(children, cut, j);
    node::lemma_route(children, key);
    let r = node::route(children, key);
    let a = split::taken(cut, j);
    assert(refs[j].min_key == children[a].min_key);
    if j > 0 && a < r {
        assert(children[a].min_key < children[r].min_key);
    }
    if j + 1 < cut.len() {
        lemma_piece(children, cut, j + 1);
        assert(refs[j + 1].min_key == children[split::taken(cut, j + 1)].min_key);
    }
    world::lemma_route_is(refs, key, j);
    j
}

/// What a reference to a node stands for.
pub open spec fn denotes(
    w: World,
    child: ChildView,
    children: Seq<ChildView>,
    buffer: Seq<MutationView>,
) -> bool {
    &&& world::node_agrees(w, child.loc(), children, buffer)
    &&& world::sound(w, children, buffer)
    &&& children.len() > 0
    &&& children[0].min_key == child.min_key
    &&& child.height == children[0].height + 1
}

/// Whether a level holds what a list of nodes holds, one level down.
pub open spec fn unfolds(
    w: World,
    group: Seq<ChildView>,
    children: Seq<ChildView>,
    buffer: Seq<MutationView>,
) -> bool {
    &&& world::sound(w, children, buffer)
    &&& group.len() > 0
    &&& children.len() > 0
    &&& children[0].min_key == group[0].min_key
    &&& group[0].height == children[0].height + 1
    &&& forall|key: u64| #[trigger]
        world::cell(w, children, buffer, key) == Ok::<Option<FragmentView>, Error>(
            world::base_at(w, group, key),
        )
    &&& forall|key: u64| #[trigger]
        world::frontier(w, children, buffer, key) == world::newest_at(w, group, key)
    &&& forall|key: u64| #[trigger]
        world::mark_at(w, children, key) == world::mark_at(w, group, key)
    &&& world::reach_over(w, children) <= world::reach_over(w, group)
    &&& forall|bound: nat| #[trigger]
        world::capped(w, group, bound) ==> world::capped(w, children, bound)
}

/// One node stands for its children and its buffer.
pub proof fn lemma_unfold_one(
    w: World,
    c: ChildView,
    children: Seq<ChildView>,
    buffer: Seq<MutationView>,
)
    requires
        denotes(w, c, children, buffer),
    ensures
        unfolds(w, seq![c], children, buffer),
{
    let group = seq![c];
    assert forall|key: u64|
        #![trigger world::base_at(w, group, key)]
        world::base_at(w, group, key) == w.rec(c, key) by {
        node::lemma_route(group, key);
    }
    assert forall|key: u64| #[trigger]
        world::cell(w, children, buffer, key) == Ok::<Option<FragmentView>, Error>(
            world::base_at(w, group, key),
        ) by {
        assert(world::good(world::cell(w, children, buffer, key), key));
        node::lemma_route(group, key);
        assert((w.record)(c.loc(), key) == world::cell(w, children, buffer, key)->Ok_0);
    }
    assert forall|key: u64| #[trigger]
        world::frontier(w, children, buffer, key) == world::newest_at(w, group, key) by {
        node::lemma_route(group, key);
        assert((w.newest)(c.loc(), key) == world::frontier(w, children, buffer, key));
    }
    assert forall|key: u64| #[trigger]
        world::mark_at(w, children, key) == world::mark_at(w, group, key) by {
        node::lemma_route(group, key);
        assert((w.mark)(c.loc(), key) == world::mark_at(w, children, key));
    }
    world::lemma_reach_over(w, group);
    assert(group[0] == c);
    assert forall|bound: nat| #[trigger] world::capped(w, group, bound) implies world::capped(
        w,
        children,
        bound,
    ) by {
        assert(w.peak_of(group[0]) <= bound);
        assert(world::capped(w, children, bound) == ((w.peak)(c.loc()) <= bound));
    }
}

/// Where a key goes among the children of two neighbours.
proof fn lemma_joined_route(a: Seq<ChildView>, b: Seq<ChildView>, key: u64)
    requires
        world::fences(a + b),
        a.len() > 0,
        b.len() > 0,
    ensures
        b[0].min_key <= key ==> node::route(a + b, key) == a.len() + node::route(b, key),
        key < b[0].min_key ==> node::route(a + b, key) == node::route(a, key),
        0 <= node::route(a, key) < a.len(),
        0 <= node::route(b, key) < b.len(),
{
    let all = a + b;
    let n = a.len() as int;
    node::lemma_route(a, key);
    node::lemma_route(b, key);
    assert(all[n] == b[0]);
    if b[0].min_key <= key {
        let r = node::route(b, key);
        assert(all[n + r] == b[r]);
        if r + 1 < b.len() {
            assert(all[n + r + 1] == b[r + 1]);
        }
        world::lemma_route_is(all, key, n + r);
    } else {
        let r = node::route(a, key);
        assert(all[r] == a[r]);
        if r + 1 < n {
            assert(all[r + 1] == a[r + 1]);
        }
        world::lemma_route_is(all, key, r);
    }
}

pub proof fn lemma_of_key_add(a: Seq<MutationView>, b: Seq<MutationView>, key: u64)
    ensures
        order::of_key(a + b, key) == order::of_key(a, key) + order::of_key(b, key),
{
    Seq::filter_distributes_over_add(a, b, |m: MutationView| m.key() == key);
}

/// The children of two neighbouring parts of a list, side by side.
proof fn lemma_joined_sane(
    w: World,
    group: Seq<ChildView>,
    c: ChildView,
    a: Seq<ChildView>,
    p: Seq<MutationView>,
    b: Seq<ChildView>,
    q: Seq<MutationView>,
)
    requires
        world::sane(w, group + seq![c]),
        unfolds(w, group, a, p),
        denotes(w, c, b, q),
    ensures
        world::sane(w, a + b),
        world::reach_over(w, a) < c.min_key,
        forall|key: u64|
            #![trigger world::base_at(w, group + seq![c], key)]
            c.min_key <= key ==> {
                &&& world::base_at(w, group + seq![c], key) == w.rec(c, key)
                &&& world::newest_at(w, group + seq![c], key) == w.newest_of(c, key)
                &&& world::mark_at(w, group + seq![c], key) == w.mark_of(c, key)
                &&& order::of_key(p, key) == Seq::<MutationView>::empty()
            },
        forall|key: u64|
            #![trigger world::base_at(w, group + seq![c], key)]
            key < c.min_key ==> {
                &&& world::base_at(w, group + seq![c], key) == world::base_at(w, group, key)
                &&& world::newest_at(w, group + seq![c], key) == world::newest_at(w, group, key)
                &&& world::mark_at(w, group + seq![c], key) == world::mark_at(w, group, key)
                &&& order::of_key(q, key) == Seq::<MutationView>::empty()
            },
{
    let all = group + seq![c];
    let n = group.len() as int;
    let none = Seq::<ChildView>::empty();
    assert(all =~= none + group + seq![c]);
    assert(all =~= group + seq![c] + none);
    levels::lemma_middle(w, none, group, seq![c]);
    levels::lemma_middle(w, group, seq![c], none);
    assert(seq![c][0] == c);
    assert(all[n] == c);
    lemma_unfold_one(w, c, b, q);
    world::lemma_reach_over(w, a);
    // Keys of the last node.
    assert forall|key: u64|
        #![trigger world::base_at(w, all, key)]
        c.min_key <= key implies {
        &&& world::base_at(w, all, key) == w.rec(c, key)
        &&& world::newest_at(w, all, key) == w.newest_of(c, key)
        &&& world::mark_at(w, all, key) == w.mark_of(c, key)
        &&& order::of_key(p, key) == Seq::<MutationView>::empty()
        &&& world::base_at(w, a, key) is None
        &&& world::newest_at(w, a, key) == 0
    } by {
        lemma_joined_route(group, seq![c], key);
        assert(node::route(seq![c], key) == 0) by {
            node::lemma_route(seq![c], key);
        }
        let g = node::route(group, key);
        assert(all[g] == group[g]);
        assert(w.rec(all[g], key) is None);
        assert(world::frontier(w, a, p, key) == world::newest_at(w, group, key));
        world::lemma_latest_zero(p, key);
        levels::lemma_empty_run(p, key);
        assert(world::cell(w, a, p, key) == Ok::<Option<FragmentView>, Error>(
            world::base_at(w, group, key),
        ));
    }
    assert forall|key: u64|
        #![trigger world::base_at(w, all, key)]
        key < c.min_key implies {
        &&& world::base_at(w, all, key) == world::base_at(w, group, key)
        &&& world::newest_at(w, all, key) == world::newest_at(w, group, key)
        &&& world::mark_at(w, all, key) == world::mark_at(w, group, key)
        &&& order::of_key(q, key) == Seq::<MutationView>::empty()
        &&& world::base_at(w, b, key) is None
        &&& world::newest_at(w, b, key) == 0
    } by {
        lemma_joined_route(group, seq![c], key);
        let g = node::route(group, key);
        assert(all[g] == group[g]);
        assert(w.rec(all[n], key) is None);
        assert((w.newest)(c.loc(), key) == world::frontier(w, b, q, key));
        world::lemma_latest_zero(q, key);
        levels::lemma_empty_run(q, key);
        assert(world::good(world::cell(w, b, q, key), key));
        assert((w.record)(c.loc(), key) == world::cell(w, b, q, key)->Ok_0);
    }
    let new = a + b;
    let m = a.len() as int;
    assert forall|i: int, j: int| 0 <= i < j < new.len() implies (#[trigger] new[i]).min_key < (
    #[trigger] new[j]).min_key && w.reach_of(new[i]) < new[j].min_key by {
        if j < m {
            assert(new[i] == a[i] && new[j] == a[j]);
        } else if i < m {
            assert(new[i] == a[i] && new[j] == b[j - m]);
            if j > m {
                assert(b[0].min_key < b[j - m].min_key);
            }
        } else {
            assert(new[i] == b[i - m] && new[j] == b[j - m]);
        }
    }
    assert(world::fences(new));
    assert forall|i: int, key: u64|
        0 <= i < new.len() && node::route(new, key) != i implies #[trigger] w.rec(
        new[i],
        key,
    ) is None && w.newest_of(new[i], key) == 0 by {
        lemma_joined_route(a, b, key);
        let t = world::base_at(w, all, key);
        if i < m {
            assert(new[i] == a[i]);
            if node::route(a, key) == i {
                assert(c.min_key <= key);
            } else {
                assert(w.rec(a[i], key) is None);
            }
        } else {
            assert(new[i] == b[i - m]);
            if node::route(b, key) == i - m {
                assert(key < c.min_key);
            } else {
                assert(w.rec(b[i - m], key) is None);
            }
        }
    }
    assert forall|i: int, key: u64| 0 <= i < new.len() implies world::proper(
        #[trigger] w.rec(new[i], key),
        key,
    ) by {
        if i < m {
            assert(new[i] == a[i]);
            assert(world::proper(w.rec(a[i], key), key));
        } else {
            assert(new[i] == b[i - m]);
            assert(world::proper(w.rec(b[i - m], key), key));
        }
    }
    assert(world::level_heights(new, new[0].height)) by {
        assert(all[n].height == all[0].height);
        assert(all[0] == group[0]);
        assert forall|i: int| 0 <= i < new.len() implies (#[trigger] new[i]).height
            == new[0].height by {
            assert(new[0] == a[0]);
            if i < m {
                assert(new[i] == a[i]);
            } else {
                assert(new[i] == b[i - m]);
                assert(b[i - m].height == b[0].height);
            }
        }
    }
}

/// A node more stands for its children and buffer more.
pub proof fn lemma_unfold_push(
    w: World,
    group: Seq<ChildView>,
    c: ChildView,
    a: Seq<ChildView>,
    p: Seq<MutationView>,
    b: Seq<ChildView>,
    q: Seq<MutationView>,
)
    requires
        world::sane(w, group + seq![c]),
        unfolds(w, group, a, p),
        denotes(w, c, b, q),
    ensures
        unfolds(w, group + seq![c], a + b, p + q),
{
    let all = group + seq![c];
    let new = a + b;
    let pending = p + q;
    let n = group.len() as int;
    let m = a.len() as int;
    lemma_joined_sane(w, group, c, a, p, b, q);
    lemma_unfold_one(w, c, b, q);
    assert(all[n] == c && all[0] == group[0] && new[0] == a[0]);
    assert forall|key: u64|
        #![trigger world::base_at(w, new, key)]
        world::cell(w, new, pending, key) == Ok::<Option<FragmentView>, Error>(
            world::base_at(w, all, key),
        ) && world::frontier(w, new, pending, key) == world::newest_at(w, all, key)
            && world::mark_at(w, new, key) == world::mark_at(w, all, key) && order::distinct(
            order::of_key(pending, key),
        ) && (c.min_key <= key ==> world::same_run(pending, q, key) && world::newest_at(w, new, key)
            == world::newest_at(w, b, key) && world::mark_at(w, new, key) == world::mark_at(
            w,
            b,
            key,
        )) && (key < c.min_key ==> world::same_run(pending, p, key) && world::newest_at(w, new, key)
            == world::newest_at(w, a, key) && world::mark_at(w, new, key) == world::mark_at(
            w,
            a,
            key,
        )) by {
        lemma_joined_route(a, b, key);
        lemma_of_key_add(p, q, key);
        let t = world::base_at(w, all, key);
        if c.min_key <= key {
            let r = node::route(b, key);
            assert(new[m + r] == b[r]);
            assert(order::of_key(pending, key) =~= order::of_key(q, key));
            assert(world::same_run(pending, q, key));
            world::lemma_same_run_latest(pending, q, key);
            assert(world::good(world::cell(w, b, q, key), key));
            assert((w.record)(c.loc(), key) == world::cell(w, b, q, key)->Ok_0);
            assert((w.newest)(c.loc(), key) == world::frontier(w, b, q, key));
            assert((w.mark)(c.loc(), key) == world::mark_at(w, b, key));
            assert(order::distinct(order::of_key(q, key)));
        } else {
            let r = node::route(a, key);
            assert(new[r] == a[r]);
            assert(order::of_key(pending, key) =~= order::of_key(p, key));
            assert(world::same_run(pending, p, key));
            world::lemma_same_run_latest(pending, p, key);
            assert(world::cell(w, a, p, key) == Ok::<Option<FragmentView>, Error>(
                world::base_at(w, group, key),
            ));
            assert(world::frontier(w, a, p, key) == world::newest_at(w, group, key));
            assert(world::mark_at(w, a, key) == world::mark_at(w, group, key));
            assert(order::distinct(order::of_key(p, key)));
        }
    }
    assert forall|key: u64| #[trigger]
        world::cell(w, new, pending, key) == Ok::<Option<FragmentView>, Error>(
            world::base_at(w, all, key),
        ) by {
        let t = world::base_at(w, new, key);
    }
    assert forall|key: u64| #[trigger]
        world::frontier(w, new, pending, key) == world::newest_at(w, all, key) by {
        let t = world::base_at(w, new, key);
    }
    assert forall|key: u64| #[trigger]
        world::mark_at(w, new, key) == world::mark_at(w, all, key) by {
        let t = world::base_at(w, new, key);
    }
    assert(world::apart(pending)) by {
        assert forall|key: u64| order::distinct(#[trigger] order::of_key(pending, key)) by {
            let t = world::base_at(w, new, key);
        }
    }
    assert(world::fresh(w, new, pending)) by {
        assert forall|i: int| 0 <= i < pending.len() implies world::newest_at(
            w,
            new,
            (#[trigger] pending[i]).key(),
        ) <= pending[i].action_sequence && world::mark_at(w, new, pending[i].key())
            < pending[i].action_sequence by {
            let key = pending[i].key();
            let t = world::base_at(w, new, key);
            assert(pending.contains(pending[i]));
            order::lemma_of_key_contains(pending, key, pending[i]);
            if c.min_key <= key {
                order::lemma_of_key_contains(q, key, pending[i]);
                let k = choose|k: int| 0 <= k < q.len() && q[k] == pending[i];
                assert(world::newest_at(w, b, q[k].key()) <= q[k].action_sequence);
            } else {
                order::lemma_of_key_contains(p, key, pending[i]);
                let k = choose|k: int| 0 <= k < p.len() && p[k] == pending[i];
                assert(world::newest_at(w, a, p[k].key()) <= p[k].action_sequence);
            }
        }
    }
    assert forall|key: u64| world::good(#[trigger] world::cell(w, new, pending, key), key) by {
        node::lemma_route(all, key);
        let r = node::route(all, key);
        assert(world::proper(w.rec(all[r], key), key));
    }
    assert(world::reach_over(w, new) <= world::reach_over(w, all)) by {
        world::lemma_reach_over(w, all);
        world::lemma_reach_over(w, a);
        world::lemma_reach_over(w, b);
        world::lemma_reach_over(w, group);
        let top = (world::reach_over(w, all) + 1) as nat;
        assert forall|i: int| 0 <= i < group.len() implies (#[trigger] group[i]).min_key < top
            && w.reach_of(group[i]) < top by {
            assert(all[i] == group[i]);
        }
        world::lemma_reach_below(w, group, top);
        assert((w.reach)(c.loc()) == world::reach_over(w, b));
        assert(w.reach_of(all[n]) <= world::reach_over(w, all));
        assert forall|i: int| 0 <= i < new.len() implies (#[trigger] new[i]).min_key < top
            && w.reach_of(new[i]) < top by {
            if i < m {
                assert(new[i] == a[i]);
            } else {
                assert(new[i] == b[i - m]);
            }
        }
        world::lemma_reach_below(w, new, top);
    }
    assert forall|bound: nat| #[trigger] world::capped(w, all, bound) implies world::capped(
        w,
        new,
        bound,
    ) by {
        assert(world::capped(w, group, bound)) by {
            assert forall|i: int| 0 <= i < group.len() implies w.peak_of(#[trigger] group[i])
                <= bound by {
                assert(all[i] == group[i]);
            }
        }
        assert(w.peak_of(all[n]) <= bound);
        assert(world::capped(w, a, bound));
        assert(world::capped(w, b, bound) == ((w.peak)(c.loc()) <= bound));
        assert forall|i: int| 0 <= i < new.len() implies w.peak_of(#[trigger] new[i]) <= bound by {
            if i < m {
                assert(new[i] == a[i]);
            } else {
                assert(new[i] == b[i - m]);
            }
        }
    }
}

/// Replacing nodes by what they stand for, with what is buffered above them
/// joined to what they have buffered.
pub proof fn lemma_unfold(
    w: World,
    group: Seq<ChildView>,
    above: Seq<MutationView>,
    children: Seq<ChildView>,
    below: Seq<MutationView>,
    joined: Seq<MutationView>,
)
    requires
        world::sound(w, group, above),
        unfolds(w, group, children, below),
        joined == below + above || joined == above + below,
    ensures
        world::refines(w, group, above, children, joined, -1),
{
    assert forall|key: u64|
        #![trigger world::base_at(w, children, key)]
        world::cell(w, children, joined, key) == world::cell(w, group, above, key)
            && world::frontier(w, children, joined, key) == world::frontier(w, group, above, key)
            && order::distinct(order::of_key(joined, key)) by {
        assert(world::frontier(w, children, below, key) == world::newest_at(w, group, key));
        assert(world::cell(w, children, below, key) == Ok::<Option<FragmentView>, Error>(
            world::base_at(w, group, key),
        ));
        assert(order::distinct(order::of_key(below, key)));
        assert(order::distinct(order::of_key(above, key)));
        assert forall|i: int|
            0 <= i < above.len() && (#[trigger] above[i]).key() == key implies world::latest(
            below,
            key,
        ) <= above[i].action_sequence by {
            assert(world::newest_at(w, group, above[i].key()) <= above[i].action_sequence);
        }
        world::lemma_run_join(below, above, joined, key);
        replay_laws::law_replay_joins(
            world::base_at(w, children, key),
            order::run(below, key),
            order::run(above, key),
            false,
        );
    }
    assert forall|key: u64| #[trigger]
        world::cell(w, children, joined, key) == world::cell(w, group, above, key) by {
        let t = world::base_at(w, children, key);
    }
    assert forall|key: u64| #[trigger]
        world::frontier(w, children, joined, key) <= world::frontier(w, group, above, key) by {
        let t = world::base_at(w, children, key);
    }
    assert(world::apart(joined)) by {
        assert forall|key: u64| order::distinct(#[trigger] order::of_key(joined, key)) by {
            let t = world::base_at(w, children, key);
        }
    }
    assert(world::fresh(w, children, joined)) by {
        assert forall|i: int| 0 <= i < joined.len() implies world::newest_at(
            w,
            children,
            (#[trigger] joined[i]).key(),
        ) <= joined[i].action_sequence && world::mark_at(w, children, joined[i].key())
            < joined[i].action_sequence by {
            let key = joined[i].key();
            assert(world::mark_at(w, children, key) == world::mark_at(w, group, key));
            assert(world::frontier(w, children, below, key) == world::newest_at(w, group, key));
            let first = if joined == below + above {
                below
            } else {
                above
            };
            let second = if joined == below + above {
                above
            } else {
                below
            };
            if i < first.len() {
                assert(joined[i] == first[i]);
            } else {
                assert(joined[i] == second[i - first.len()]);
            }
            let in_below = (joined == below + above) == (i < first.len());
            if in_below {
                let k = if i < first.len() {
                    i
                } else {
                    i - first.len()
                };
                assert(joined[i] == below[k]);
                assert(world::newest_at(w, children, below[k].key()) <= below[k].action_sequence);
            } else {
                let k = if i < first.len() {
                    i
                } else {
                    i - first.len()
                };
                assert(joined[i] == above[k]);
                assert(world::newest_at(w, group, above[k].key()) <= above[k].action_sequence);
            }
        }
    }
    assert forall|key: u64| world::good(#[trigger] world::cell(w, children, joined, key), key) by {
        assert(world::good(world::cell(w, group, above, key), key));
    }
    assert forall|key: u64| #[trigger] world::mark_at(w, children, key) <= world::mark_at(
        w,
        group,
        key,
    ) by {}
    assert forall|end: nat| #[trigger] world::bounded(w, group, above, end) implies world::bounded(
        w,
        children,
        joined,
        end,
    ) by {
        assert forall|key: u64| key >= end implies #[trigger] world::cell(
            w,
            children,
            joined,
            key,
        ) == Ok::<Option<FragmentView>, Error>(None) && world::frontier(w, children, joined, key)
            == 0 by {
            assert(world::cell(w, group, above, key) == Ok::<Option<FragmentView>, Error>(None));
            assert(world::frontier(w, children, joined, key) <= world::frontier(
                w,
                group,
                above,
                key,
            ));
        }
    }
}

/// A level with the same mutations in another order holds the same.
pub proof fn lemma_regroup(
    w: World,
    children: Seq<ChildView>,
    a: Seq<MutationView>,
    b: Seq<MutationView>,
)
    requires
        world::sound(w, children, a),
        forall|key: u64| #[trigger] world::same_run(b, a, key),
    ensures
        world::refines(w, children, a, children, b, -1),
{
    assert forall|key: u64|
        #![trigger world::same_run(b, a, key)]
        order::run(b, key) == order::run(a, key) && world::latest(b, key) == world::latest(
            a,
            key,
        ) by {
        world::lemma_same_run_latest(b, a, key);
    }
    assert(world::apart(b)) by {
        assert forall|key: u64| order::distinct(#[trigger] order::of_key(b, key)) by {
            assert(world::same_run(b, a, key));
            assert(order::distinct(order::of_key(a, key)));
        }
    }
    assert(world::fresh(w, children, b)) by {
        assert forall|i: int| 0 <= i < b.len() implies world::newest_at(
            w,
            children,
            (#[trigger] b[i]).key(),
        ) <= b[i].action_sequence && world::mark_at(w, children, b[i].key())
            < b[i].action_sequence by {
            let key = b[i].key();
            assert(world::same_run(b, a, key));
            assert(b.contains(b[i]));
            order::lemma_of_key_contains(b, key, b[i]);
            order::lemma_of_key_contains(a, key, b[i]);
            let k = choose|k: int| 0 <= k < a.len() && a[k] == b[i];
            assert(world::newest_at(w, children, a[k].key()) <= a[k].action_sequence);
        }
    }
    assert forall|key: u64| #[trigger]
        world::cell(w, children, b, key) == world::cell(w, children, a, key) by {
        assert(world::same_run(b, a, key));
    }
    assert forall|key: u64| #[trigger]
        world::frontier(w, children, b, key) <= world::frontier(w, children, a, key) by {
        assert(world::same_run(b, a, key));
    }
    lemma_same_cells(w, children, a, b);
}

/// Two buffers that make the same of a level: what remains to be said.
proof fn lemma_same_cells(
    w: World,
    children: Seq<ChildView>,
    a: Seq<MutationView>,
    b: Seq<MutationView>,
)
    requires
        world::sound(w, children, a),
        forall|key: u64| #[trigger]
            world::cell(w, children, b, key) == world::cell(w, children, a, key),
        forall|key: u64| #[trigger]
            world::frontier(w, children, b, key) <= world::frontier(w, children, a, key),
    ensures
        forall|key: u64| world::good(#[trigger] world::cell(w, children, b, key), key),
        forall|end: nat| #[trigger]
            world::bounded(w, children, a, end) ==> world::bounded(w, children, b, end),
{
    assert forall|key: u64| world::good(#[trigger] world::cell(w, children, b, key), key) by {
        assert(world::good(world::cell(w, children, a, key), key));
    }
    assert forall|end: nat| #[trigger] world::bounded(w, children, a, end) implies world::bounded(
        w,
        children,
        b,
        end,
    ) by {
        assert forall|key: u64| key >= end implies #[trigger] world::cell(w, children, b, key)
            == Ok::<Option<FragmentView>, Error>(None) && world::frontier(w, children, b, key)
            == 0 by {
            assert(world::cell(w, children, a, key) == Ok::<Option<FragmentView>, Error>(None));
            assert(world::frontier(w, children, b, key) <= world::frontier(w, children, a, key));
        }
    }
}

/// A level with its buffer normalized holds the same.
pub proof fn lemma_squash(
    w: World,
    children: Seq<ChildView>,
    a: Seq<MutationView>,
    b: Seq<MutationView>,
)
    requires
        world::sound(w, children, a),
        squash::normalized(a, b),
    ensures
        world::refines(w, children, a, children, b, -1),
{
    assert forall|key: u64|
        #![trigger order::of_key(b, key)]
        world::cell(w, children, b, key) == world::cell(w, children, a, key) && order::distinct(
            order::of_key(b, key),
        ) by {
        let s = order::run(a, key);
        squash_laws::lemma_run(a, key);
        order::lemma_sorted_distinct(order::of_key(a, key), false);
        order::lemma_sorted_distinct(order::of_key(b, key), false);
        assert(order::distinct(order::of_key(a, key)));
        assert(order::run(b, key) == squash::reduced(key, s));
        assert(world::good(world::cell(w, children, a, key), key));
        squash_laws::law_reduction_keeps_shape(key, s);
        squash_laws::law_reduced_run_means_the_same(
            world::base_at(w, children, key),
            key,
            s,
            false,
        );
    }
    assert(world::fresh(w, children, b)) by {
        assert forall|i: int| 0 <= i < b.len() implies world::newest_at(
            w,
            children,
            (#[trigger] b[i]).key(),
        ) <= b[i].action_sequence && world::mark_at(w, children, b[i].key())
            < b[i].action_sequence by {
            let k = squash_laws::lemma_squashed_origin(a, b, i);
            assert(world::newest_at(w, children, a[k].key()) <= a[k].action_sequence);
        }
    }
    assert forall|key: u64| #[trigger]
        world::cell(w, children, b, key) == world::cell(w, children, a, key) by {
        let t = order::of_key(b, key);
    }
    assert forall|key: u64| #[trigger]
        world::frontier(w, children, b, key) <= world::frontier(w, children, a, key) by {
        world::lemma_latest(b, key);
        world::lemma_latest(a, key);
        if world::latest(b, key) > 0 {
            let i = choose|i: int|
                0 <= i < b.len() && (#[trigger] b[i]).key() == key && b[i].action_sequence + 1
                    == world::latest(b, key);
            let k = squash_laws::lemma_squashed_origin(a, b, i);
            assert(a[k].key() == key);
        }
    }
    lemma_same_cells(w, children, a, b);
}

/// Lowering the first fence of a level changes nothing it holds.
pub proof fn lemma_refence(
    w: World,
    a: Seq<ChildView>,
    p: Seq<MutationView>,
    lower: u64,
)
    requires
        world::sound(w, a, p),
        a.len() > 0,
        lower <= a[0].min_key,
    ensures
        world::refines(w, a, p, node::fenced(a, lower), p, -1),
{
    let b = node::fenced(a, lower);
    assert forall|i: int| 0 <= i < a.len() implies (#[trigger] b[i]).loc() == a[i].loc()
        && b[i].height == a[i].height && b[i].materialized_through_action_sequence
        == a[i].materialized_through_action_sequence && b[i].min_key <= a[i].min_key && (i > 0
        ==> b[i] == a[i]) by {}
    assert forall|i: int, j: int| 0 <= i < j < b.len() implies (#[trigger] b[i]).min_key < (
    #[trigger] b[j]).min_key && w.reach_of(b[i]) < b[j].min_key by {
        assert(a[i].min_key < a[j].min_key);
        assert(w.reach_of(a[i]) < a[j].min_key);
    }
    assert forall|key: u64|
        #![trigger node::route(b, key)]
        node::route(b, key) == node::route(a, key) && 0 <= node::route(a, key) < a.len() by {
        world::lemma_route_same(a, b, key);
        node::lemma_route(a, key);
    }
    assert(world::sane(w, b)) by {
        assert forall|i: int, key: u64|
            0 <= i < b.len() && node::route(b, key) != i implies #[trigger] w.rec(
            b[i],
            key,
        ) is None && w.newest_of(b[i], key) == 0 by {
            assert(w.rec(a[i], key) is None);
        }
        assert forall|i: int, key: u64| 0 <= i < b.len() implies world::proper(
            #[trigger] w.rec(b[i], key),
            key,
        ) by {
            assert(world::proper(w.rec(a[i], key), key));
        }
        assert forall|i: int| 0 <= i < b.len() implies (#[trigger] b[i]).height == b[0].height by {
            assert(a[i].height == a[0].height);
        }
    }
    assert forall|key: u64|
        #![trigger world::base_at(w, b, key)]
        world::base_at(w, b, key) == world::base_at(w, a, key) && world::newest_at(w, b, key)
            == world::newest_at(w, a, key) && world::mark_at(w, b, key) == world::mark_at(
            w,
            a,
            key,
        ) by {
        let r = node::route(b, key);
        assert(b[r].loc() == a[r].loc());
    }
    assert(world::fresh(w, b, p)) by {
        assert forall|i: int| 0 <= i < p.len() implies world::newest_at(
            w,
            b,
            (#[trigger] p[i]).key(),
        ) <= p[i].action_sequence && world::mark_at(w, b, p[i].key()) < p[i].action_sequence by {
            let t = world::base_at(w, b, p[i].key());
            assert(world::newest_at(w, a, p[i].key()) <= p[i].action_sequence);
        }
    }
    assert forall|key: u64| #[trigger] world::cell(w, b, p, key) == world::cell(w, a, p, key) by {
        let t = world::base_at(w, b, key);
    }
    assert forall|key: u64| #[trigger]
        world::frontier(w, b, p, key) <= world::frontier(w, a, p, key) by {
        let t = world::base_at(w, b, key);
    }
    assert forall|key: u64| #[trigger]
        world::mark_at(w, b, key) <= world::mark_at(w, a, key) by {
        let t = world::base_at(w, b, key);
    }
    assert forall|key: u64| world::good(#[trigger] world::cell(w, b, p, key), key) by {
        assert(world::good(world::cell(w, a, p, key), key));
    }
    assert forall|bound: nat| #[trigger] world::capped(w, a, bound) implies world::capped(
        w,
        b,
        bound,
    ) by {
        assert forall|i: int| 0 <= i < b.len() implies w.peak_of(#[trigger] b[i]) <= bound by {
            assert(w.peak_of(a[i]) <= bound);
        }
    }
    assert forall|end: nat| #[trigger] world::bounded(w, a, p, end) implies world::bounded(
        w,
        b,
        p,
        end,
    ) by {
        world::lemma_reach_over(w, a);
        assert forall|i: int| 0 <= i < b.len() implies (#[trigger] b[i]).min_key < end
            && w.reach_of(b[i]) < end by {
            assert(a[i].min_key <= world::reach_over(w, a));
        }
        world::lemma_reach_below(w, b, end);
        assert forall|key: u64| key >= end implies #[trigger] world::cell(w, b, p, key) == Ok::<
            Option<FragmentView>,
            Error,
        >(None) && world::frontier(w, b, p, key) == 0 by {
            assert(world::cell(w, a, p, key) == Ok::<Option<FragmentView>, Error>(None));
            assert(world::frontier(w, b, p, key) <= world::frontier(w, a, p, key));
        }
    }
}

} // verus!
