//! Ordered bulk materialization at any height. One leaf stays pending across
//! routing boundaries so split and coalesce are decided before final leaves
//! are written.

use vstd::prelude::*;

use crate::drain;
use crate::error::{Error, Reason};
use crate::flush;
use crate::flush::Buckets;
use crate::leaves;
use crate::levels;
use crate::merge;
use crate::merge::WriteAcc;
use crate::node;
use crate::node::{FragmentMetadataTreeConfig, InternalNode};
use crate::order;
use crate::pb::{clone_mutations, ChildView, FragmentMetadataChild, FragmentMetadataMutation, MutationView};
use crate::record::{Fragment, FragmentView};
use crate::replay;
use crate::split;
use crate::steps;
use crate::store;
use crate::store::{Halt, Names, NodeStore, Stop, StoreView};
use crate::views;
use crate::wire;
use crate::world;
use crate::world::World;

verus! {

broadcast use {crate::store::group_names, crate::views::group_views, vstd::std_specs::btree::group_btree_axioms};

/// Whether a leaf and the mutations for it come to some records.
pub open spec fn yields(
    store: StoreView,
    child: ChildView,
    actions: Seq<MutationView>,
    records: Seq<FragmentView>,
) -> bool {
    &&& store::leaf_read(store, child) is Ok
    &&& ({
        let (after, error) = replay::replayed(
            steps::indexed(store::leaf_read(store, child)->Ok_0),
            actions,
            true,
        );
        error is None && steps::lists(records, after)
    })
}

/// Records leaf after leaf.
pub open spec fn joined(rows: Seq<Seq<FragmentView>>) -> Seq<FragmentView>
    decreases rows.len(),
{
    if rows.len() == 0 {
        Seq::empty()
    } else {
        joined(rows.drop_last()) + rows.last()
    }
}

/// Whether some neighbouring leaves and the mutations for them come to some
/// records each.
pub open spec fn all_yield(
    store: StoreView,
    group: Seq<ChildView>,
    held: Seq<Seq<MutationView>>,
    rows: Seq<Seq<FragmentView>>,
) -> bool {
    &&& rows.len() == group.len()
    &&& held.len() == group.len()
    &&& forall|i: int|
        0 <= i < rows.len() ==> yields(store, group[i], held[i], #[trigger] rows[i])
}

/// What a store knows of a leaf stays as it grows.
proof fn lemma_leaf_read_later(before: StoreView, after: StoreView, child: ChildView)
    requires
        after.extends(before),
        store::leaf_read(before, child) is Ok,
    ensures
        store::leaf_read(after, child) == store::leaf_read(before, child),
{
    let loc = child.loc();
    store::lemma_leaf_index(before.leaves, loc);
    store::lemma_leaf_index(after.leaves, loc);
    let at = store::leaf_index(before.leaves, loc);
    assert(after.leaves.take(before.leaves.len() as int)[at] == before.leaves[at]);
    let later = store::leaf_index(after.leaves, loc);
    if later < at {
        assert(after.leaves.take(before.leaves.len() as int)[later] == before.leaves[later]);
    }
    if at < later {
        assert(after.leaves[at].loc == loc);
    }
}

/// What one leaf of a level comes to.
proof fn lemma_yield(
    w: World,
    store: StoreView,
    level: Seq<ChildView>,
    held: Seq<Seq<MutationView>>,
    i: int,
    records: Seq<FragmentView>,
    key: u64,
)
    requires
        world::agrees(w, store),
        world::sane(w, level),
        drain::sorted_out(level, held),
        0 <= i < level.len(),
        yields(store, level[i], held[i], records),
    ensures
        Ok::<Option<FragmentView>, Error>(world::found(records, key)) == if node::route(level, key)
            == i {
            world::cell(w, level, flush::flattened(held), key)
        } else {
            Ok(None)
        },
        store::ascending(records),
{
    let given = store::leaf_read(store, level[i])->Ok_0;
    steps::lemma_reads_leaf(w, store, level[i]);
    steps::lemma_replayed_cell(steps::indexed(given), held[i], key);
    assert(w.rec(level[i], key) == world::found(given, key));
    let after = replay::replayed(steps::indexed(given), held[i], true).0;
    assert(world::found(records, key) == replay::lookup(after, key));
    node::lemma_route(level, key);
    let r = node::route(level, key);
    if r == i {
        assert forall|j: int| 0 <= j < held.len() && j != i implies #[trigger] order::of_key(
            held[j],
            key,
        ) == Seq::<MutationView>::empty() by {}
        drain::lemma_flattened(held, i, key);
        world::lemma_same_run_latest(flush::flattened(held), held[i], key);
    } else {
        assert(order::of_key(held[i], key) == Seq::<MutationView>::empty());
        levels::lemma_empty_run(held[i], key);
        assert(w.rec(level[i], key) is None);
    }
}

/// What some neighbouring leaves of a level come to.
#[verifier::rlimit(60)]
proof fn lemma_group(
    w: World,
    store: StoreView,
    level: Seq<ChildView>,
    held: Seq<Seq<MutationView>>,
    from: int,
    to: int,
    rows: Seq<Seq<FragmentView>>,
)
    requires
        world::agrees(w, store),
        world::sane(w, level),
        drain::sorted_out(level, held),
        0 <= from <= to <= level.len(),
        all_yield(store, level.subrange(from, to), held.subrange(from, to), rows),
    ensures
        store::ascending(joined(rows)),
        forall|key: u64| #[trigger]
            world::found(joined(rows), key) is Some ==> from <= node::route(level, key) < to,
        forall|key: u64|
            #![trigger world::found(joined(rows), key)]
            from <= node::route(level, key) < to ==> Ok::<Option<FragmentView>, Error>(
                world::found(joined(rows), key),
            ) == world::cell(w, level, flush::flattened(held), key),
    decreases to - from,
{
    let group = level.subrange(from, to);
    let inside = held.subrange(from, to);
    let records = joined(rows);
    if from < to {
        let n = to - 1;
        let first = joined(rows.drop_last());
        let more = rows.last();
        let k = first.len() as int;
        assert(more == rows[rows.len() - 1]);
        assert(group[rows.len() - 1] == level[n] && inside[rows.len() - 1] == held[n]);
        assert(yields(store, level[n], held[n], more));
        assert(all_yield(
            store,
            level.subrange(from, n),
            held.subrange(from, n),
            rows.drop_last(),
        )) by {
            let shorter = rows.drop_last();
            let g = level.subrange(from, n);
            let h = held.subrange(from, n);
            assert forall|i: int| 0 <= i < shorter.len() implies yields(
                store,
                g[i],
                h[i],
                #[trigger] shorter[i],
            ) by {
                assert(shorter[i] == rows[i]);
                assert(yields(store, group[i], inside[i], rows[i]));
            }
        }
        lemma_group(w, store, level, held, from, n, rows.drop_last());
        assert forall|key: u64|
            #![trigger world::found(more, key)]
            Ok::<Option<FragmentView>, Error>(world::found(more, key)) == if node::route(level, key)
                == n {
                world::cell(w, level, flush::flattened(held), key)
            } else {
                Ok(None)
            } by {
            lemma_yield(w, store, level, held, n, more, key);
        }
        lemma_yield(w, store, level, held, n, more, 0);
        assert(records =~= first + more);
        assert(store::ascending(records)) by {
            assert forall|i: int, j: int| 0 <= i < j < records.len() implies (
            #[trigger] records[i]).id < (#[trigger] records[j]).id by {
                if j < k {
                    assert(records[i] == first[i] && records[j] == first[j]);
                } else if i >= k {
                    assert(records[i] == more[i - k] && records[j] == more[j - k]);
                } else {
                    let a = records[i].id;
                    let b = records[j].id;
                    assert(records[i] == first[i] && records[j] == more[j - k]);
                    leaves::lemma_found(first, i);
                    leaves::lemma_found(more, j - k);
                    assert(world::found(first, a) is Some);
                    assert(world::found(more, b) is Some);
                    node::lemma_route(level, a);
                    node::lemma_route(level, b);
                }
            }
        }
        assert forall|key: u64|
            #![trigger world::found(records, key)]
            world::found(records, key) == if world::found(more, key) is Some {
                world::found(more, key)
            } else {
                world::found(first, key)
            } by {
            if world::found(records, key) is Some {
                let i = leaves::lemma_found_some(records, key);
                leaves::lemma_found(records, i);
                if i < k {
                    assert(first[i] == records[i]);
                    leaves::lemma_found(first, i);
                    assert(world::found(first, key) is Some);
                } else {
                    assert(more[i - k] == records[i]);
                    leaves::lemma_found(more, i - k);
                }
            } else {
                if world::found(more, key) is Some {
                    let i = leaves::lemma_found_some(more, key);
                    assert(records[k + i] == more[i]);
                }
                if world::found(first, key) is Some {
                    let i = leaves::lemma_found_some(first, key);
                    assert(records[i] == first[i]);
                }
            }
        }
    }
}

/// A record a leaf comes to lies at its fence or above it.
proof fn lemma_yield_from(
    store: StoreView,
    child: ChildView,
    actions: Seq<MutationView>,
    records: Seq<FragmentView>,
    lower: int,
)
    requires
        yields(store, child, actions, records),
        child.min_key >= lower,
        forall|j: int| 0 <= j < actions.len() ==> (#[trigger] actions[j]).key() >= child.min_key,
    ensures
        forall|i: int| 0 <= i < records.len() ==> (#[trigger] records[i]).id >= lower,
{
    let given = store::leaf_read(store, child)->Ok_0;
    steps::lemma_leaf_shape(store, child);
    let after = replay::replayed(steps::indexed(given), actions, true).0;
    assert forall|i: int| 0 <= i < records.len() implies (#[trigger] records[i]).id >= lower by {
        leaves::lemma_found(records, i);
        let key = records[i].id;
        assert(world::found(records, key) == replay::lookup(after, key));
        drain::lemma_replayed_from(given, actions, key, child.min_key as int);
    }
}

proof fn lemma_all_yield_from(
    store: StoreView,
    group: Seq<ChildView>,
    held: Seq<Seq<MutationView>>,
    rows: Seq<Seq<FragmentView>>,
    lower: int,
)
    requires
        all_yield(store, group, held, rows),
        drain::above_fences(group, held),
        forall|i: int| 0 <= i < group.len() ==> (#[trigger] group[i]).min_key >= lower,
    ensures
        forall|i: int|
            0 <= i < joined(rows).len() ==> (#[trigger] joined(rows)[i]).id >= lower,
    decreases rows.len(),
{
    if rows.len() > 0 {
        let n = group.len() - 1;
        let shorter = rows.drop_last();
        let g = group.drop_last();
        let h = held.drop_last();
        assert(rows.last() == rows[n]);
        assert(all_yield(store, g, h, shorter)) by {
            assert forall|i: int| 0 <= i < shorter.len() implies yields(
                store,
                g[i],
                h[i],
                #[trigger] shorter[i],
            ) by {
                assert(shorter[i] == rows[i]);
                assert(yields(store, group[i], held[i], rows[i]));
            }
        }
        assert(drain::above_fences(g, h)) by {
            assert forall|i: int, j: int| 0 <= i < h.len() && 0 <= j < h[i].len() implies (
            #[trigger] h[i][j]).key() >= g[i].min_key by {
                assert(held[i][j].key() >= group[i].min_key);
            }
        }
        assert forall|i: int| 0 <= i < n implies (#[trigger] g[i]).min_key >= lower by {
            assert(group[i].min_key >= lower);
        }
        lemma_all_yield_from(store, g, h, shorter, lower);
        let last_actions = held[n];
        assert forall|j: int| 0 <= j < last_actions.len() implies (
        #[trigger] last_actions[j]).key() >= group[n].min_key by {
            assert(held[n][j].key() >= group[n].min_key);
        }
        assert(yields(store, group[n], held[n], rows[n]));
        assert(group[n].min_key >= lower);
        lemma_yield_from(store, group[n], held[n], rows[n], lower);
        let all = joined(rows);
        let first = joined(shorter);
        assert forall|i: int| 0 <= i < all.len() implies (#[trigger] all[i]).id >= lower by {
            if i < first.len() {
                assert(all[i] == first[i]);
            } else {
                assert(all[i] == rows[n][i - first.len()]);
            }
        }
    }
}

/// Buckets with a range of them replaced by empty ones.
pub open spec fn emptied(held: Seq<Seq<MutationView>>, from: int, to: int, n: nat) -> Seq<
    Seq<MutationView>,
> {
    held.take(from) + Seq::new(n, |i: int| Seq::<MutationView>::empty()) + held.skip(to)
}

/// Writing some neighbouring leaves with the mutations for them as leaves
/// keeps what a flushing level holds.
#[verifier::rlimit(60)]
proof fn lemma_flushing_group(
    s0: StoreView,
    s1: StoreView,
    s2: StoreView,
    children: Seq<ChildView>,
    buffer: Seq<MutationView>,
    now: Seq<ChildView>,
    held: Seq<Seq<MutationView>>,
    from: int,
    to: int,
    rows: Seq<Seq<FragmentView>>,
    parts: Seq<(int, int)>,
    refs: Seq<ChildView>,
    watermark: u64,
    cap: int,
)
    requires
        drain::flushing(s0, s1, children, buffer, now, held, cap),
        s2.extends(s1),
        0 <= from < to <= now.len(),
        held.len() == now.len(),
        all_yield(s1, now.subrange(from, to), held.subrange(from, to), rows),
        drain::above_fences(now, held),
        forall|i: int| 0 <= i < now.len() ==> (#[trigger] now[i]).height == 0,
        store::wrote_leaves(s1, s2, refs, joined(rows), parts, watermark),
        store::tiles(parts, 0, joined(rows).len() as int),
        joined(rows).len() > 0,
        watermark <= cap,
    ensures
        drain::flushing(
            s0,
            s2,
            children,
            buffer,
            now.take(from) + refs + now.skip(to),
            emptied(held, from, to, refs.len()),
            cap,
        ),
{
    let records = joined(rows);
    let x = now.take(from);
    let s = now.subrange(from, to);
    let y = now.skip(to);
    let p = flush::flattened(held);
    let inside = held.subrange(from, to);
    let incoming = flush::flattened(inside);
    let held2 = emptied(held, from, to, refs.len());
    let p2 = flush::flattened(held2);
    let new = x + refs + y;
    assert(now =~= x + s + y);
    reveal(drain::flushing);
    assert forall|w: World|
        #![trigger world::agrees(w, s2)]
        world::agrees(w, s2) && world::all_sound(w, s0) && world::sound(
            w,
            children,
            buffer,
        ) implies world::all_sound(w, s2) && world::refines(
        w,
        children,
        buffer,
        new,
        p2,
        cap,
    ) && drain::sorted_out(new, held2) by {
        world::lemma_agrees_before(w, s1, s2);
        assert(world::sound(w, now, p));
        lemma_group_split(w, now, held, from, to, refs.len());
        steps::lemma_wrote_leaves(w, s1, s2, refs, records, parts, watermark);
        levels::lemma_child_sound(w, x, s, y, p, incoming);
        lemma_group(w, s1, now, held, from, to, rows);
        assert(drain::above_fences(s, inside)) by {
            assert forall|i: int, j: int| 0 <= i < inside.len() && 0 <= j < inside[i].len() implies (
            #[trigger] inside[i][j]).key() >= s[i].min_key by {
                assert(held[from + i][j].key() >= now[from + i].min_key);
            }
        }
        assert forall|i: int| 0 <= i < s.len() implies (#[trigger] s[i]).min_key >= s[0].min_key by {
            if i > 0 {
                assert(now[from].min_key < now[from + i].min_key);
            }
        }
        lemma_all_yield_from(s1, s, inside, rows, s[0].min_key as int);
        lemma_group_level(w, now, held, from, to, records, parts, refs, watermark, cap);
        let lower = s[0].min_key;
        let fenced = node::fenced(refs, lower);
        store::lemma_tiles(parts, 0, records.len() as int);
        assert(parts.len() > 0);
        assert(refs[0].height == 0);
        assert(parts[0].0 == 0);
        levels::lemma_drain(w, x, s, y, p, incoming, fenced, p2, cap);
        world::lemma_refines_transitive(
            w,
            children,
            buffer,
            now,
            p,
            x + fenced + y,
            p2,
            cap,
            cap,
        );
        // The first leaf starts at its first record.
        let c = fenced[0];
        let tail = fenced.skip(1) + y;
        let first = records[0].id;
        assert(x + fenced + y =~= x + seq![c] + tail);
        leaves::lemma_found(records, 0);
        assert(world::found(records, first) is Some);
        levels::lemma_route_in(x, s, y, first);
        assert forall|key: u64| c.min_key <= key < first implies #[trigger] w.rec(c, key) is None
            && order::of_key(p2, key) == Seq::<MutationView>::empty() by {
            levels::lemma_route_in(x, s, y, key);
            if from > 0 {
                node::lemma_route(now, first);
                assert(now[from].min_key <= key);
            }
            assert(levels::inside(x, s, y, key));
            if w.rec(c, key) is Some {
                let part = records.subrange(parts[0].0, parts[0].1);
                let i = leaves::lemma_found_some(part, key);
                assert(part[i] == records[i]);
                if i > 0 {
                    assert(records[0].id < records[i].id);
                }
            }
        }
        if tail.len() > 0 {
            if fenced.len() > 1 {
                assert(tail[0] == refs[1]);
                assert(refs[1].height == 0);
                assert(parts[0].1 <= parts[1].0 && parts[0].0 < parts[0].1 && parts[1].0
                    < parts[1].1);
                assert(records[0].id < records[parts[1].0].id);
            } else {
                assert(tail[0] == y[0]);
            }
        }
        assert forall|end: nat|
            tail.len() == 0 && #[trigger] world::bounded(
                w,
                x + seq![c] + tail,
                p2,
                end,
            ) implies first < end by {
            let cell = world::cell(w, x + seq![c] + tail, p2, first);
            assert(cell == world::cell(w, now, p, first));
        }
        levels::lemma_raise(w, x, c, tail, p2, first);
        let raised = ChildView { min_key: first, ..c };
        assert(raised == refs[0]);
        assert(x + seq![raised] + tail =~= new);
        world::lemma_refines_transitive(
            w,
            children,
            buffer,
            x + seq![c] + tail,
            p2,
            new,
            p2,
            cap,
            0,
        );
        lemma_group_sorted(w, now, held, from, to, refs);
    }
}

/// What is inside a range of buckets and what is outside of it.
#[verifier::rlimit(60)]
proof fn lemma_group_split(
    w: World,
    now: Seq<ChildView>,
    held: Seq<Seq<MutationView>>,
    from: int,
    to: int,
    n: nat,
)
    requires
        world::sane(w, now),
        drain::sorted_out(now, held),
        0 <= from < to <= now.len(),
    ensures
        ({
            let x = now.take(from);
            let s = now.subrange(from, to);
            let y = now.skip(to);
            let p = flush::flattened(held);
            let incoming = flush::flattened(held.subrange(from, to));
            let p2 = flush::flattened(emptied(held, from, to, n));
            &&& forall|key: u64|
                levels::inside(x, s, y, key) ==> #[trigger] world::same_run(incoming, p, key)
            &&& forall|key: u64|
                !levels::inside(x, s, y, key) ==> #[trigger] order::of_key(incoming, key) == Seq::<
                    MutationView,
                >::empty()
            &&& forall|key: u64|
                !levels::inside(x, s, y, key) ==> #[trigger] world::same_run(p2, p, key)
            &&& forall|key: u64|
                levels::inside(x, s, y, key) ==> #[trigger] order::of_key(p2, key) == Seq::<
                    MutationView,
                >::empty()
        }),
{
    let x = now.take(from);
    let s = now.subrange(from, to);
    let y = now.skip(to);
    let p = flush::flattened(held);
    let inside = held.subrange(from, to);
    let incoming = flush::flattened(inside);
    let held2 = emptied(held, from, to, n);
    let p2 = flush::flattened(held2);
    assert(now =~= x + s + y);
    assert forall|key: u64|
        #![trigger node::route(now, key)]
        levels::inside(x, s, y, key) == (from <= node::route(now, key) < to) by {}
    assert forall|key: u64|
        #![trigger order::of_key(p, key)]
        order::of_key(p, key) == order::of_key(held[node::route(now, key)], key) && 0
            <= node::route(now, key) < now.len() by {
        node::lemma_route(now, key);
        drain::lemma_flattened(held, node::route(now, key), key);
    }
    assert forall|key: u64|
        #![trigger order::of_key(incoming, key)]
        order::of_key(incoming, key) == if from <= node::route(now, key) < to {
            order::of_key(p, key)
        } else {
            Seq::<MutationView>::empty()
        } by {
        let r = node::route(now, key);
        let o = order::of_key(p, key);
        let t = if from <= r < to {
            r - from
        } else {
            -1
        };
        assert forall|i: int| 0 <= i < inside.len() && i != t implies #[trigger] order::of_key(
            inside[i],
            key,
        ) == Seq::<MutationView>::empty() by {
            assert(inside[i] == held[from + i]);
            assert(order::of_key(held[from + i], key) == Seq::<MutationView>::empty());
        }
        drain::lemma_flattened(inside, t, key);
        if t >= 0 {
            assert(inside[t] == held[r]);
        }
    }
    assert forall|key: u64|
        #![trigger order::of_key(p2, key)]
        order::of_key(p2, key) == if from <= node::route(now, key) < to {
            Seq::<MutationView>::empty()
        } else {
            order::of_key(p, key)
        } by {
        let r = node::route(now, key);
        let o = order::of_key(p, key);
        let t = if r < from {
            r
        } else if r < to {
            -1
        } else {
            r - (to - from) + n
        };
        levels::lemma_no_run(key);
        assert forall|i: int| 0 <= i < held2.len() && i != t implies #[trigger] order::of_key(
            held2[i],
            key,
        ) == Seq::<MutationView>::empty() by {
            if i < from {
                assert(held2[i] == held[i]);
                assert(order::of_key(held[i], key) == Seq::<MutationView>::empty());
            } else if i < from + n {
                assert(held2[i] =~= levels::no_mutations());
            } else {
                let k = i - n + (to - from);
                assert(held2[i] == held[k]);
                assert(order::of_key(held[k], key) == Seq::<MutationView>::empty());
            }
        }
        drain::lemma_flattened(held2, t, key);
        if t >= 0 {
            assert(held2[t] == held[r]);
        }
    }
    assert forall|key: u64| levels::inside(x, s, y, key) implies #[trigger] world::same_run(
        incoming,
        p,
        key,
    ) by {
        let r = node::route(now, key);
        let o = order::of_key(incoming, key);
    }
    assert forall|key: u64| !levels::inside(x, s, y, key) implies #[trigger] order::of_key(
        incoming,
        key,
    ) == Seq::<MutationView>::empty() by {
        let r = node::route(now, key);
    }
    assert forall|key: u64| !levels::inside(x, s, y, key) implies #[trigger] world::same_run(
        p2,
        p,
        key,
    ) by {
        let r = node::route(now, key);
        let o = order::of_key(p2, key);
    }
    assert forall|key: u64| levels::inside(x, s, y, key) implies #[trigger] order::of_key(p2, key)
        == Seq::<MutationView>::empty() by {
        let r = node::route(now, key);
    }
}

/// Every bucket still holds what its child owns once a range was written.
#[verifier::rlimit(60)]
proof fn lemma_group_sorted(
    w: World,
    now: Seq<ChildView>,
    held: Seq<Seq<MutationView>>,
    from: int,
    to: int,
    refs: Seq<ChildView>,
)
    requires
        world::sane(w, now),
        world::fences(now.take(from) + refs + now.skip(to)),
        drain::sorted_out(now, held),
        0 <= from < to <= now.len(),
        refs.len() > 0,
        now[from].min_key <= refs[0].min_key,
    ensures
        drain::sorted_out(
            now.take(from) + refs + now.skip(to),
            emptied(held, from, to, refs.len()),
        ),
{
    let x = now.take(from);
    let y = now.skip(to);
    let n = refs.len() as int;
    let new = x + refs + y;
    let held2 = emptied(held, from, to, refs.len());
    assert forall|i: int, key: u64|
        0 <= i < held2.len() && node::route(new, key) != i implies #[trigger] order::of_key(
        held2[i],
        key,
    ) == Seq::<MutationView>::empty() by {
        levels::lemma_no_run(key);
        node::lemma_route(now, key);
        let r = node::route(now, key);
        if from <= i < from + n {
            assert(held2[i] =~= levels::no_mutations());
        } else if i < from {
            assert(held2[i] == held[i]);
            if r == i {
                // Routed to the same child as before.
                assert(new[i] == now[i]);
                if i + 1 < from {
                    assert(new[i + 1] == now[i + 1]);
                } else {
                    assert(new[from] == refs[0]);
                    assert(key < now[from].min_key);
                }
                world::lemma_route_is(new, key, i);
            }
            assert(order::of_key(held[i], key) == Seq::<MutationView>::empty());
        } else {
            let k = i - n + (to - from);
            assert(held2[i] == held[k]);
            if r == k {
                assert(new[i] == now[k]);
                if i + 1 < new.len() {
                    assert(new[i + 1] == now[k + 1]);
                }
                world::lemma_route_is(new, key, i);
            }
            assert(order::of_key(held[k], key) == Seq::<MutationView>::empty());
        }
    }
}

/// Leaves written from a range of a level stand for it.
#[verifier::rlimit(60)]
proof fn lemma_group_level(
    w: World,
    now: Seq<ChildView>,
    held: Seq<Seq<MutationView>>,
    from: int,
    to: int,
    records: Seq<FragmentView>,
    parts: Seq<(int, int)>,
    refs: Seq<ChildView>,
    watermark: u64,
    cap: int,
)
    requires
        world::sound(w, now, flush::flattened(held)),
        drain::sorted_out(now, held),
        0 <= from < to <= now.len(),
        world::sound(w, now.subrange(from, to), flush::flattened(held.subrange(from, to))),
        store::ascending(records),
        leaves::holding(w, refs, records, parts, watermark),
        forall|key: u64| #[trigger]
            world::found(records, key) is Some ==> from <= node::route(now, key) < to,
        forall|key: u64|
            #![trigger world::found(records, key)]
            from <= node::route(now, key) < to ==> Ok::<Option<FragmentView>, Error>(
                world::found(records, key),
            ) == world::cell(w, now, flush::flattened(held), key),
        records.len() > 0 ==> now[from].min_key <= records[0].id,
        0 <= watermark <= cap,
    ensures
        world::refines(
            w,
            now.subrange(from, to),
            flush::flattened(held.subrange(from, to)),
            node::fenced(refs, now[from].min_key),
            levels::no_mutations(),
            cap,
        ),
{
    let x = now.take(from);
    let s = now.subrange(from, to);
    let y = now.skip(to);
    let p = flush::flattened(held);
    let incoming = flush::flattened(held.subrange(from, to));
    assert(now =~= x + s + y);
    lemma_group_split(w, now, held, from, to, 0);
    levels::lemma_middle(w, x, s, y);
    assert forall|key: u64| #[trigger]
        world::cell(w, s, incoming, key) == Ok::<Option<FragmentView>, Error>(
            world::found(records, key),
        ) by {
        node::lemma_route(now, key);
        let b = world::base_at(w, s, key);
        let f = world::found(records, key);
        if levels::inside(x, s, y, key) {
            assert(world::same_run(incoming, p, key));
            world::lemma_same_run_latest(incoming, p, key);
        } else {
            assert(order::of_key(incoming, key) == Seq::<MutationView>::empty());
            levels::lemma_empty_run(incoming, key);
        }
    }
    leaves::lemma_leaf_level(
        w,
        s,
        incoming,
        records,
        parts,
        refs,
        watermark,
        now[from].min_key,
        cap,
    );
}

// Descending.

/// The first of some nodes, from one of them on, that cannot be read or whose
/// own buffer holds what it does not own.
pub open spec fn own_fault(store: StoreView, level: Seq<ChildView>, i: int) -> Option<Halt>
    decreases level.len() - i,
{
    if i >= level.len() {
        None
    } else {
        match merge::opened(store, level[i]) {
            Err(halt) => Some(halt),
            Ok((children, buffer)) => match split::routing_fault(
                children,
                split::buckets(children, buffer),
                node::end_of(level, i, node::ROOT_EXCLUSIVE_END),
                children.len() as int,
            ) {
                Some(reason) => Some(Halt::Fail(Error::CorruptFile { reason })),
                None => own_fault(store, level, i + 1),
            },
        }
    }
}

/// The leaves under a level and all that is buffered above them, or what
/// stands in the way.
pub open spec fn descended(
    store: StoreView,
    level: Seq<ChildView>,
    pending: Seq<MutationView>,
    height: nat,
) -> Result<(Seq<ChildView>, Seq<MutationView>), Halt>
    decreases height,
{
    if height == 0 {
        Ok((level, pending))
    } else {
        match own_fault(store, level, 0) {
            Some(halt) => Err(halt),
            None => match merge::opened_all(store, level) {
                Err(halt) => Err(halt),
                Ok((more, below)) => descended(store, more, below + pending, (height - 1) as nat),
            },
        }
    }
}

/// Refuse a node whose own buffer holds what it does not own.
fn check_own_buffer(
    store: &NodeStore,
    child: &FragmentMetadataChild,
    end: u64,
) -> (r: Result<(), Stop>)
    ensures
        r matches Err(stop) ==> store::honest(stop, store@) && !(stop is Collapsed),
        match merge::opened(store@, child@) {
            Err(halt) => r matches Err(stop) && stop.halt() == halt,
            Ok((children, buffer)) => match split::routing_fault(
                children,
                split::buckets(children, buffer),
                end,
                children.len() as int,
            ) {
                Some(reason) => r == Err::<(), Stop>(Stop::Fail(Error::CorruptFile { reason })),
                None => r is Ok,
            },
        },
{
    let node = match merge::read_node(store, child) {
        Err(stop) => {
            return Err(stop);
        },
        Ok(node) => node,
    };
    let InternalNode { children, buffer } = node;
    let ghost kids = views::all(children@);
    let ghost pending = views::all(buffer@);
    let routed = split::partition_buffer_by_child(&children, buffer);
    proof {
        let held = split::bucket_views(routed@);
        assert forall|i: int| 0 <= i < held.len() implies #[trigger] held[i] == split::bucket(
            kids,
            pending,
            i,
        ) by {
            assert(views::all(routed@[i]@) == split::bucket(kids, pending, i));
        }
        assert(held =~= split::buckets(kids, pending));
    }
    match split::validate_routed(&children, &routed, end) {
        Err(error) => Err(Stop::Fail(error)),
        Ok(()) => Ok(()),
    }
}

/// Carry the buffers of every routing level down to the leaves.
fn descend(
    store: &NodeStore,
    children: Vec<FragmentMetadataChild>,
    buffer: Vec<FragmentMetadataMutation>,
) -> (r: Result<(Vec<FragmentMetadataChild>, Vec<FragmentMetadataMutation>, u32), Stop>)
    requires
        children@.len() > 0,
        steps::shaped(views::all(children@), children@[0].height as int, 0),
    ensures
        match r {
            Ok((leaves, pending, depth)) => {
                &&& world::faithful(
                    store@,
                    store@,
                    views::all(children@),
                    views::all(buffer@),
                    views::all(leaves@),
                    views::all(pending@),
                    -1,
                )
                &&& leaves@.len() > 0
                &&& steps::shaped(views::all(leaves@), 0, 0)
                &&& depth == children@[0].height
            },
            Err(stop) => store::honest(stop, store@) && !(stop is Collapsed),
        },
        descended(
            store@,
            views::all(children@),
            views::all(buffer@),
            children@[0].height as nat,
        ) == match r {
            Ok((leaves, pending, depth)) => Ok((views::all(leaves@), views::all(pending@))),
            Err(stop) => Err(stop.halt()),
        },
{
    let ghost given = views::all(children@);
    let ghost given_buffer = views::all(buffer@);
    let ghost top = children@[0].height;
    let mut level = children;
    let mut pending = buffer;
    let mut depth: u32 = 0;
    proof {
        world::lemma_faithful_self(store@, given, given_buffer);
        store::lemma_extends_self(store@);
    }
    while level[0].height > 0
        invariant
            level@.len() > 0,
            given == views::all(children@),
            given_buffer == views::all(buffer@),
            top == children@[0].height,
            steps::shaped(views::all(level@), level@[0].height as int, 0),
            depth + level@[0].height == top,
            descended(store@, given, given_buffer, top as nat) == descended(
                store@,
                views::all(level@),
                views::all(pending@),
                level@[0].height as nat,
            ),
            world::faithful(
                store@,
                store@,
                given,
                given_buffer,
                views::all(level@),
                views::all(pending@),
                -1,
            ),
            store@.extends(store@),
        decreases level@[0].height,
    {
        let ghost kids = views::all(level@);
        let ghost above = views::all(pending@);
        let mut i: usize = 0;
        while i < level.len()
            invariant
                i <= level@.len(),
                kids == views::all(level@),
                level@.len() > 0,
                level@[0].height > 0,
                given == views::all(children@),
                given_buffer == views::all(buffer@),
                top == children@[0].height,
                own_fault(store@, kids, 0) == own_fault(store@, kids, i as int),
                descended(store@, given, given_buffer, top as nat) == descended(
                    store@,
                    kids,
                    views::all(pending@),
                    level@[0].height as nat,
                ),
            decreases level@.len() - i,
        {
            assert(kids[i as int] == level@[i as int]@);
            let end: u64 = node::exclusive_end(&level, i, node::ROOT_EXCLUSIVE_END);
            match check_own_buffer(store, &level[i], end) {
                Err(stop) => {
                    return Err(stop);
                },
                Ok(()) => {},
            }
            i = i + 1;
        }
        let node = match merge::gather(store, &level) {
            Err(stop) => {
                return Err(stop);
            },
            Ok(node) => node,
        };
        let InternalNode { children: more, buffer: mut below } = node;
        let ghost held = views::all(below@);
        below.append(&mut pending);
        let ghost joined_buffer = views::all(below@);
        proof {
            assert(kids[0] == level@[0]@);
            assert(joined_buffer =~= held + above);
            steps::lemma_gathered_shape(store@, kids, kids[0].height as int, 0);
            steps::step_unfold(store@, kids, above, joined_buffer);
            world::lemma_faithful_transitive(
                store@,
                store@,
                store@,
                given,
                given_buffer,
                kids,
                above,
                views::all(more@),
                joined_buffer,
                -1,
                -1,
            );
            assert(views::all(more@)[0] == more@[0]@);
        }
        level = more;
        pending = below;
        depth = depth + 1;
    }
    Ok((level, pending, depth))
}

// Leaves.

enum PendingLeaf {
    Unchanged,
    Changed(Vec<Fragment>),
}

impl PendingLeaf {
    /// The records of a leaf that changed.
    spec fn rows(self) -> Option<Seq<FragmentView>> {
        match self {
            PendingLeaf::Unchanged => None,
            PendingLeaf::Changed(records) => Some(views::all(records@)),
        }
    }
}

/// The size of a leaf that may have changed.
pub open spec fn pending_size(
    store: StoreView,
    leaf: Option<Seq<FragmentView>>,
    child: ChildView,
) -> Option<u64> {
    match leaf {
        None => Some(child.object_size),
        Some(records) => store.size_of(records),
    }
}

/// The records of a leaf that may have changed.
pub open spec fn pending_rows(
    store: StoreView,
    leaf: Option<Seq<FragmentView>>,
    child: ChildView,
) -> Result<Seq<FragmentView>, Halt> {
    match leaf {
        Some(records) => Ok(records),
        None => match store::leaf_read(store, child) {
            Err(why) => Err(store::halted(why)),
            Ok(records) => Ok(records),
        },
    }
}

/// The records of a leaf once its mutations are applied.
pub open spec fn bucket_applied(
    store: StoreView,
    child: ChildView,
    actions: Seq<MutationView>,
) -> Result<Seq<FragmentView>, Halt> {
    match store::leaf_read(store, child) {
        Err(why) => Err(store::halted(why)),
        Ok(given) => {
            let (after, error) = replay::replayed(steps::indexed(given), actions, true);
            match error {
                Some(error) => Err(Halt::Fail(error)),
                None => Ok(drain::listing(after)),
            }
        },
    }
}

/// How far a materialization is: what is known, the leaves as they are now,
/// the mutations waiting for each, the leaves from one position to another
/// that are pending, and the records they came to where they changed.
pub struct Progress {
    pub store: StoreView,
    pub level: Seq<ChildView>,
    pub held: Seq<Seq<MutationView>>,
    pub from: int,
    pub next: int,
    pub pending: Option<Option<Seq<FragmentView>>>,
    pub acc: WriteAcc,
}

/// The pending leaves written anew in their place.
pub open spec fn pending_written(
    p: Progress,
    names: Names,
    records: Seq<FragmentView>,
    config: FragmentMetadataTreeConfig,
) -> Result<Progress, Halt> {
    match store::put_leaves(p.store, names, records, drain::ceiling(p.store), config) {
        Err(halt) => Err(halt),
        Ok((after, refs)) => Ok(
            Progress {
                store: after,
                level: p.level.take(p.from) + refs + p.level.skip(p.next),
                held: emptied(p.held, p.from, p.next, refs.len()),
                from: p.from + refs.len(),
                next: p.from + refs.len(),
                pending: None,
                acc: WriteAcc {
                    io_bytes: merge::summed(
                        p.acc.io_bytes,
                        wire::capped(store::ref_bytes(refs)),
                    ),
                    splits: merge::summed(p.acc.splits, (refs.len() - 1) as u64),
                    ..p.acc
                },
            },
        ),
    }
}

/// The work of applying mutations at a leaf.
pub open spec fn apply_work(acc: WriteAcc, actions: Seq<MutationView>, depth: u32) -> WriteAcc {
    WriteAcc {
        flushes: merge::summed(acc.flushes, 1),
        max_flush_depth: if depth > acc.max_flush_depth {
            depth
        } else {
            acc.max_flush_depth
        },
        materialized: merge::summed(acc.materialized, actions.len() as u64),
        ..acc
    }
}

/// The next leaf taken up: its mutations applied where it has some.
pub open spec fn taken_up(p: Progress, depth: u32) -> Result<
    (Progress, Option<Seq<FragmentView>>),
    Halt,
> {
    let actions = p.held[p.next];
    if actions.len() == 0 {
        Ok((p, None))
    } else {
        match bucket_applied(p.store, p.level[p.next], actions) {
            Err(halt) => Err(halt),
            Ok(records) => Ok(
                (Progress { acc: apply_work(p.acc, actions, depth), ..p }, Some(records)),
            ),
        }
    }
}

/// Whether neighbouring leaves of two sizes are joined: one is small, and both
/// fit one leaf.
pub open spec fn neighbours_join(a: u64, b: u64, config: FragmentMetadataTreeConfig) -> bool {
    &&& a <= config.max_leaf_bytes / 4 || b <= config.max_leaf_bytes / 4
    &&& a + b <= config.max_leaf_bytes * 3 / 5
}

/// A leaf behind the pending ones: it joins them, or they are settled and it
/// is pending. Leaves that did not change and are not joined keep their
/// references.
#[verifier::opaque]
pub open spec fn leaf_placed(
    p: Progress,
    names: Names,
    current: Option<Seq<FragmentView>>,
    config: FragmentMetadataTreeConfig,
) -> Result<Progress, Halt> {
    match p.pending {
        None => Ok(Progress { pending: Some(current), next: p.next + 1, ..p }),
        Some(previous) => match (
            pending_size(p.store, previous, p.level[p.from]),
            pending_size(p.store, current, p.level[p.next]),
        ) {
            (Some(a), Some(b)) => if neighbours_join(a, b, config) {
                match pending_rows(p.store, previous, p.level[p.from]) {
                    Err(halt) => Err(halt),
                    Ok(head) => match pending_rows(p.store, current, p.level[p.next]) {
                        Err(halt) => Err(halt),
                        Ok(tail) => if head.len() + tail.len() == 0 {
                            Err(
                                Halt::Fail(
                                    Error::CorruptFile { reason: Reason::LeafContentsDiffer },
                                ),
                            )
                        } else {
                            Ok(
                                Progress {
                                    pending: Some(Some(head + tail)),
                                    next: p.next + 1,
                                    acc: WriteAcc {
                                        merges: merge::summed(p.acc.merges, 1),
                                        ..p.acc
                                    },
                                    ..p
                                },
                            )
                        },
                    },
                }
            } else {
                match previous {
                    None => Ok(
                        Progress {
                            from: p.next,
                            pending: Some(current),
                            next: p.next + 1,
                            ..p
                        },
                    ),
                    Some(records) => match pending_written(p, names, records, config) {
                        Err(halt) => Err(halt),
                        Ok(q) => Ok(Progress { pending: Some(current), next: q.next + 1, ..q }),
                    },
                }
            },
            _ => Err(Halt::Need),
        },
    }
}

/// The next leaf: one that its mutations emptied is dropped.
#[verifier::opaque]
pub open spec fn leaf_visited(
    p: Progress,
    names: Names,
    depth: u32,
    config: FragmentMetadataTreeConfig,
) -> Result<Progress, Halt> {
    match taken_up(p, depth) {
        Err(halt) => Err(halt),
        Ok((q, current)) => if current matches Some(records) && records.len() == 0 {
            Ok(
                Progress {
                    level: q.level.take(q.next) + q.level.skip(q.next + 1),
                    held: drain::drained(q.held, q.next, 0),
                    ..q
                },
            )
        } else {
            leaf_placed(q, names, current, config)
        },
    }
}

/// What visiting the rest of the leaves gives.
#[verifier::opaque]
pub open spec fn leaves_visited(
    p: Progress,
    names: Names,
    depth: u32,
    config: FragmentMetadataTreeConfig,
) -> Result<(StoreView, Seq<ChildView>, WriteAcc), Halt>
    decreases p.level.len() - p.next,
{
    if p.next >= p.level.len() {
        match p.pending {
            Some(Some(records)) => match pending_written(p, names, records, config) {
                Err(halt) => Err(halt),
                Ok(q) => Ok((q.store, q.level, q.acc)),
            },
            _ => Ok((p.store, p.level, p.acc)),
        }
    } else {
        match leaf_visited(p, names, depth, config) {
            Err(halt) => Err(halt),
            Ok(q) => if q.next <= q.level.len() && q.level.len() - q.next < p.level.len() - p.next {
                leaves_visited(q, names, depth, config)
            } else {
                Err(Halt::Need)
            },
        }
    }
}

proof fn lemma_leaves_visited(
    p: Progress,
    names: Names,
    depth: u32,
    config: FragmentMetadataTreeConfig,
)
    ensures
        p.next < p.level.len() ==> match leaf_visited(p, names, depth, config) {
            Err(halt) => leaves_visited(p, names, depth, config) == Err::<
                (StoreView, Seq<ChildView>, WriteAcc),
                Halt,
            >(halt),
            Ok(q) => q.next <= q.level.len() && q.level.len() - q.next < p.level.len() - p.next
                ==> leaves_visited(
                p,
                names,
                depth,
                config,
            ) == leaves_visited(q, names, depth, config),
        },
        p.next >= p.level.len() ==> leaves_visited(p, names, depth, config) == match p.pending {
            Some(Some(records)) => match pending_written(p, names, records, config) {
                Err(halt) => Err(halt),
                Ok(q) => Ok((q.store, q.level, q.acc)),
            },
            _ => Ok((p.store, p.level, p.acc)),
        },
{
    reveal_with_fuel(leaves_visited, 2);
}

/// What materializing a tree gives: everything buffered reaches a leaf.
#[verifier::opaque]
pub open spec fn materialized(
    store: StoreView,
    names: Names,
    children: Seq<ChildView>,
    buffer: Seq<MutationView>,
    config: FragmentMetadataTreeConfig,
) -> Result<(StoreView, Seq<ChildView>, WriteAcc), Halt> {
    match descended(store, children, buffer, children[0].height as nat) {
        Err(halt) => Err(halt),
        Ok((leaves, pending)) => match split::routing_fault(
            leaves,
            split::buckets(leaves, pending),
            node::ROOT_EXCLUSIVE_END,
            leaves.len() as int,
        ) {
            Some(reason) => Err(Halt::Fail(Error::CorruptFile { reason })),
            None => leaves_visited(
                Progress {
                    store,
                    level: leaves,
                    held: split::buckets(leaves, pending),
                    from: 0,
                    next: 0,
                    pending: None,
                    acc: WriteAcc::nothing(),
                },
                names,
                children[0].height,
                config,
            ),
        },
    }
}

/// The encoded size of a leaf that may not be written yet.
fn pending_bytes(store: &NodeStore, leaf: &PendingLeaf, child: &FragmentMetadataChild) -> (r: Result<
    u64,
    Stop,
>)
    ensures
        r matches Err(stop) ==> store::honest(stop, store@) && stop is Need,
        pending_size(store@, leaf.rows(), child@) == match r {
            Ok(bytes) => Some(bytes),
            Err(_) => None,
        },
{
    match leaf {
        PendingLeaf::Unchanged => Ok(child.object_size),
        PendingLeaf::Changed(records) => store.leaf_size(records),
    }
}

/// The records of a leaf that may not be written yet.
fn pending_records(
    store: &NodeStore,
    leaf: PendingLeaf,
    child: &FragmentMetadataChild,
    Ghost(actions): Ghost<Seq<MutationView>>,
) -> (r: Result<Vec<Fragment>, Stop>)
    requires
        leaf is Unchanged ==> actions.len() == 0,
    ensures
        match r {
            Ok(records) => match leaf {
                PendingLeaf::Unchanged => yields(store@, child@, actions, views::all(records@)),
                PendingLeaf::Changed(given) => records == given,
            },
            Err(stop) => store::honest(stop, store@) && !(stop is Collapsed),
        },
        pending_rows(store@, leaf.rows(), child@) == match r {
            Ok(records) => Ok(views::all(records@)),
            Err(stop) => Err(stop.halt()),
        },
{
    match leaf {
        PendingLeaf::Changed(records) => Ok(records),
        PendingLeaf::Unchanged => {
            match store.read_leaf(child) {
                Err(stop) => Err(stop),
                Ok(records) => {
                    proof {
                        steps::lemma_leaf_shape(store@, child@);
                        lemma_untouched(views::all(records@), actions);
                    }
                    Ok(records)
                },
            }
        },
    }
}

/// No mutations change no records.
proof fn lemma_untouched(records: Seq<FragmentView>, actions: Seq<MutationView>)
    requires
        store::ascending(records),
        actions.len() == 0,
    ensures
        replay::replayed(steps::indexed(records), actions, true) == (
            steps::indexed(records),
            None::<Error>,
        ),
        steps::lists(records, steps::indexed(records)),
{
    assert(order::sorted(actions, false) == actions);
    assert(order::sorted(actions, true) == actions);
    assert(order::distinct(actions));
    assert(replay::first_fault(actions) is None);
    assert forall|key: u64| #[trigger] world::found(records, key) == replay::lookup(
        steps::indexed(records),
        key,
    ) by {}
}

/// Put other children in the place of a range.
fn splice_range(
    children: Vec<FragmentMetadataChild>,
    from: usize,
    to: usize,
    refs: Vec<FragmentMetadataChild>,
) -> (r: Vec<FragmentMetadataChild>)
    requires
        from <= to <= children@.len(),
    ensures
        views::all(r@) == views::all(children@).take(from as int) + views::all(refs@) + views::all(
            children@,
        ).skip(to as int),
{
    let ghost all = views::all(children@);
    let ghost new = views::all(refs@);
    let mut out = children;
    let mut refs = refs;
    let mut tail = out.split_off(to);
    let removed = out.split_off(from);
    out.append(&mut refs);
    out.append(&mut tail);
    assert(views::all(out@) =~= all.take(from as int) + new + all.skip(to as int));
    out
}

/// Replace a range of buckets by empty ones.
fn empty_range(buckets: Buckets, from: usize, to: usize, count: usize) -> (r: Buckets)
    requires
        from < to <= buckets.held().len(),
    ensures
        r.held() == emptied(buckets.held(), from as int, to as int, count as nat),
{
    let ghost held = buckets.held();
    let mut left = buckets;
    let mut at: usize = to;
    // All but the first of the range go; the first makes room for the new.
    while at > from + 1
        invariant
            from < at <= to <= held.len(),
            left.held() == held.take(at as int) + held.skip(to as int),
        decreases at,
    {
        at = at - 1;
        let ghost now = left.held();
        left = left.replace(at, 0);
        proof {
            assert(now.take(at as int) =~= held.take(at as int));
            assert(now.skip(at + 1) =~= held.skip(to as int));
            assert(Seq::new(0, |i: int| Seq::<MutationView>::empty()) =~= Seq::<
                Seq<MutationView>,
            >::empty());
            assert(left.held() =~= held.take(at as int) + held.skip(to as int));
        }
    }
    proof {
        assert(held.take(to as int) + held.skip(to as int) =~= held);
    }
    let ghost now = left.held();
    let done = left.replace(from, count);
    proof {
        assert(now.take(from as int) =~= held.take(from as int));
        assert(now.skip(from + 1) =~= held.skip(to as int));
        assert(done.held() =~= emptied(held, from as int, to as int, count as nat));
    }
    done
}

/// A materialization under way.
struct Walk {
    level: Vec<FragmentMetadataChild>,
    buckets: Buckets,
    from: usize,
    next: usize,
    pending: Option<PendingLeaf>,
    acc: WriteAcc,
}

impl Walk {
    spec fn progress(self, store: StoreView) -> Progress {
        Progress {
            store,
            level: views::all(self.level@),
            held: self.buckets.held(),
            from: self.from as int,
            next: self.next as int,
            pending: match self.pending {
                None => None,
                Some(leaf) => Some(leaf.rows()),
            },
            acc: self.acc,
        }
    }
}

/// Whether some neighbouring leaves and the mutations for them come to some
/// records.
spec fn came_to(p: Progress, from: int, to: int, records: Seq<FragmentView>) -> bool {
    exists|rows: Seq<Seq<FragmentView>>| #[trigger]
        all_yield(p.store, p.level.subrange(from, to), p.held.subrange(from, to), rows)
            && records == joined(rows)
}

/// What every step of a materialization keeps.
spec fn going(
    before: StoreView,
    p: Progress,
    first: Seq<ChildView>,
    first_buffer: Seq<MutationView>,
) -> bool {
    &&& 0 <= p.from <= p.next <= p.level.len()
    &&& p.held.len() == p.level.len()
    &&& steps::shaped(p.level, 0, 0)
    &&& drain::above_fences(p.level, p.held)
    &&& merge::grown(before, p.store)
    &&& drain::flushing(
        before,
        p.store,
        first,
        first_buffer,
        p.level,
        p.held,
        drain::ceiling(before) as int,
    )
    &&& forall|k: int| 0 <= k < p.from ==> (#[trigger] p.held[k]).len() == 0
    &&& match p.pending {
        None => p.from == p.next,
        Some(None) => p.next == p.from + 1 && p.held[p.from].len() == 0,
        Some(Some(records)) => p.from < p.next && came_to(p, p.from, p.next, records)
            && records.len() > 0,
    }
    &&& store::booked(p.acc.io_bytes, before, p.store)
}

/// Whether the next leaf comes to some records, or keeps its own.
spec fn ready(p: Progress, current: Option<Seq<FragmentView>>) -> bool {
    &&& p.next < p.level.len()
    &&& match current {
        None => p.held[p.next].len() == 0,
        Some(records) => records.len() > 0 && yields(
            p.store,
            p.level[p.next],
            p.held[p.next],
            records,
        ),
    }
}

/// Dropping the next leaf, which its mutations emptied.
proof fn lemma_going_drop(
    before: StoreView,
    p: Progress,
    first: Seq<ChildView>,
    first_buffer: Seq<MutationView>,
)
    requires
        going(before, p, first, first_buffer),
        p.next < p.level.len(),
        yields(p.store, p.level[p.next], p.held[p.next], Seq::empty()),
    ensures
        going(
            before,
            (Progress {
                level: p.level.take(p.next) + p.level.skip(p.next + 1),
                held: drain::drained(p.held, p.next, 0),
                ..p
            }),
            first,
            first_buffer,
        ),
{
    let i = p.next;
    let none = merge::no_children();
    let level = p.level.take(i) + p.level.skip(i + 1);
    let held = drain::drained(p.held, i, 0);
    let q = Progress { level, held, ..p };
    assert(p.level[i].height == 0);
    lemma_flushing_drop(
        before,
        p.store,
        first,
        first_buffer,
        p.level,
        p.held,
        i,
        drain::ceiling(before) as int,
    );
    assert(level =~= p.level.take(i) + none + p.level.skip(i + 1));
    assert(steps::shaped(none, 0, p.level[i].min_key as int));
    drain::lemma_spliced(p.level, p.held, i, none, 0, 0);
    assert forall|k: int| 0 <= k < i implies #[trigger] held[k] == p.held[k] by {}
    assert(level.subrange(p.from, i) =~= p.level.subrange(p.from, i));
    assert(held.subrange(p.from, i) =~= p.held.subrange(p.from, i));
    if let Some(Some(records)) = p.pending {
        let rows = choose|rows: Seq<Seq<FragmentView>>| #[trigger]
            all_yield(p.store, p.level.subrange(p.from, i), p.held.subrange(p.from, i), rows)
                && records == joined(rows);
        assert(all_yield(q.store, q.level.subrange(p.from, i), q.held.subrange(p.from, i), rows));
    }
}

/// The next leaf is pending where nothing was.
proof fn lemma_going_first(
    before: StoreView,
    p: Progress,
    current: Option<Seq<FragmentView>>,
    first: Seq<ChildView>,
    first_buffer: Seq<MutationView>,
)
    requires
        going(before, p, first, first_buffer),
        ready(p, current),
        p.pending matches None || p.pending == Some(None::<Seq<FragmentView>>),
    ensures
        going(
            before,
            (Progress { from: p.next, pending: Some(current), next: p.next + 1, ..p }),
            first,
            first_buffer,
        ),
{
    let q = Progress { from: p.next, pending: Some(current), next: p.next + 1, ..p };
    if let Some(records) = current {
        lemma_single(p.store, p.level, p.held, p.next, records);
        assert(all_yield(
            q.store,
            q.level.subrange(q.from, q.next),
            q.held.subrange(q.from, q.next),
            seq![records],
        ));
        assert(came_to(q, q.from, q.next, records));
    }
}

/// The next leaf joins the pending ones.
proof fn lemma_going_join(
    before: StoreView,
    p: Progress,
    previous: Option<Seq<FragmentView>>,
    current: Option<Seq<FragmentView>>,
    head: Seq<FragmentView>,
    tail: Seq<FragmentView>,
    acc: WriteAcc,
    first: Seq<ChildView>,
    first_buffer: Seq<MutationView>,
)
    requires
        going(before, p, first, first_buffer),
        ready(p, current),
        p.pending == Some(previous),
        pending_rows(p.store, previous, p.level[p.from]) == Ok::<Seq<FragmentView>, Halt>(head),
        pending_rows(p.store, current, p.level[p.next]) == Ok::<Seq<FragmentView>, Halt>(tail),
        head.len() + tail.len() > 0,
        acc.io_bytes == p.acc.io_bytes,
    ensures
        going(
            before,
            (Progress { pending: Some(Some(head + tail)), next: p.next + 1, acc, ..p }),
            first,
            first_buffer,
        ),
{
    let q = Progress { pending: Some(Some(head + tail)), next: p.next + 1, acc, ..p };
    let rows = match previous {
        Some(records) => choose|rows: Seq<Seq<FragmentView>>| #[trigger]
            all_yield(
                p.store,
                p.level.subrange(p.from, p.next),
                p.held.subrange(p.from, p.next),
                rows,
            ) && records == joined(rows),
        None => seq![head],
    };
    if previous is None {
        steps::lemma_leaf_shape(p.store, p.level[p.from]);
        lemma_untouched(head, p.held[p.from]);
        lemma_single(p.store, p.level, p.held, p.from, head);
    }
    if current is None {
        steps::lemma_leaf_shape(p.store, p.level[p.next]);
        lemma_untouched(tail, p.held[p.next]);
    }
    lemma_extend(p.store, p.level, p.held, p.from, p.next, rows, tail);
    assert(all_yield(
        q.store,
        q.level.subrange(q.from, q.next),
        q.held.subrange(q.from, q.next),
        rows.push(tail),
    ));
    assert(came_to(q, q.from, q.next, head + tail));
}

/// Write the pending leaves, which changed.
#[verifier::rlimit(60)]
fn write_pending(
    store: &mut NodeStore,
    walk: Walk,
    config: &FragmentMetadataTreeConfig,
    Ghost(origin): Ghost<StoreView>,
    Ghost(first): Ghost<Seq<ChildView>>,
    Ghost(first_buffer): Ghost<Seq<MutationView>>,
) -> (r: Result<Walk, Stop>)
    requires
        config.valid(),
        going(origin, walk.progress(old(store)@), first, first_buffer),
        walk.pending matches Some(PendingLeaf::Changed(_)),
    ensures
        match r {
            Ok(done) => {
                let p = walk.progress(old(store)@);
                let q = done.progress(final(store)@);
                &&& going(origin, q, first, first_buffer)
                &&& done.pending is None
                &&& q.level.len() - q.next == p.level.len() - p.next
                &&& p.next < p.level.len() ==> q.level[q.next] == p.level[p.next]
                    && q.held[q.next] == p.held[p.next]
            },
            Err(stop) => store::honest(stop, old(store)@) && !(stop is Collapsed),
        },
        merge::grown(old(store)@, final(store)@),
        forall|names: Names| #[trigger]
            names.fit(final(store)@) ==> pending_written(
                walk.progress(old(store)@),
                names,
                walk.progress(old(store)@).pending->0->0,
                *config,
            ) == match r {
                Ok(done) => Ok(done.progress(final(store)@)),
                Err(stop) => Err(stop.halt()),
            },
{
    let ghost before = store@;
    let ghost p = walk.progress(before);
    let ghost cap = drain::ceiling(origin) as int;
    let Walk { level, buckets, from, next, pending, acc } = walk;
    let mut acc = acc;
    let records = match pending {
        Some(PendingLeaf::Changed(records)) => records,
        _ => Vec::new(),
    };
    let ghost listed = views::all(records@);
    let ghost rows = choose|rows: Seq<Seq<FragmentView>>| #[trigger]
        all_yield(
            p.store,
            p.level.subrange(p.from, p.next),
            p.held.subrange(p.from, p.next),
            rows,
        ) && listed == joined(rows);
    let watermark: u64 = store.next_action_sequence.saturating_sub(1);
    let total: usize = records.len();
    let ghost parts = store::halves(before, listed, 0, listed.len() as int, config.max_leaf_bytes);
    let written = match store.write_leaves(&records, watermark, config) {
        Err(stop) => {
            return Err(stop);
        },
        Ok(written) => written,
    };
    let ghost refs = store::refs_of(written@);
    let count: usize = written.len();
    let (out, bytes) = merge::take_refs(written);
    let kids = splice_range(level, from, next, out);
    let left = empty_range(buckets, from, next, count);
    proof {
        store::lemma_halves(before, listed, 0, listed.len() as int, config.max_leaf_bytes);
        store::lemma_leaves_written(before, store@, refs, listed, parts, watermark);
        assert forall|i: int| 0 <= i < listed.len() implies (#[trigger] listed[i]).id >= 0 by {}
        steps::lemma_leaf_refs_from(before, store@, refs, listed, parts, watermark, 0);
        lemma_flushing_group(
            origin,
            before,
            store@,
            first,
            first_buffer,
            p.level,
            p.held,
            p.from,
            p.next,
            rows,
            parts,
            refs,
            watermark,
            cap,
        );
        lemma_group_shape(p.level, p.held, p.from, p.next, refs);
        store::lemma_extends_transitive(origin, before, store@);
        store::lemma_booked_join(acc.io_bytes, bytes, origin, before, store@);
        let h2 = left.held();
        assert forall|k: int| 0 <= k < from + count implies (#[trigger] h2[k]).len() == 0 by {
            if k < from {
                assert(h2[k] == p.held[k]);
            }
        }
        if p.next < p.level.len() {
            assert(views::all(kids@)[from + count] == p.level[p.next]);
            assert(h2[from + count] == p.held[p.next]);
        }
    }
    acc.io_bytes = acc.io_bytes.saturating_add(bytes);
    acc.splits = acc.splits.saturating_add((count - 1) as u64);
    let size: usize = kids.len();
    let after: usize = from + count;
    Ok(
        Walk {
            level: kids,
            buckets: left,
            from: after,
            next: after,
            pending: None,
            acc,
        },
    )
}

/// The shape of a level some of whose leaves were written anew.
proof fn lemma_group_shape(
    level: Seq<ChildView>,
    held: Seq<Seq<MutationView>>,
    from: int,
    to: int,
    refs: Seq<ChildView>,
)
    requires
        0 <= from < to <= level.len(),
        held.len() == level.len(),
        steps::shaped(level, 0, 0),
        steps::shaped(refs, 0, 0),
        drain::above_fences(level, held),
    ensures
        steps::shaped(level.take(from) + refs + level.skip(to), 0, 0),
        drain::above_fences(
            level.take(from) + refs + level.skip(to),
            emptied(held, from, to, refs.len()),
        ),
        emptied(held, from, to, refs.len()).len() == (level.take(from) + refs + level.skip(
            to,
        )).len(),
{
    let new = level.take(from) + refs + level.skip(to);
    let count = refs.len() as int;
    assert forall|i: int| 0 <= i < new.len() implies (#[trigger] new[i]).height == 0
        && new[i].min_key >= 0 && new[i].num_keys > 0 by {
        if i < from {
            assert(new[i] == level[i]);
        } else if i < from + count {
            assert(new[i] == refs[i - from]);
        } else {
            assert(new[i] == level[i - count + (to - from)]);
        }
    }
    let h2 = emptied(held, from, to, refs.len());
    assert forall|i: int, j: int| 0 <= i < h2.len() && 0 <= j < h2[i].len() implies (
    #[trigger] h2[i][j]).key() >= new[i].min_key by {
        if i < from {
            assert(h2[i] == held[i]);
            assert(held[i][j].key() >= level[i].min_key);
        } else if i >= from + count {
            let k = i - count + (to - from);
            assert(h2[i] == held[k]);
            assert(held[k][j].key() >= level[k].min_key);
        } else {
            assert(h2[i].len() == 0);
        }
    }
}

/// The records of a leaf once its mutations are applied.
fn apply_bucket(
    store: &NodeStore,
    child: &FragmentMetadataChild,
    actions: Vec<FragmentMetadataMutation>,
) -> (r: Result<Vec<Fragment>, Stop>)
    ensures
        match r {
            Ok(records) => yields(store@, child@, views::all(actions@), views::all(records@)),
            Err(stop) => store::honest(stop, store@) && !(stop is Collapsed),
        },
        bucket_applied(store@, child@, views::all(actions@)) == match r {
            Ok(records) => Ok(views::all(records@)),
            Err(stop) => Err(stop.halt()),
        },
{
    let ghost s = views::all(actions@);
    let stored = match store.read_leaf(child) {
        Err(stop) => {
            return Err(stop);
        },
        Ok(stored) => stored,
    };
    let ghost given = views::all(stored@);
    let ghost state = steps::indexed(given);
    let ghost after = replay::replayed(state, s, true).0;
    proof {
        steps::lemma_leaf_shape(store@, child@);
    }
    let mut map = drain::index_records(stored);
    match replay::apply_verified(&mut map, actions) {
        Err(error) => {
            return Err(Stop::Fail(error));
        },
        Ok(()) => {},
    }
    proof {
        assert forall|key: u64| #[trigger] state.contains_key(key) implies state[key].id == key by {
            let i = leaves::lemma_found_some(given, key);
        }
        drain::lemma_replayed_ids(state, s, true);
        assert forall|key: u64| #[trigger] map@.contains_key(key) implies map@[key]@.id == key by {
            assert(after.contains_key(key));
            assert(after[key] == map@[key]@);
        }
    }
    let records = drain::list_records(&map);
    proof {
        drain::lemma_listing(views::all(records@), after);
    }
    Ok(records)
}

/// Dropping a leaf that its mutations emptied.
proof fn lemma_flushing_drop(
    s0: StoreView,
    s1: StoreView,
    children: Seq<ChildView>,
    buffer: Seq<MutationView>,
    now: Seq<ChildView>,
    held: Seq<Seq<MutationView>>,
    at: int,
    cap: int,
)
    requires
        drain::flushing(s0, s1, children, buffer, now, held, cap),
        0 <= at < now.len(),
        held.len() == now.len(),
        now[at].height == 0,
        yields(s1, now[at], held[at], Seq::empty()),
        cap >= 0,
    ensures
        drain::flushing(
            s0,
            s1,
            children,
            buffer,
            now.take(at) + merge::no_children() + now.skip(at + 1),
            drain::drained(held, at, 0),
            cap,
        ),
{
    let none = merge::no_children();
    let records = Seq::<FragmentView>::empty();
    let parts = Seq::<(int, int)>::empty();
    store::lemma_extends_self(s1);
    assert(store::wrote_leaves(s1, s1, none, records, parts, 0));
    steps::lemma_settles(s1, now[at], held[at], records);
    steps::step_leaves(s1, s1, now[at], held[at], records, parts, none, 0);
    assert(node::fenced(none, now[at].min_key) =~= none);
    reveal(world::faithful);
    assert(world::faithful(
        s1,
        s1,
        seq![now[at]],
        held[at],
        none,
        levels::no_mutations(),
        cap,
    ));
    drain::lemma_flushing_drain(s0, s1, s1, children, buffer, now, held, at, none, cap);
}

/// Flattened empty buckets hold nothing.
proof fn lemma_flattened_empty(held: Seq<Seq<MutationView>>)
    requires
        forall|i: int| 0 <= i < held.len() ==> (#[trigger] held[i]).len() == 0,
    ensures
        flush::flattened(held) == levels::no_mutations(),
    decreases held.len(),
{
    if held.len() > 0 {
        let rest = held.drop_last();
        assert forall|i: int| 0 <= i < rest.len() implies (#[trigger] rest[i]).len() == 0 by {
            assert(rest[i] == held[i]);
        }
        lemma_flattened_empty(rest);
        assert(held.last() == held[held.len() - 1]);
    }
    assert(flush::flattened(held) =~= levels::no_mutations());
}

/// Put the next leaf behind the pending ones: it joins them, or they are
/// settled first.
#[verifier::rlimit(60)]
fn place_leaf(
    store: &mut NodeStore,
    walk: Walk,
    current: PendingLeaf,
    config: &FragmentMetadataTreeConfig,
    Ghost(origin): Ghost<StoreView>,
    Ghost(first): Ghost<Seq<ChildView>>,
    Ghost(first_buffer): Ghost<Seq<MutationView>>,
) -> (r: Result<Walk, Stop>)
    requires
        config.valid(),
        going(origin, walk.progress(old(store)@), first, first_buffer),
        ready(walk.progress(old(store)@), current.rows()),
    ensures
        match r {
            Ok(done) => {
                let p = walk.progress(old(store)@);
                let q = done.progress(final(store)@);
                &&& going(origin, q, first, first_buffer)
                &&& q.level.len() - q.next < p.level.len() - p.next
            },
            Err(stop) => store::honest(stop, old(store)@) && !(stop is Collapsed),
        },
        merge::grown(old(store)@, final(store)@),
        forall|names: Names| #[trigger]
            names.fit(final(store)@) ==> leaf_placed(
                walk.progress(old(store)@),
                names,
                current.rows(),
                *config,
            ) == match r {
                Ok(done) => Ok(done.progress(final(store)@)),
                Err(stop) => Err(stop.halt()),
            },
{
    let ghost before = store@;
    let ghost p = walk.progress(before);
    let ghost now = current.rows();
    let mut walk = walk;
    let size: usize = walk.level.len();
    proof {
        reveal(leaf_placed);
        store::lemma_extends_self(before);
    }
    if walk.pending.is_none() {
        walk.pending = Some(current);
        walk.next = walk.next + 1;
        proof {
            lemma_going_first(origin, p, now, first, first_buffer);
        }
        return Ok(walk);
    }
    let mut taken: Option<PendingLeaf> = None;
    core::mem::swap(&mut taken, &mut walk.pending);
    let previous = match taken {
        Some(previous) => previous,
        None => PendingLeaf::Unchanged,
    };
    let ghost was = previous.rows();
    assert(p.pending == Some(was));
    assert(p.level[p.from] == walk.level@[walk.from as int]@);
    assert(p.level[p.next] == walk.level@[walk.next as int]@);
    let previous_bytes: u64 = match pending_bytes(store, &previous, &walk.level[walk.from]) {
        Err(stop) => {
            return Err(stop);
        },
        Ok(bytes) => bytes,
    };
    let current_bytes: u64 = match pending_bytes(store, &current, &walk.level[walk.next]) {
        Err(stop) => {
            return Err(stop);
        },
        Ok(bytes) => bytes,
    };
    let small: bool = previous_bytes <= config.leaf_merge_floor() || current_bytes
        <= config.leaf_merge_floor();
    let fits: bool = match previous_bytes.checked_add(current_bytes) {
        Some(bytes) => bytes <= config.leaf_coalesce_ceiling(),
        None => false,
    };
    if small && fits {
        let mut records = match pending_records(
            store,
            previous,
            &walk.level[walk.from],
            Ghost(p.held[p.from]),
        ) {
            Err(stop) => {
                return Err(stop);
            },
            Ok(records) => records,
        };
        let ghost head = views::all(records@);
        let mut more = match pending_records(
            store,
            current,
            &walk.level[walk.next],
            Ghost(p.held[p.next]),
        ) {
            Err(stop) => {
                return Err(stop);
            },
            Ok(records) => records,
        };
        let ghost tail = views::all(more@);
        records.append(&mut more);
        assert(views::all(records@) =~= head + tail);
        walk.acc.merges = walk.acc.merges.saturating_add(1);
        if records.is_empty() {
            // Only leaves without records come to none, which no reference
            // admits.
            return Err(
                Stop::Fail(Error::CorruptFile { reason: Reason::LeafContentsDiffer }),
            );
        }
        walk.pending = Some(PendingLeaf::Changed(records));
        walk.next = walk.next + 1;
        proof {
            lemma_going_join(origin, p, was, now, head, tail, walk.acc, first, first_buffer);
        }
        return Ok(walk);
    }
    if let PendingLeaf::Unchanged = previous {
        walk.from = walk.next;
        walk.pending = Some(current);
        walk.next = walk.next + 1;
        proof {
            lemma_going_first(origin, p, now, first, first_buffer);
        }
        return Ok(walk);
    }
    walk.pending = Some(previous);
    assert(walk.progress(before) == p);
    let mut done = match write_pending(
        store,
        walk,
        config,
        Ghost(origin),
        Ghost(first),
        Ghost(first_buffer),
    ) {
        Err(stop) => {
            return Err(stop);
        },
        Ok(done) => done,
    };
    let ghost q = done.progress(store@);
    let size: usize = done.level.len();
    done.pending = Some(current);
    done.next = done.next + 1;
    proof {
        if now is Some {
            lemma_leaf_read_later(before, store@, p.level[p.next]);
        }
        lemma_going_first(origin, q, now, first, first_buffer);
    }
    Ok(done)
}

/// Visit the next leaf: apply its mutations, drop it where they empty it, and
/// put it behind the pending ones.
#[verifier::rlimit(60)]
fn visit_leaf(
    store: &mut NodeStore,
    walk: Walk,
    depth: u32,
    config: &FragmentMetadataTreeConfig,
    Ghost(origin): Ghost<StoreView>,
    Ghost(first): Ghost<Seq<ChildView>>,
    Ghost(first_buffer): Ghost<Seq<MutationView>>,
) -> (r: Result<Walk, Stop>)
    requires
        config.valid(),
        going(origin, walk.progress(old(store)@), first, first_buffer),
        walk.next < walk.level@.len(),
    ensures
        match r {
            Ok(done) => {
                let p = walk.progress(old(store)@);
                let q = done.progress(final(store)@);
                &&& going(origin, q, first, first_buffer)
                &&& q.level.len() - q.next < p.level.len() - p.next
            },
            Err(stop) => store::honest(stop, old(store)@) && !(stop is Collapsed),
        },
        merge::grown(old(store)@, final(store)@),
        forall|names: Names| #[trigger]
            names.fit(final(store)@) ==> leaf_visited(
                walk.progress(old(store)@),
                names,
                depth,
                *config,
            ) == match r {
                Ok(done) => Ok(done.progress(final(store)@)),
                Err(stop) => Err(stop.halt()),
            },
{
    let ghost before = store@;
    let ghost p = walk.progress(before);
    let mut walk = walk;
    proof {
        reveal(leaf_visited);
        store::lemma_extends_self(before);
        assert(p.level[p.next] == walk.level@[walk.next as int]@);
    }
    let mut current = PendingLeaf::Unchanged;
    if walk.buckets.bucket(walk.next).len() > 0 {
        let actions = clone_mutations(walk.buckets.bucket(walk.next));
        walk.acc.flushes = walk.acc.flushes.saturating_add(1);
        if depth > walk.acc.max_flush_depth {
            walk.acc.max_flush_depth = depth;
        }
        walk.acc.materialized = walk.acc.materialized.saturating_add(actions.len() as u64);
        let records = match apply_bucket(store, &walk.level[walk.next], actions) {
            Err(stop) => {
                return Err(stop);
            },
            Ok(records) => records,
        };
        let ghost q = walk.progress(before);
        assert(going(origin, q, first, first_buffer));
        if records.is_empty() {
            let Walk { level, buckets, from, next, pending, acc } = walk;
            let size: usize = level.len();
            let level = splice_range(level, next, next + 1, Vec::new());
            let buckets = buckets.replace(next, 0);
            proof {
                assert(views::all(records@) =~= Seq::<FragmentView>::empty());
                lemma_going_drop(origin, q, first, first_buffer);
                assert(views::all(level@) =~= q.level.take(q.next) + q.level.skip(q.next + 1));
                assert(buckets.held() =~= drain::drained(q.held, q.next, 0));
            }
            return Ok(Walk { level, buckets, from, next, pending, acc });
        }
        current = PendingLeaf::Changed(records);
    }
    place_leaf(
        store,
        walk,
        current,
        config,
        Ghost(origin),
        Ghost(first),
        Ghost(first_buffer),
    )
}

/// Visit old routing in order, carrying each ancestor's actions to its owning
/// leaf. The last output leaf is deferred across parent boundaries so a later
/// sparse sibling cannot force a read and rewrite of an already emitted
/// replacement. Unchanged leaves are reused unless coalescing needs them. The
/// caller builds final routing over the resulting leaf references.
#[verifier::rlimit(60)]
pub(crate) fn materialize(
    store: &mut NodeStore,
    config: &FragmentMetadataTreeConfig,
    children: Vec<FragmentMetadataChild>,
    buffer: Vec<FragmentMetadataMutation>,
) -> (r: Result<(Vec<FragmentMetadataChild>, WriteAcc), Stop>)
    requires
        config.valid(),
        children@.len() > 0,
        steps::shaped(views::all(children@), children@[0].height as int, 0),
    ensures
        match r {
            Ok((out, acc)) => {
                &&& world::faithful(
                    old(store)@,
                    final(store)@,
                    views::all(children@),
                    views::all(buffer@),
                    views::all(out@),
                    levels::no_mutations(),
                    drain::ceiling(old(store)@) as int,
                )
                &&& steps::shaped(views::all(out@), 0, 0)
                &&& store::booked(acc.io_bytes, old(store)@, final(store)@)
            },
            Err(stop) => store::honest(stop, old(store)@) && !(stop is Collapsed),
        },
        merge::grown(old(store)@, final(store)@),
        forall|names: Names| #[trigger]
            names.fit(final(store)@) ==> materialized(
                old(store)@,
                names,
                views::all(children@),
                views::all(buffer@),
                *config,
            ) == merge::told(r, final(store)@),
{
    let ghost before = store@;
    let ghost given = views::all(children@);
    let ghost given_buffer = views::all(buffer@);
    let ghost cap = drain::ceiling(before) as int;
    proof {
        reveal(materialized);
        store::lemma_extends_self(before);
        assert(given[0] == children@[0]@);
    }
    let (leaf_refs, pending_actions, depth) = match descend(store, children, buffer) {
        Err(stop) => {
            return Err(stop);
        },
        Ok(done) => done,
    };
    let ghost first = views::all(leaf_refs@);
    let ghost first_buffer = views::all(pending_actions@);
    let buckets = match drain::route_buffer(
        &leaf_refs,
        pending_actions,
        node::ROOT_EXCLUSIVE_END,
        Ghost(before),
    ) {
        Err(error) => {
            return Err(Stop::Fail(error));
        },
        Ok(buckets) => buckets,
    };
    let mut walk = Walk {
        level: leaf_refs,
        buckets,
        from: 0,
        next: 0,
        pending: None,
        acc: WriteAcc::new(),
    };
    let ghost start = walk.progress(before);
    assert(going(before, start, first, first_buffer));
    while walk.next < walk.level.len()
        invariant
            config.valid(),
            before == old(store)@,
            given == views::all(children@),
            given_buffer == views::all(buffer@),
            depth == given[0].height,
            going(before, walk.progress(store@), first, first_buffer),
            forall|names: Names| #[trigger]
                names.fit(store@) ==> materialized(before, names, given, given_buffer, *config)
                    == leaves_visited(walk.progress(store@), names, depth, *config),
        decreases walk.level@.len() - walk.next,
    {
        let ghost p = walk.progress(store@);
        let ghost middle = store@;
        walk = match visit_leaf(
            store,
            walk,
            depth,
            config,
            Ghost(before),
            Ghost(first),
            Ghost(first_buffer),
        ) {
            Err(stop) => {
                proof {
                    store::lemma_extends_lacks(before, middle, stop);
                    store::lemma_extends_transitive(before, middle, store@);
                    assert forall|names: Names| #[trigger] names.fit(store@) implies materialized(
                        before,
                        names,
                        given,
                        given_buffer,
                        *config,
                    ) == Err::<(StoreView, Seq<ChildView>, WriteAcc), Halt>(stop.halt()) by {
                        lemma_leaves_visited(p, names, depth, *config);
                    }
                }
                return Err(stop);
            },
            Ok(done) => done,
        };
        proof {
            assert forall|names: Names| #[trigger] names.fit(store@) implies materialized(
                before,
                names,
                given,
                given_buffer,
                *config,
            ) == leaves_visited(walk.progress(store@), names, depth, *config) by {
                lemma_leaves_visited(p, names, depth, *config);
            }
        }
    }
    let ghost p = walk.progress(store@);
    let ghost middle = store@;
    let mut changed: bool = false;
    if let Some(PendingLeaf::Changed(_)) = &walk.pending {
        changed = true;
    }
    if changed {
        walk = match write_pending(
            store,
            walk,
            config,
            Ghost(before),
            Ghost(first),
            Ghost(first_buffer),
        ) {
            Err(stop) => {
                proof {
                    store::lemma_extends_lacks(before, middle, stop);
                    store::lemma_extends_transitive(before, middle, store@);
                    assert forall|names: Names| #[trigger] names.fit(store@) implies materialized(
                        before,
                        names,
                        given,
                        given_buffer,
                        *config,
                    ) == Err::<(StoreView, Seq<ChildView>, WriteAcc), Halt>(stop.halt()) by {
                        lemma_leaves_visited(p, names, depth, *config);
                    }
                }
                return Err(stop);
            },
            Ok(done) => done,
        };
    }
    let ghost q = walk.progress(store@);
    proof {
        assert forall|names: Names| #[trigger] names.fit(store@) implies materialized(
            before,
            names,
            given,
            given_buffer,
            *config,
        ) == Ok::<(StoreView, Seq<ChildView>, WriteAcc), Halt>((q.store, q.level, q.acc)) by {
            lemma_leaves_visited(p, names, depth, *config);
        }
        assert forall|k: int| 0 <= k < q.held.len() implies (#[trigger] q.held[k]).len() == 0 by {}
        lemma_flattened_empty(q.held);
        drain::lemma_flushing_end(before, store@, first, first_buffer, q.level, q.held, cap);
        drain::lemma_faithful_weaken(
            before,
            before,
            given,
            given_buffer,
            first,
            first_buffer,
            cap,
        );
        world::lemma_faithful_transitive(
            before,
            before,
            store@,
            given,
            given_buffer,
            first,
            first_buffer,
            q.level,
            levels::no_mutations(),
            cap,
            cap,
        );
    }
    let Walk { level, buckets: _, from: _, next: _, pending: _, acc } = walk;
    Ok((level, acc))
}

/// One leaf on its own as a group.
proof fn lemma_single(
    store: StoreView,
    now: Seq<ChildView>,
    held: Seq<Seq<MutationView>>,
    at: int,
    row: Seq<FragmentView>,
)
    requires
        0 <= at < now.len(),
        held.len() == now.len(),
    ensures
        yields(store, now[at], held[at], row) ==> all_yield(
            store,
            now.subrange(at, at + 1),
            held.subrange(at, at + 1),
            seq![row],
        ),
        joined(seq![row]) == row,
{
    let rows = seq![row];
    assert(rows.drop_last() =~= Seq::<Seq<FragmentView>>::empty());
    assert(joined(rows.drop_last()) =~= Seq::<FragmentView>::empty());
    assert(joined(rows) =~= row);
    let g = now.subrange(at, at + 1);
    let h = held.subrange(at, at + 1);
    if yields(store, now[at], held[at], row) {
        assert forall|i: int| 0 <= i < rows.len() implies yields(
            store,
            g[i],
            h[i],
            #[trigger] rows[i],
        ) by {
            assert(g[0] == now[at] && h[0] == held[at]);
        }
    }
}

/// One leaf more in a group.
proof fn lemma_extend(
    store: StoreView,
    now: Seq<ChildView>,
    held: Seq<Seq<MutationView>>,
    from: int,
    to: int,
    rows: Seq<Seq<FragmentView>>,
    row: Seq<FragmentView>,
)
    requires
        0 <= from <= to < now.len(),
        held.len() == now.len(),
        all_yield(store, now.subrange(from, to), held.subrange(from, to), rows),
    ensures
        yields(store, now[to], held[to], row) ==> all_yield(
            store,
            now.subrange(from, to + 1),
            held.subrange(from, to + 1),
            rows.push(row),
        ),
        joined(rows.push(row)) == joined(rows) + row,
{
    let longer = rows.push(row);
    assert(longer.drop_last() =~= rows);
    let g = now.subrange(from, to + 1);
    let h = held.subrange(from, to + 1);
    if yields(store, now[to], held[to], row) {
        assert forall|i: int| 0 <= i < longer.len() implies yields(
            store,
            g[i],
            h[i],
            #[trigger] longer[i],
        ) by {
            if i < rows.len() {
                assert(longer[i] == rows[i]);
                assert(now.subrange(from, to)[i] == g[i] && held.subrange(from, to)[i] == h[i]);
                assert(yields(
                    store,
                    now.subrange(from, to)[i],
                    held.subrange(from, to)[i],
                    rows[i],
                ));
            } else {
                assert(g[i] == now[to] && h[i] == held[to]);
            }
        }
    }
}

} // verus!
