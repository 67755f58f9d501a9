//! Flushing buffered mutations towards the leaves.

use std::collections::BTreeMap;

use vstd::prelude::*;

use crate::error::{Error, Reason};
use crate::flush;
use crate::flush::{Buckets, Pressure};
use crate::leaves;
use crate::levels;
use crate::lifting;
use crate::merge;
use crate::merge::WriteAcc;
use crate::node;
use crate::node::{FragmentMetadataTreeConfig, InternalNode};
use crate::order;
use crate::partial;
use crate::pb::{ActionView, ChildView, FragmentMetadataChild, FragmentMetadataMutation, MutationView};
use crate::record::{Fragment, FragmentView};
use crate::replay;
use crate::replay_laws;
use crate::split;
use crate::squash;
use crate::squash_laws;
use crate::steps;
use crate::store;
use crate::store::{Halt, Names, NodeStore, Stop, StoreView};
use crate::views;
use crate::wire;
use crate::world;
use crate::world::World;

verus! {

broadcast use {crate::store::group_names, crate::views::group_views, vstd::std_specs::btree::group_btree_axioms, vstd::laws_cmp::group_laws_cmp};

/// Records that ascend, with one more behind them.
pub(crate) proof fn lemma_found_push(records: Seq<FragmentView>, x: FragmentView, key: u64)
    requires
        store::ascending(records.push(x)),
    ensures
        world::found(records.push(x), key) == if x.id == key {
            Some(x)
        } else {
            world::found(records, key)
        },
{
    let all = records.push(x);
    assert(store::ascending(records)) by {
        assert forall|i: int, j: int| 0 <= i < j < records.len() implies (#[trigger] records[i]).id
            < (#[trigger] records[j]).id by {
            assert(all[i] == records[i] && all[j] == records[j]);
        }
    }
    if x.id == key {
        assert(all[records.len() as int] == x);
        leaves::lemma_found(all, records.len() as int);
    } else if world::found(all, key) is Some {
        let i = leaves::lemma_found_some(all, key);
        assert(i < records.len());
        assert(records[i] == all[i]);
        leaves::lemma_found(records, i);
    } else if world::found(records, key) is Some {
        let i = leaves::lemma_found_some(records, key);
        assert(all[i] == records[i]);
    }
}

/// Records by id.
pub(crate) fn index_records(records: Vec<Fragment>) -> (r: BTreeMap<u64, Fragment>)
    requires
        store::ascending(views::all(records@)),
    ensures
        replay::records(r@) == steps::indexed(views::all(records@)),
{
    let ghost given = views::all(records@);
    let mut map: BTreeMap<u64, Fragment> = BTreeMap::new();
    for record in iter: records
        invariant
            iter.seq() == records@,
            given == views::all(records@),
            store::ascending(given),
            forall|key: u64| #[trigger]
                replay::lookup(replay::records(map@), key) == world::found(
                    given.take(iter.index() as int),
                    key,
                ),
    {
        let ghost n = iter.index() as int;
        let ghost before = replay::records(map@);
        proof {
            let longer = given.take(n + 1);
            assert(longer =~= given.take(n).push(given[n]));
            assert(given[n] == record@);
            assert(store::ascending(longer)) by {
                assert forall|i: int, j: int| 0 <= i < j < longer.len() implies (
                #[trigger] longer[i]).id < (#[trigger] longer[j]).id by {
                    assert(given[i].id < given[j].id);
                }
            }
            assert forall|key: u64| #[trigger] world::found(longer, key) == if record@.id == key {
                Some(record@)
            } else {
                world::found(given.take(n), key)
            } by {
                lemma_found_push(given.take(n), record@, key);
            }
        }
        let ghost old_map = map@;
        let id: u64 = record.id;
        map.insert(id, record);
        proof {
            replay::lemma_records_insert(old_map, id, record);
            assert forall|key: u64| #[trigger]
                replay::lookup(replay::records(map@), key) == world::found(
                    given.take(n + 1),
                    key,
                ) by {
                assert(replay::lookup(before, key) == world::found(given.take(n), key));
            }
        }
    }
    proof {
        assert(given.take(given.len() as int) =~= given);
        assert forall|key: u64| replay::lookup(replay::records(map@), key)
            == #[trigger] replay::lookup(steps::indexed(given), key) by {}
        squash_laws::lemma_lookup_decides(replay::records(map@), steps::indexed(given));
    }
    map
}

/// The records of a map in order of their ids.
pub(crate) fn list_records(map: &BTreeMap<u64, Fragment>) -> (r: Vec<Fragment>)
    requires
        forall|key: u64| #[trigger] map@.contains_key(key) ==> map@[key]@.id == key,
    ensures
        steps::lists(views::all(r@), replay::records(map@)),
{
    let mut out: Vec<Fragment> = Vec::new();
    let pairs = map.iter();
    let ghost all = vstd::std_specs::iter::IteratorSpec::remaining(&pairs);
    let ghost keys = all.map_values(|kv: (&u64, &Fragment)| *kv.0);
    assert(vstd::std_specs::btree::increasing_seq(keys));
    assert forall|i: int, j: int| 0 <= i < j < all.len() implies *(#[trigger] all[i]).0 < *(
    #[trigger] all[j]).0 by {
        assert(keys[i] == *all[i].0 && keys[j] == *all[j].0);
        assert(vstd::std_specs::cmp::OrdSpec::cmp_spec(&keys[i], &keys[j]) is Less);
    }
    for pair in iter: pairs
        invariant
            iter.seq() == all,
            out@.len() == iter.index(),
            forall|i: int| 0 <= i < out@.len() ==> (#[trigger] out@[i])@ == all[i].1@,
    {
        let (_, record) = pair;
        out.push(record.clone());
    }
    proof {
        let listed = views::all(out@);
        let state = replay::records(map@);
        assert forall|i: int| 0 <= i < all.len() implies map@.contains_key(*(#[trigger] all[i]).0)
            && map@[*all[i].0] == *all[i].1 && listed[i] == all[i].1@ && listed[i].id
            == *all[i].0 by {
            assert(out@[i]@ == all[i].1@);
            assert(map@.contains_key(*all[i].0));
        }
        assert(store::ascending(listed)) by {
            assert forall|i: int, j: int| 0 <= i < j < listed.len() implies (
            #[trigger] listed[i]).id < (#[trigger] listed[j]).id by {
                assert(*all[i].0 < *all[j].0);
            }
        }
        assert forall|key: u64| #[trigger] world::found(listed, key) == replay::lookup(
            state,
            key,
        ) by {
            if map@.contains_key(key) {
                assert(all.contains((&key, &map@[key])));
                let i = choose|i: int| 0 <= i < all.len() && all[i] == (&key, &map@[key]);
                assert(*all[i].0 == key);
                assert(listed[i].id == key);
                leaves::lemma_found(listed, i);
            } else if world::found(listed, key) is Some {
                let i = leaves::lemma_found_some(listed, key);
                assert(*all[i].0 == key);
            }
        }
    }
    out
}

/// Replay leaves every record under its own id.
pub proof fn lemma_replayed_ids(
    state: Map<u64, FragmentView>,
    s: Seq<MutationView>,
    check: bool,
)
    requires
        replay::replayed(state, s, check).1 is None,
        forall|key: u64| #[trigger] state.contains_key(key) ==> state[key].id == key,
    ensures
        ({
            let after = replay::replayed(state, s, check).0;
            forall|key: u64| #[trigger] after.contains_key(key) ==> after[key].id == key
        }),
{
    let after = replay::replayed(state, s, check).0;
    replay_laws::law_fragments_replay_independently(state, s, check);
    assert forall|key: u64| #[trigger] after.contains_key(key) implies after[key].id == key by {
        let run = order::run(s, key);
        squash_laws::lemma_run(s, key);
        assert(replay::outcome(replay::lookup(state, key), run, check) == Ok::<
            Option<FragmentView>,
            Error,
        >(replay::lookup(after, key)));
        if state.contains_key(key) {
            assert(state[key].id == key);
        }
        replay_laws::law_replay_keeps_identity(replay::lookup(state, key), run, check, key);
    }
}

/// A record a leaf ends up with was stored or is the target of a mutation.
pub proof fn lemma_replayed_from(
    given: Seq<FragmentView>,
    s: Seq<MutationView>,
    key: u64,
    lower: int,
)
    requires
        replay::replayed(steps::indexed(given), s, true).1 is None,
        replay::replayed(steps::indexed(given), s, true).0.contains_key(key),
        forall|i: int| 0 <= i < given.len() ==> (#[trigger] given[i]).id >= lower,
        forall|i: int| 0 <= i < s.len() ==> (#[trigger] s[i]).key() >= lower,
    ensures
        key >= lower,
{
    let state = steps::indexed(given);
    let after = replay::replayed(state, s, true).0;
    replay_laws::law_fragments_replay_independently(state, s, true);
    let run = order::run(s, key);
    squash_laws::lemma_run(s, key);
    assert(replay::outcome(replay::lookup(state, key), run, true) == Ok::<
        Option<FragmentView>,
        Error,
    >(replay::lookup(after, key)));
    if run.len() > 0 {
        assert(s.contains(run[0]));
        let i = choose|i: int| 0 <= i < s.len() && s[i] == run[0];
        assert(s[i].key() >= lower);
    } else {
        assert(world::found(given, key) is Some);
        let i = leaves::lemma_found_some(given, key);
        assert(given[i].id >= lower);
    }
}

/// The watermark a rewritten leaf gets: every action that was assigned a
/// place is applied or does not concern it.
pub open spec fn ceiling(store: StoreView) -> u64 {
    if store.next_action_sequence == 0 {
        0
    } else {
        (store.next_action_sequence - 1) as u64
    }
}

/// Faithful without a cap is faithful under any.
pub proof fn lemma_faithful_weaken(
    before: StoreView,
    after: StoreView,
    a: Seq<ChildView>,
    x: Seq<MutationView>,
    b: Seq<ChildView>,
    y: Seq<MutationView>,
    cap: int,
)
    requires
        world::faithful(before, after, a, x, b, y, -1),
        cap >= 0,
    ensures
        world::faithful(before, after, a, x, b, y, cap),
{
    reveal(world::faithful);
}

// Pressure.

/// Whether a node with some buffered bytes is over its limits.
pub open spec fn overflows_by(
    children: Seq<ChildView>,
    bytes: u64,
    config: FragmentMetadataTreeConfig,
) -> bool {
    ||| children.len() as u32 > config.max_children_per_node
    ||| wire::capped((wire::capped(node::children_len(children)) + bytes) as nat)
        >= config.max_node_bytes
}

/// How urgently a node has to flush.
pub open spec fn urgency(
    children: Seq<ChildView>,
    bytes: u64,
    retiring: bool,
    config: FragmentMetadataTreeConfig,
) -> Option<Pressure> {
    if overflows_by(children, bytes, config) || bytes >= config.semantic_buffer_bytes {
        Some(Pressure::Pressured)
    } else if retiring {
        Some(Pressure::Relaxed)
    } else {
        None
    }
}

/// Whether some mutation removes a fragment.
pub open spec fn any_retires(s: Seq<MutationView>) -> bool {
    exists|i: int| 0 <= i < s.len() && (#[trigger] s[i]).retires()
}

pub open spec fn any_bucket_retires(held: Seq<Seq<MutationView>>) -> bool {
    exists|i: int| 0 <= i < held.len() && any_retires(#[trigger] held[i])
}

/// Whether a node has nothing to flush: it has no children, no pressure, or
/// no child worth draining.
pub open spec fn settled(
    children: Seq<ChildView>,
    held: Seq<Seq<MutationView>>,
    config: FragmentMetadataTreeConfig,
    io_parallelism: usize,
) -> bool {
    children.len() == 0 || match urgency(
        children,
        wire::capped(flush::held_len(held)),
        any_bucket_retires(held),
        config,
    ) {
        None => true,
        Some(pressure) => flush::selection(
            children,
            held,
            config,
            io_parallelism,
            pressure,
        ).len() == 0,
    }
}

/// Whether a node has no reason to flush at all.
pub open spec fn calm(
    children: Seq<ChildView>,
    buffer: Seq<MutationView>,
    config: FragmentMetadataTreeConfig,
) -> bool {
    children.len() == 0 || urgency(
        children,
        wire::capped(node::buffer_len(buffer)),
        any_retires(buffer),
        config,
    ) is None
}

/// Whether a flush went as far as it goes.
pub open spec fn flushed(
    children: Seq<ChildView>,
    buffer: Seq<MutationView>,
    out: Seq<ChildView>,
    rest: Seq<MutationView>,
    config: FragmentMetadataTreeConfig,
    io_parallelism: usize,
) -> bool {
    ||| calm(children, buffer, config) && rest == buffer
    ||| exists|kids: Seq<ChildView>, held: Seq<Seq<MutationView>>| #[trigger]
        settled(kids, held, config, io_parallelism) && flush::flattened(held) == rest
            && kids.len() == out.len() && forall|i: int|
            0 < i < out.len() ==> #[trigger] out[i] == kids[i]
}

fn find_urgency(
    children: &Vec<FragmentMetadataChild>,
    bytes: u64,
    retiring: bool,
    config: &FragmentMetadataTreeConfig,
) -> (r: Option<Pressure>)
    ensures
        r == urgency(views::all(children@), bytes, retiring, *config),
{
    let empty: Vec<FragmentMetadataMutation> = Vec::new();
    let routing: u64 = node::internal_logical_bytes(children, &empty);
    proof {
        assert(views::all(empty@) =~= Seq::<MutationView>::empty());
        assert(node::buffer_len(views::all(empty@)) == 0);
    }
    let structural: bool = children.len() as u32 > config.max_children_per_node
        || routing.saturating_add(bytes) >= config.max_node_bytes;
    if structural || bytes >= config.semantic_buffer_bytes {
        Some(Pressure::Pressured)
    } else if retiring {
        Some(Pressure::Relaxed)
    } else {
        None
    }
}

fn find_retiring(buffer: &Vec<FragmentMetadataMutation>) -> (r: bool)
    ensures
        r == any_retires(views::all(buffer@)),
{
    let ghost all = views::all(buffer@);
    let mut i: usize = 0;
    while i < buffer.len()
        invariant
            i <= buffer@.len(),
            all == views::all(buffer@),
            forall|k: int| 0 <= k < i ==> !(#[trigger] all[k]).retires(),
        decreases buffer@.len() - i,
    {
        assert(all[i as int] == buffer@[i as int]@);
        if flush::retires_fragment(&buffer[i]) {
            return true;
        }
        i = i + 1;
    }
    false
}

fn find_bucket_retiring(buckets: &Buckets) -> (r: bool)
    ensures
        r == any_bucket_retires(buckets.held()),
{
    let ghost held = buckets.held();
    let count: usize = buckets.len();
    let mut i: usize = 0;
    while i < count
        invariant
            i <= count,
            count == held.len(),
            held == buckets.held(),
            forall|k: int| 0 <= k < i ==> !any_retires(#[trigger] held[k]),
        decreases count - i,
    {
        if find_retiring(buckets.bucket(i)) {
            return true;
        }
        i = i + 1;
    }
    false
}

// Buckets.

/// Whether every bucket holds mutations of keys its child owns alone.
pub open spec fn sorted_out(children: Seq<ChildView>, held: Seq<Seq<MutationView>>) -> bool {
    &&& held.len() == children.len()
    &&& forall|i: int, key: u64|
        0 <= i < held.len() && node::route(children, key) != i ==> #[trigger] order::of_key(
            held[i],
            key,
        ) == Seq::<MutationView>::empty()
}

/// What flattened buckets hold for a key.
pub proof fn lemma_flattened(held: Seq<Seq<MutationView>>, at: int, key: u64)
    requires
        forall|i: int|
            0 <= i < held.len() && i != at ==> #[trigger] order::of_key(held[i], key) == Seq::<
                MutationView,
            >::empty(),
    ensures
        order::of_key(flush::flattened(held), key) == if 0 <= at < held.len() {
            order::of_key(held[at], key)
        } else {
            Seq::<MutationView>::empty()
        },
    decreases held.len(),
{
    if held.len() == 0 {
        levels::lemma_no_run(key);
        assert(flush::flattened(held) =~= levels::no_mutations());
    } else {
        let rest = held.drop_last();
        let n = held.len() - 1;
        assert forall|i: int| 0 <= i < rest.len() && i != at implies #[trigger] order::of_key(
            rest[i],
            key,
        ) == Seq::<MutationView>::empty() by {
            assert(rest[i] == held[i]);
            assert(order::of_key(held[i], key) == Seq::<MutationView>::empty());
        }
        lemma_flattened(rest, at, key);
        lifting::lemma_of_key_add(flush::flattened(rest), held.last(), key);
        assert(held.last() == held[n]);
        if at != n {
            assert(order::of_key(held[n], key) == Seq::<MutationView>::empty());
            if 0 <= at < n {
                assert(rest[at] == held[at]);
            }
        }
        assert(Seq::<MutationView>::empty() + order::of_key(held[n], key) =~= order::of_key(
            held[n],
            key,
        ));
        assert(order::of_key(flush::flattened(rest), key) + Seq::<MutationView>::empty()
            =~= order::of_key(flush::flattened(rest), key));
    }
}

proof fn lemma_held_count_join(a: Seq<Seq<MutationView>>, b: Seq<Seq<MutationView>>)
    ensures
        flush::held_count(a + b) == flush::held_count(a) + flush::held_count(b),
    decreases b.len(),
{
    if b.len() == 0 {
        assert(a + b =~= a);
    } else {
        lemma_held_count_join(a, b.drop_last());
        assert((a + b).drop_last() =~= a + b.drop_last());
        assert((a + b).last() == b.last());
    }
}

proof fn lemma_held_count_empty(n: nat)
    ensures
        flush::held_count(Seq::new(n, |i: int| Seq::<MutationView>::empty())) == 0,
    decreases n,
{
    let s = Seq::new(n, |i: int| Seq::<MutationView>::empty());
    if n > 0 {
        lemma_held_count_empty((n - 1) as nat);
        assert(s.drop_last() =~= Seq::new((n - 1) as nat, |i: int| Seq::<MutationView>::empty()));
    }
}

/// Buckets with one drained and the ones of its new children in its place.
pub open spec fn drained(held: Seq<Seq<MutationView>>, at: int, children: nat) -> Seq<
    Seq<MutationView>,
> {
    held.take(at) + Seq::new(children, |i: int| Seq::<MutationView>::empty()) + held.skip(at + 1)
}

proof fn lemma_drained_count(held: Seq<Seq<MutationView>>, at: int, children: nat)
    requires
        0 <= at < held.len(),
    ensures
        flush::held_count(drained(held, at, children)) + held[at].len() == flush::held_count(held),
{
    let none = Seq::new(children, |i: int| Seq::<MutationView>::empty());
    lemma_held_count_join(held.take(at) + none, held.skip(at + 1));
    lemma_held_count_join(held.take(at), none);
    lemma_held_count_empty(children);
    let one = seq![held[at]];
    assert(held =~= held.take(at) + one + held.skip(at + 1));
    lemma_held_count_join(held.take(at) + one, held.skip(at + 1));
    lemma_held_count_join(held.take(at), one);
    assert(flush::held_count(one) == held[at].len()) by {
        assert(one.drop_last() =~= Seq::<Seq<MutationView>>::empty());
        assert(one.last() == held[at]);
        assert(flush::held_count(one.drop_last()) == 0);
    }
}

/// A level on the way through a flush: it holds what it held at the start,
/// and every bucket holds what its child owns.
#[verifier::opaque]
pub open spec fn flushing(
    before: StoreView,
    after: StoreView,
    children: Seq<ChildView>,
    buffer: Seq<MutationView>,
    now: Seq<ChildView>,
    held: Seq<Seq<MutationView>>,
    cap: int,
) -> bool {
    forall|w: World|
        #![trigger world::agrees(w, after)]
        world::agrees(w, after) && world::all_sound(w, before) && world::sound(w, children, buffer)
            ==> world::all_sound(w, after) && world::refines(
            w,
            children,
            buffer,
            now,
            flush::flattened(held),
            cap,
        ) && sorted_out(now, held)
}

proof fn lemma_flushing_start(
    store: StoreView,
    children: Seq<ChildView>,
    buffer: Seq<MutationView>,
    held: Seq<Seq<MutationView>>,
    cap: int,
)
    requires
        held.len() == children.len(),
        children.len() > 0,
        forall|i: int|
            0 <= i < held.len() ==> #[trigger] held[i] == split::bucket(children, buffer, i),
        cap >= 0,
    ensures
        flushing(store, store, children, buffer, children, held, cap),
{
    assert(sorted_out(children, held)) by {
        assert forall|i: int, key: u64|
            0 <= i < held.len() && node::route(children, key) != i implies #[trigger] order::of_key(
            held[i],
            key,
        ) == Seq::<MutationView>::empty() by {
            assert(held[i] == split::bucket(children, buffer, i));
            steps::lemma_bucket(children, buffer, i, key);
        }
    }
    let flat = flush::flattened(held);
    assert forall|key: u64| #[trigger] world::same_run(flat, buffer, key) by {
        node::lemma_route(children, key);
        let r = node::route(children, key);
        lemma_flattened(held, r, key);
        assert(held[r] == split::bucket(children, buffer, r));
        steps::lemma_bucket(children, buffer, r, key);
    }
    steps::step_regroup(store, children, buffer, flat);
    lemma_faithful_weaken(store, store, children, buffer, children, flat, cap);
    reveal(flushing);
    reveal(world::faithful);
}

pub proof fn lemma_flushing_drain(
    s0: StoreView,
    s1: StoreView,
    s2: StoreView,
    children: Seq<ChildView>,
    buffer: Seq<MutationView>,
    now: Seq<ChildView>,
    held: Seq<Seq<MutationView>>,
    at: int,
    refs: Seq<ChildView>,
    cap: int,
)
    requires
        flushing(s0, s1, children, buffer, now, held, cap),
        s2.extends(s1),
        0 <= at < now.len(),
        held.len() == now.len(),
        world::faithful(s1, s2, seq![now[at]], held[at], refs, levels::no_mutations(), cap),
        refs.len() == 0 || (refs[0].height == now[at].height && refs[0].min_key
            == now[at].min_key),
        cap >= 0,
    ensures
        flushing(
            s0,
            s2,
            children,
            buffer,
            now.take(at) + refs + now.skip(at + 1),
            drained(held, at, refs.len()),
            cap,
        ),
{
    let c = now[at];
    let x = now.take(at);
    let y = now.skip(at + 1);
    let s = seq![c];
    let p = flush::flattened(held);
    let held2 = drained(held, at, refs.len());
    let p2 = flush::flattened(held2);
    let new = x + refs + y;
    assert(now =~= x + s + y);
    reveal(flushing);
    reveal(world::faithful);
    assert forall|w: World|
        #![trigger world::agrees(w, s2)]
        world::agrees(w, s2) && world::all_sound(w, s0) && world::sound(
            w,
            children,
            buffer,
        ) implies world::all_sound(w, s2) && world::refines(
        w,
        children,
        buffer,
        new,
        p2,
        cap,
    ) && sorted_out(new, held2) by {
        world::lemma_agrees_before(w, s1, s2);
        assert(world::sound(w, now, p));
        assert(sorted_out(now, held));
        assert forall|key: u64|
            #![trigger node::route(now, key)]
            levels::inside(x, s, y, key) == (node::route(now, key) == at) by {}
        assert forall|key: u64|
            #![trigger order::of_key(p, key)]
            order::of_key(p, key) == order::of_key(held[node::route(now, key)], key) && 0
                <= node::route(now, key) < now.len() by {
            node::lemma_route(now, key);
            lemma_flattened(held, node::route(now, key), key);
        }
        assert forall|key: u64| levels::inside(x, s, y, key) implies #[trigger] world::same_run(
            held[at],
            p,
            key,
        ) by {
            let r = node::route(now, key);
            let o = order::of_key(p, key);
        }
        assert forall|key: u64| !levels::inside(x, s, y, key) implies #[trigger] order::of_key(
            held[at],
            key,
        ) == Seq::<MutationView>::empty() by {
            let r = node::route(now, key);
        }
        // What is left is what the other buckets hold.
        assert forall|key: u64|
            #![trigger order::of_key(p2, key)]
            order::of_key(p2, key) == if node::route(now, key) == at {
                Seq::<MutationView>::empty()
            } else {
                order::of_key(p, key)
            } by {
            node::lemma_route(now, key);
            let r = node::route(now, key);
            let o = order::of_key(p, key);
            let t = if r < at {
                r
            } else if r == at {
                -1
            } else {
                r - 1 + refs.len()
            };
            assert forall|i: int| 0 <= i < held2.len() && i != t implies #[trigger] order::of_key(
                held2[i],
                key,
            ) == Seq::<MutationView>::empty() by {
                lemma_drained_at(held, at, refs.len(), i);
                levels::lemma_no_run(key);
                if i < at {
                    assert(order::of_key(held[i], key) == Seq::<MutationView>::empty());
                } else if i >= at + refs.len() {
                    let k = i - refs.len() + 1;
                    assert(order::of_key(held[k], key) == Seq::<MutationView>::empty());
                }
            }
            lemma_flattened(held2, t, key);
            if t >= 0 {
                lemma_drained_at(held, at, refs.len(), t);
            }
        }
        assert forall|key: u64| !levels::inside(x, s, y, key) implies #[trigger] world::same_run(
            p2,
            p,
            key,
        ) by {
            let r = node::route(now, key);
            let o = order::of_key(p2, key);
        }
        assert forall|key: u64| levels::inside(x, s, y, key) implies #[trigger] order::of_key(
            p2,
            key,
        ) == Seq::<MutationView>::empty() by {
            let r = node::route(now, key);
        }
        levels::lemma_child_sound(w, x, s, y, p, held[at]);
        levels::lemma_drain(w, x, s, y, p, held[at], refs, p2, cap);
        world::lemma_refines_transitive(w, children, buffer, now, p, new, p2, cap, cap);
        assert(sorted_out(new, held2)) by {
            assert forall|i: int, key: u64|
                0 <= i < held2.len() && node::route(new, key)
                    != i implies #[trigger] order::of_key(held2[i], key) == Seq::<
                MutationView,
            >::empty() by {
                lemma_drained_at(held, at, refs.len(), i);
                levels::lemma_no_run(key);
                levels::lemma_replaced_route(x, s, y, refs, key);
                let r = node::route(now, key);
                node::lemma_route(now, key);
                if i < at {
                    if r == i {
                        assert(!levels::inside(x, s, y, key));
                    }
                    assert(order::of_key(held[i], key) == Seq::<MutationView>::empty());
                } else if i >= at + refs.len() {
                    let k = i - refs.len() + 1;
                    if r == k {
                        assert(!levels::inside(x, s, y, key));
                    }
                    assert(order::of_key(held[k], key) == Seq::<MutationView>::empty());
                }
            }
        }
    }
}

proof fn lemma_drained_at(held: Seq<Seq<MutationView>>, at: int, n: nat, i: int)
    requires
        0 <= at < held.len(),
        0 <= i < held.len() - 1 + n,
    ensures
        drained(held, at, n).len() == held.len() - 1 + n,
        drained(held, at, n)[i] == if i < at {
            held[i]
        } else if i < at + n {
            Seq::<MutationView>::empty()
        } else {
            held[i - n + 1]
        },
{
}

pub proof fn lemma_flushing_end(
    before: StoreView,
    after: StoreView,
    children: Seq<ChildView>,
    buffer: Seq<MutationView>,
    now: Seq<ChildView>,
    held: Seq<Seq<MutationView>>,
    cap: int,
)
    requires
        flushing(before, after, children, buffer, now, held, cap),
    ensures
        world::faithful(
            before,
            after,
            children,
            buffer,
            now,
            flush::flattened(held),
            cap,
        ),
{
    reveal(flushing);
    reveal(world::faithful);
}

// Leaves.

/// How many mutations overwrite a stored record.
pub open spec fn replacing(s: Seq<MutationView>) -> nat {
    s.filter(|m: MutationView| m.replaces()).len()
}

fn count_replacing(actions: &Vec<FragmentMetadataMutation>) -> (r: u64)
    ensures
        r == replacing(views::all(actions@)),
        r <= actions@.len(),
{
    let ghost all = views::all(actions@);
    let count: usize = actions.len();
    let mut n: u64 = 0;
    let mut i: usize = 0;
    while i < actions.len()
        invariant
            i <= actions@.len(),
            count == actions@.len(),
            all == views::all(actions@),
            n == replacing(all.take(i as int)),
            n <= i,
        decreases actions@.len() - i,
    {
        proof {
            reveal(Seq::filter);
            assert(all.take(i + 1).drop_last() =~= all.take(i as int));
            assert(all.take(i + 1).last() == actions@[i as int]@);
        }
        if flush::replaces_fragment(&actions[i]) {
            n = n + 1;
        }
        i = i + 1;
    }
    assert(all.take(all.len() as int) =~= all);
    n
}

/// Whether a mutation puts a whole record for a fragment.
pub open spec fn puts(s: Seq<MutationView>, id: u64) -> bool {
    exists|i: int|
        0 <= i < s.len() && (#[trigger] s[i]).key() == id && (s[i].known() matches Some(
            ActionView::AddFragment(_),
        ))
}

fn find_put(actions: &Vec<FragmentMetadataMutation>, id: u64) -> (r: bool)
    ensures
        r == puts(views::all(actions@), id),
{
    let ghost all = views::all(actions@);
    let mut i: usize = 0;
    while i < actions.len()
        invariant
            i <= actions@.len(),
            all == views::all(actions@),
            forall|k: int|
                0 <= k < i ==> !((#[trigger] all[k]).key() == id && (all[k].known() matches Some(
                    ActionView::AddFragment(_),
                ))),
        decreases actions@.len() - i,
    {
        assert(all[i as int] == actions@[i as int]@);
        if node::action_key(&actions[i]) == id && flush::puts_fragment(&actions[i]) {
            return true;
        }
        i = i + 1;
    }
    false
}

/// The first stored record that is still there and was not put anew.
pub open spec fn survivor(
    given: Seq<FragmentView>,
    after: Map<u64, FragmentView>,
    s: Seq<MutationView>,
    n: int,
) -> Option<u64>
    decreases n,
{
    if n <= 0 {
        None
    } else {
        match survivor(given, after, s, n - 1) {
            Some(id) => Some(id),
            None => if after.contains_key(given[n - 1].id) && !puts(s, given[n - 1].id) {
                Some(given[n - 1].id)
            } else {
                None
            },
        }
    }
}

/// Why mutations cannot be applied to a leaf, where they cannot: replay
/// refuses them, they claim to remove or replace every stored record and do
/// not, or the leaf holds a record at or above its end.
pub open spec fn leaf_refusal(
    child: ChildView,
    given: Seq<FragmentView>,
    s: Seq<MutationView>,
    end: u64,
) -> Option<Error> {
    let (after, error) = replay::replayed(steps::indexed(given), s, true);
    if error is Some {
        error
    } else if claims_all(child, s) && survivor(
        given,
        after,
        s,
        given.len() as int,
    ) is Some {
        Some(
            Error::CorruptFile {
                reason: Reason::RecordSurvives {
                    id: survivor(given, after, s, given.len() as int)->0,
                },
            },
        )
    } else {
        None
    }
}

/// The records of a map, in order of their ids.
pub open spec fn listing(state: Map<u64, FragmentView>) -> Seq<FragmentView> {
    choose|records: Seq<FragmentView>| steps::lists(records, state)
}

/// Records that ascend and hold the same under every id are the same.
proof fn lemma_found_decides(a: Seq<FragmentView>, b: Seq<FragmentView>)
    requires
        store::ascending(a),
        store::ascending(b),
        forall|key: u64| #[trigger] world::found(a, key) == world::found(b, key),
    ensures
        a == b,
    decreases a.len(),
{
    if a.len() == 0 || b.len() == 0 {
        if a.len() > 0 {
            leaves::lemma_found(a, 0);
            assert(world::found(a, a[0].id) == world::found(b, a[0].id));
            let i = leaves::lemma_found_some(b, a[0].id);
        }
        if b.len() > 0 {
            leaves::lemma_found(b, 0);
            assert(world::found(a, b[0].id) == world::found(b, b[0].id));
            let i = leaves::lemma_found_some(a, b[0].id);
        }
        assert(a =~= b);
    } else {
        let x = a.last();
        let y = b.last();
        leaves::lemma_found(a, a.len() - 1);
        leaves::lemma_found(b, b.len() - 1);
        assert(world::found(a, x.id) == world::found(b, x.id));
        assert(world::found(a, y.id) == world::found(b, y.id));
        let i = leaves::lemma_found_some(b, x.id);
        let j = leaves::lemma_found_some(a, y.id);
        if i < b.len() - 1 {
            assert(b[i].id < b[b.len() - 1].id);
            if j < a.len() - 1 {
                assert(a[j].id < a[a.len() - 1].id);
            }
        }
        assert(x == y);
        let c = a.drop_last();
        let d = b.drop_last();
        assert(a =~= c.push(x));
        assert(b =~= d.push(x));
        assert(store::ascending(c) && store::ascending(d)) by {
            assert forall|k: int, l: int| 0 <= k < l < c.len() implies (#[trigger] c[k]).id < (
            #[trigger] c[l]).id by {
                assert(a[k].id < a[l].id);
            }
            assert forall|k: int, l: int| 0 <= k < l < d.len() implies (#[trigger] d[k]).id < (
            #[trigger] d[l]).id by {
                assert(b[k].id < b[l].id);
            }
        }
        assert forall|key: u64| #[trigger] world::found(c, key) == world::found(d, key) by {
            lemma_found_push(c, x, key);
            lemma_found_push(d, x, key);
            assert(world::found(a, key) == world::found(b, key));
            if key == x.id {
                if world::found(c, key) is Some {
                    let k = leaves::lemma_found_some(c, key);
                    assert(a[k].id < a[a.len() - 1].id);
                }
                if world::found(d, key) is Some {
                    let k = leaves::lemma_found_some(d, key);
                    assert(b[k].id < b[b.len() - 1].id);
                }
            }
        }
        lemma_found_decides(c, d);
    }
}

/// There is one list of the records of a map.
pub proof fn lemma_listing(records: Seq<FragmentView>, state: Map<u64, FragmentView>)
    requires
        steps::lists(records, state),
    ensures
        records == listing(state),
{
    let other = listing(state);
    assert(steps::lists(other, state));
    assert forall|key: u64| #[trigger] world::found(records, key) == world::found(
        other,
        key,
    ) by {
        assert(world::found(records, key) == replay::lookup(state, key));
    }
    lemma_found_decides(records, other);
}

/// The records a leaf ends up with when mutations are applied to it, or why
/// they are refused.
pub open spec fn leaf_outcome(
    child: ChildView,
    given: Seq<FragmentView>,
    s: Seq<MutationView>,
    end: u64,
) -> Result<Seq<FragmentView>, Error> {
    let kept = listing(replay::replayed(steps::indexed(given), s, true).0);
    match leaf_refusal(child, given, s, end) {
        Some(error) => Err(error),
        None => if kept.len() > 0 && kept.last().id >= end {
            Err(
                Error::CorruptFile { reason: Reason::RecordAboveEnd { id: kept.last().id, end } },
            )
        } else {
            Ok(kept)
        },
    }
}

/// Whether mutations claim to remove or replace every record of a leaf.
pub open spec fn claims_all(child: ChildView, s: Seq<MutationView>) -> bool {
    flush::retired(s) + replacing(s) == child.num_keys
}

/// What mutations are applied to: the records of a leaf, or their headers where
/// none of them is to survive as it is.
pub open spec fn leaf_source(store: StoreView, child: ChildView, s: Seq<MutationView>) -> Result<
    Seq<FragmentView>,
    Option<Error>,
> {
    if claims_all(child, s) {
        partial::headers_read(store, child)
    } else {
        store::leaf_read(store, child)
    }
}

/// What applying mutations to a leaf and writing what it then holds gives: a
/// leaf that is emptied is dropped, others take the watermark of the store
/// and start where the leaf started.
#[verifier::opaque]
pub open spec fn leaf_ingested(
    store: StoreView,
    names: Names,
    child: ChildView,
    incoming: Seq<MutationView>,
    end: u64,
    config: FragmentMetadataTreeConfig,
) -> Result<(StoreView, Seq<ChildView>, WriteAcc), Halt> {
    match leaf_source(store, child, incoming) {
        Err(why) => Err(store::halted(why)),
        Ok(records) => match leaf_outcome(child, records, incoming, end) {
            Err(error) => Err(Halt::Fail(error)),
            Ok(kept) => match store::put_leaves(store, names, kept, ceiling(store), config) {
                Err(halt) => Err(halt),
                Ok((after, refs)) => Ok(
                    (
                        after,
                        node::fenced(refs, child.min_key),
                        WriteAcc {
                            io_bytes: wire::capped(store::ref_bytes(refs)),
                            splits: if refs.len() > 1 {
                                (refs.len() - 1) as u64
                            } else {
                                0
                            },
                            materialized: incoming.len() as u64,
                            ..WriteAcc::nothing()
                        },
                    ),
                ),
            },
        },
    }
}

/// Where the range of each child ends.
pub open spec fn child_ends(children: Seq<ChildView>, parent_end: u64) -> Seq<u64> {
    Seq::new(children.len(), |i: int| node::end_of(children, i, parent_end))
}

/// The work of draining one child.
pub open spec fn drain_work(acc: WriteAcc, more: WriteAcc, depth: u32) -> WriteAcc {
    let work = acc.with(more);
    WriteAcc {
        flushes: merge::summed(work.flushes, 1),
        max_flush_depth: if depth > work.max_flush_depth {
            depth
        } else {
            work.max_flush_depth
        },
        ..work
    }
}

/// What draining the selected children before a position gives, the last one
/// first: each takes in its bucket, and what comes of it stands in its place.
#[verifier::opaque]
pub open spec fn selected_drained(
    store: StoreView,
    children: Seq<ChildView>,
    held: Seq<Seq<MutationView>>,
    chosen: Seq<int>,
    ends: Seq<u64>,
    depth: u32,
    down: spec_fn(StoreView, ChildView, Seq<MutationView>, u32, u64) -> Result<
        (StoreView, Seq<ChildView>, WriteAcc),
        Halt,
    >,
    at: int,
    acc: WriteAcc,
) -> Result<(StoreView, Seq<ChildView>, Seq<Seq<MutationView>>, WriteAcc), Halt>
    decreases at,
{
    if at <= 0 {
        Ok((store, children, held, acc))
    } else if chosen.contains(at - 1) {
        match down(store, children[at - 1], held[at - 1], depth, ends[at - 1]) {
            Err(halt) => Err(halt),
            Ok((after, refs, more)) => selected_drained(
                after,
                children.take(at - 1) + refs + children.skip(at),
                drained(held, at - 1, refs.len()),
                chosen,
                ends,
                depth,
                down,
                at - 1,
                drain_work(acc, more, depth),
            ),
        }
    } else {
        selected_drained(store, children, held, chosen, ends, depth, down, at - 1, acc)
    }
}

/// What draining children gives while some are worth it: those that are
/// selected under the pressure the node is under, again until none is.
#[verifier::opaque]
pub open spec fn drained_through(
    store: StoreView,
    children: Seq<ChildView>,
    held: Seq<Seq<MutationView>>,
    depth: u32,
    end: u64,
    config: FragmentMetadataTreeConfig,
    down: spec_fn(StoreView, ChildView, Seq<MutationView>, u32, u64) -> Result<
        (StoreView, Seq<ChildView>, WriteAcc),
        Halt,
    >,
    acc: WriteAcc,
) -> Result<(StoreView, Seq<ChildView>, Seq<Seq<MutationView>>, WriteAcc), Halt>
    decreases flush::held_count(held),
{
    let bytes = wire::capped(flush::held_len(held));
    let pressure = urgency(children, bytes, any_bucket_retires(held), config);
    let chosen = flush::selection(children, held, config, store.io_parallelism, pressure->0);
    if children.len() == 0 || pressure is None || chosen.len() == 0 {
        Ok((store, children, held, acc))
    } else {
        match selected_drained(
            store,
            children,
            held,
            chosen,
            child_ends(children, end),
            depth,
            down,
            children.len() as int,
            WriteAcc::nothing(),
        ) {
            Err(halt) => Err(halt),
            Ok((after, kids, left, more)) => if flush::held_count(left) < flush::held_count(held) {
                drained_through(after, kids, left, depth, end, config, down, acc.with(more))
            } else {
                Err(Halt::Need)
            },
        }
    }
}

/// What flushing a level gives: without pressure it keeps its buffer, else the
/// buffer is routed, worthwhile children are drained, and what is left stays
/// buffered. Its left edge is fenced in either case.
#[verifier::opaque]
pub open spec fn level_flushed(
    store: StoreView,
    names: Names,
    children: Seq<ChildView>,
    buffer: Seq<MutationView>,
    depth: u32,
    lower: u64,
    end: u64,
    config: FragmentMetadataTreeConfig,
    height: nat,
    down: spec_fn(StoreView, ChildView, Seq<MutationView>, u32, u64) -> Result<
        (StoreView, Seq<ChildView>, WriteAcc),
        Halt,
    >,
) -> Result<(StoreView, Seq<ChildView>, Seq<MutationView>, WriteAcc), Halt> {
    let held = split::buckets(children, buffer);
    if calm(children, buffer, config) {
        match merge::edge_fenced(store, names, children, lower, height) {
            Err(halt) => Err(halt),
            Ok((after, fenced, bytes)) => Ok(
                (after, fenced, buffer, WriteAcc { io_bytes: bytes, ..WriteAcc::nothing() }),
            ),
        }
    } else {
        match split::routing_fault(children, held, end, children.len() as int) {
            Some(reason) => Err(Halt::Fail(Error::CorruptFile { reason })),
            None => match drained_through(
                store,
                children,
                held,
                depth,
                end,
                config,
                down,
                WriteAcc::nothing(),
            ) {
                Err(halt) => Err(halt),
                Ok((middle, kids, left, acc)) => match merge::edge_fenced(
                    middle,
                    names,
                    kids,
                    lower,
                    height,
                ) {
                    Err(halt) => Err(halt),
                    Ok((after, fenced, bytes)) => Ok(
                        (
                            after,
                            fenced,
                            flush::flattened(left),
                            WriteAcc { io_bytes: merge::summed(acc.io_bytes, bytes), ..acc },
                        ),
                    ),
                },
            },
        }
    }
}

/// What an interior node holds after it took mutations in: its buffer with
/// them in normal form, flushed one level deeper, and its children merged.
#[verifier::opaque]
pub open spec fn node_settled(
    store: StoreView,
    names: Names,
    child: ChildView,
    incoming: Seq<MutationView>,
    depth: u32,
    end: u64,
    config: FragmentMetadataTreeConfig,
    height: nat,
    down: spec_fn(StoreView, ChildView, Seq<MutationView>, u32, u64) -> Result<
        (StoreView, Seq<ChildView>, WriteAcc),
        Halt,
    >,
) -> Result<(StoreView, Seq<ChildView>, Seq<MutationView>, WriteAcc), Halt> {
    match merge::opened(store, child) {
        Err(halt) => Err(halt),
        Ok((children, buffer)) => {
            let joined = buffer + incoming;
            let normal = squash::normal(joined);
            let deeper: u32 = if depth == u32::MAX {
                depth
            } else {
                (depth + 1) as u32
            };
            let own = WriteAcc {
                squashed: if normal.len() < joined.len() {
                    (joined.len() - normal.len()) as u64
                } else {
                    0
                },
                ..WriteAcc::nothing()
            };
            match level_flushed(
                store,
                names,
                children,
                normal,
                deeper,
                child.min_key,
                end,
                config,
                height,
                down,
            ) {
                Err(halt) => Err(halt),
                Ok((middle, kids, rest, more)) => match merge::merged(
                    middle,
                    names,
                    kids,
                    config,
                    height,
                ) {
                    Err(halt) => Err(halt),
                    Ok((after, merged, last)) => Ok((after, merged, rest, own.with(more).with(last))),
                },
            }
        },
    }
}

/// What an interior node becomes when it takes mutations in: a chain of
/// single-child nodes collapses, a node without children is dropped, one that
/// overflows is cut in pieces.
#[verifier::opaque]
pub open spec fn node_ingested(
    store: StoreView,
    names: Names,
    child: ChildView,
    incoming: Seq<MutationView>,
    depth: u32,
    end: u64,
    config: FragmentMetadataTreeConfig,
    height: nat,
    down: spec_fn(StoreView, ChildView, Seq<MutationView>, u32, u64) -> Result<
        (StoreView, Seq<ChildView>, WriteAcc),
        Halt,
    >,
) -> Result<(StoreView, Seq<ChildView>, WriteAcc), Halt> {
    match node_settled(store, names, child, incoming, depth, end, config, height, down) {
        Err(halt) => Err(halt),
        Ok((middle, kids, rest, acc)) => if kids.len() == 1 && kids[0].height > 0
            && kids[0].num_children == 1 {
            Err(Halt::Collapsed)
        } else if kids.len() == 0 {
            Ok((middle, kids, acc))
        } else if node::overflows(kids, rest, config) {
            match merge::put_split(
                middle,
                names,
                kids,
                rest,
                (config.max_node_bytes / 2) as u64,
                config.max_children_per_node,
            ) {
                Err(halt) => Err(halt),
                Ok((after, refs, bytes)) => Ok(
                    (
                        after,
                        node::fenced(refs, child.min_key),
                        WriteAcc {
                            io_bytes: merge::summed(acc.io_bytes, bytes),
                            splits: merge::summed(acc.splits, 1),
                            ..acc
                        },
                    ),
                ),
            }
        } else {
            match store::put_node(middle, names, kids, rest) {
                Err(halt) => Err(halt),
                Ok((after, written, bytes)) => Ok(
                    (
                        after,
                        node::fenced(seq![written], child.min_key),
                        WriteAcc { io_bytes: merge::summed(acc.io_bytes, bytes), ..acc },
                    ),
                ),
            }
        },
    }
}

/// Taking mutations in at a child of a height, for a child, its mutations, the
/// depth it is at and the end of its range.
pub open spec fn ingesting(
    names: Names,
    config: FragmentMetadataTreeConfig,
    height: nat,
) -> spec_fn(StoreView, ChildView, Seq<MutationView>, u32, u64) -> Result<
    (StoreView, Seq<ChildView>, WriteAcc),
    Halt,
>
    decreases height,
{
    if height == 0 {
        |store: StoreView, child: ChildView, incoming: Seq<MutationView>, depth: u32, end: u64|
            leaf_ingested(store, names, child, incoming, end, config)
    } else {
        let down = ingesting(names, config, (height - 1) as nat);
        |store: StoreView, child: ChildView, incoming: Seq<MutationView>, depth: u32, end: u64|
            node_ingested(
                store,
                names,
                child,
                incoming,
                depth,
                end,
                config,
                (height - 1) as nat,
                down,
            )
    }
}

/// What a child becomes when it takes mutations in.
#[verifier::opaque]
pub open spec fn ingested(
    store: StoreView,
    names: Names,
    child: ChildView,
    incoming: Seq<MutationView>,
    depth: u32,
    end: u64,
    config: FragmentMetadataTreeConfig,
) -> Result<(StoreView, Seq<ChildView>, WriteAcc), Halt> {
    ingesting(names, config, child.height as nat)(store, child, incoming, depth, end)
}

pub proof fn lemma_ingested(
    store: StoreView,
    names: Names,
    child: ChildView,
    incoming: Seq<MutationView>,
    depth: u32,
    end: u64,
    config: FragmentMetadataTreeConfig,
    height: nat,
)
    requires
        child.height == height,
    ensures
        ingesting(names, config, height)(store, child, incoming, depth, end) == ingested(
            store,
            names,
            child,
            incoming,
            depth,
            end,
            config,
        ),
        ingested(store, names, child, incoming, depth, end, config) == if height == 0 {
            leaf_ingested(store, names, child, incoming, end, config)
        } else {
            node_ingested(
                store,
                names,
                child,
                incoming,
                depth,
                end,
                config,
                (height - 1) as nat,
                ingesting(names, config, (height - 1) as nat),
            )
        },
{
    reveal(ingested);
}

/// What flushing a level gives.
#[verifier::opaque]
pub open spec fn flushed_out(
    store: StoreView,
    names: Names,
    children: Seq<ChildView>,
    buffer: Seq<MutationView>,
    depth: u32,
    lower: u64,
    end: u64,
    config: FragmentMetadataTreeConfig,
    height: nat,
) -> Result<(StoreView, Seq<ChildView>, Seq<MutationView>, WriteAcc), Halt> {
    level_flushed(
        store,
        names,
        children,
        buffer,
        depth,
        lower,
        end,
        config,
        height,
        ingesting(names, config, height),
    )
}

/// The records a leaf ends up with.
fn apply_to_leaf(
    child: &FragmentMetadataChild,
    stored: Vec<Fragment>,
    incoming: Vec<FragmentMetadataMutation>,
    end: u64,
) -> (r: Result<Vec<Fragment>, Error>)
    requires
        store::ascending(views::all(stored@)),
    ensures
        ({
            let given = views::all(stored@);
            let s = views::all(incoming@);
            let (after, error) = replay::replayed(steps::indexed(given), s, true);
            match leaf_refusal(child@, given, s, end) {
                Some(error) => r == Err::<Vec<Fragment>, Error>(error),
                None => {
                    let above = exists|key: u64| #[trigger] after.contains_key(key) && key >= end;
                    &&& r is Ok == !above
                    &&& r matches Ok(records) ==> error is None && steps::lists(
                        views::all(records@),
                        after,
                    )
                    &&& r matches Err(error) ==> (exists|id: u64| #[trigger]
                        after.contains_key(id) && id >= end && error == (Error::CorruptFile {
                            reason: Reason::RecordAboveEnd { id, end },
                        }))
                },
            }
        }),
        leaf_outcome(child@, views::all(stored@), views::all(incoming@), end) == match r {
            Ok(records) => Ok(views::all(records@)),
            Err(error) => Err(error),
        },
{
    let ghost given = views::all(stored@);
    let ghost s = views::all(incoming@);
    let ghost state = steps::indexed(given);
    let ghost after = replay::replayed(state, s, true).0;
    let count: usize = incoming.len();
    let retired: u64 = flush::retired_keys(&incoming);
    let replaced: u64 = count_replacing(&incoming);
    // The batch may claim to remove or replace every stored record; then no
    // stored record may survive it.
    let claims: bool = retired.checked_add(replaced) == Some(child.num_keys);
    let ids: Vec<u64> = ids_of(&stored);
    let mut overwritten: Vec<bool> = Vec::new();
    if claims {
        overwritten = puts_of(&incoming, &ids);
    }
    let mut map = index_records(stored);
    match replay::apply_verified(&mut map, incoming) {
        Err(error) => {
            return Err(error);
        },
        Ok(()) => {},
    }
    proof {
        assert forall|key: u64| #[trigger] state.contains_key(key) implies state[key].id == key by {
            let i = leaves::lemma_found_some(given, key);
        }
        lemma_replayed_ids(state, s, true);
        assert(replay::records(map@) == after);
    }
    if claims {
        let mut i: usize = 0;
        while i < ids.len()
            invariant
                i <= ids@.len(),
                ids@.len() == given.len(),
                given == views::all(stored@),
                s == views::all(incoming@),
                overwritten@.len() == ids@.len(),
                forall|k: int| 0 <= k < ids@.len() ==> #[trigger] ids@[k] == given[k].id,
                forall|k: int|
                    0 <= k < ids@.len() ==> #[trigger] overwritten@[k] == puts(s, given[k].id),
                replay::records(map@) == after,
                survivor(given, after, s, i as int) is None,
                claims_all(child@, s),
                claims,
                replay::replayed(steps::indexed(given), s, true) == (after, None::<Error>),
            decreases ids@.len() - i,
        {
            assert(overwritten@[i as int] == puts(s, given[i as int].id));
            let id: u64 = ids[i];
            assert(map@.contains_key(id) == after.contains_key(id));
            if map.contains_key(&id) && !overwritten[i] {
                proof {
                    assert(survivor(given, after, s, i + 1) == Some(id));
                    lemma_survivor_prefix(given, after, s, i + 1, given.len() as int);
                }
                return Err(Error::CorruptFile { reason: Reason::RecordSurvives { id } });
            }
            i = i + 1;
        }
    }
    proof {
        assert forall|key: u64| #[trigger] map@.contains_key(key) implies map@[key]@.id == key by {
            assert(after.contains_key(key));
            assert(after[key] == map@[key]@);
        }
    }
    let records = list_records(&map);
    let ghost listed = views::all(records@);
    proof {
        lemma_listing(listed, after);
    }
    // Routed actions stay below `end`, so a key at or above it is a stored
    // record the leaf's parent never assigned to it.
    let total: usize = records.len();
    if total > 0 && records[total - 1].id >= end {
        let id: u64 = records[total - 1].id;
        proof {
            assert(listed[total - 1] == records@[total - 1]@);
            leaves::lemma_found(listed, total - 1);
            assert(world::found(listed, id) == replay::lookup(after, id));
            assert(after.contains_key(id));
        }
        return Err(Error::CorruptFile { reason: Reason::RecordAboveEnd { id, end } });
    }
    proof {
        assert forall|key: u64| #[trigger] after.contains_key(key) implies key < end by {
            assert(world::found(listed, key) == replay::lookup(after, key));
            let i = leaves::lemma_found_some(listed, key);
            assert(listed[total - 1] == records@[total - 1]@);
            if i < total - 1 {
                assert(listed[i].id < listed[total - 1].id);
            }
        }
    }
    Ok(records)
}

proof fn lemma_survivor_prefix(
    given: Seq<FragmentView>,
    after: Map<u64, FragmentView>,
    s: Seq<MutationView>,
    n: int,
    m: int,
)
    requires
        n <= m,
        survivor(given, after, s, n) is Some,
    ensures
        survivor(given, after, s, m) == survivor(given, after, s, n),
    decreases m - n,
{
    if n < m {
        lemma_survivor_prefix(given, after, s, n + 1, m);
    }
}

fn ids_of(records: &Vec<Fragment>) -> (r: Vec<u64>)
    ensures
        r@.len() == records@.len(),
        forall|k: int| 0 <= k < r@.len() ==> #[trigger] r@[k] == views::all(records@)[k].id,
{
    let mut out: Vec<u64> = Vec::new();
    let mut i: usize = 0;
    while i < records.len()
        invariant
            i <= records@.len(),
            out@.len() == i,
            forall|k: int| 0 <= k < out@.len() ==> #[trigger] out@[k] == views::all(records@)[k].id,
        decreases records@.len() - i,
    {
        out.push(records[i].id);
        i = i + 1;
    }
    out
}

fn puts_of(actions: &Vec<FragmentMetadataMutation>, ids: &Vec<u64>) -> (r: Vec<bool>)
    ensures
        r@.len() == ids@.len(),
        forall|k: int|
            0 <= k < r@.len() ==> #[trigger] r@[k] == puts(views::all(actions@), ids@[k]),
{
    let mut out: Vec<bool> = Vec::new();
    let mut i: usize = 0;
    while i < ids.len()
        invariant
            i <= ids@.len(),
            out@.len() == i,
            forall|k: int|
                0 <= k < out@.len() ==> #[trigger] out@[k] == puts(views::all(actions@), ids@[k]),
        decreases ids@.len() - i,
    {
        out.push(find_put(actions, ids[i]));
        i = i + 1;
    }
    out
}

/// Whether a position is among some positions.
fn is_selected(indices: &Vec<usize>, at: usize) -> (r: bool)
    ensures
        r == flush::positions(indices@).contains(at as int),
{
    let ghost all = flush::positions(indices@);
    let mut i: usize = 0;
    while i < indices.len()
        invariant
            i <= indices@.len(),
            all == flush::positions(indices@),
            forall|k: int| 0 <= k < i ==> #[trigger] all[k] != at,
        decreases indices@.len() - i,
    {
        if indices[i] == at {
            assert(all[i as int] == at);
            return true;
        }
        i = i + 1;
    }
    proof {
        if all.contains(at as int) {
            let k = choose|k: int| 0 <= k < all.len() && all[k] == at as int;
        }
    }
    false
}

/// Where each child's range ends.
fn ends_of(children: &Vec<FragmentMetadataChild>, parent_end: u64) -> (r: Vec<u64>)
    ensures
        r@.len() == children@.len(),
        forall|i: int|
            0 <= i < r@.len() ==> #[trigger] r@[i] == node::end_of(
                views::all(children@),
                i,
                parent_end,
            ),
{
    let mut out: Vec<u64> = Vec::new();
    let mut i: usize = 0;
    while i < children.len()
        invariant
            i <= children@.len(),
            out@.len() == i,
            forall|k: int|
                0 <= k < out@.len() ==> #[trigger] out@[k] == node::end_of(
                    views::all(children@),
                    k,
                    parent_end,
                ),
        decreases children@.len() - i,
    {
        out.push(node::exclusive_end(children, i, parent_end));
        i = i + 1;
    }
    out
}

/// Put other children in the place of one.
fn splice(
    children: Vec<FragmentMetadataChild>,
    at: usize,
    refs: Vec<FragmentMetadataChild>,
) -> (r: Vec<FragmentMetadataChild>)
    requires
        at < children@.len(),
    ensures
        views::all(r@) == views::all(children@).take(at as int) + views::all(refs@) + views::all(
            children@,
        ).skip(at + 1),
{
    let ghost all = views::all(children@);
    let ghost new = views::all(refs@);
    let mut out = children;
    let mut refs = refs;
    let count: usize = out.len();
    let mut tail = out.split_off(at + 1);
    let _ = out.pop();
    out.append(&mut refs);
    out.append(&mut tail);
    assert(views::all(out@) =~= all.take(at as int) + new + all.skip(at + 1));
    out
}

/// Whether every bucket holds mutations from its child's fence on.
pub open spec fn above_fences(children: Seq<ChildView>, held: Seq<Seq<MutationView>>) -> bool {
    forall|i: int, j: int|
        0 <= i < held.len() && 0 <= j < held[i].len() ==> (#[trigger] held[i][j]).key()
            >= children[i].min_key
}

/// Whatever two records are, mutations make the same of both, or neither is
/// removed or put anew.
proof fn lemma_outcomes_meet(a: FragmentView, b: FragmentView, s: Seq<MutationView>)
    requires
        replay::outcome(Some(a), s, false) is Ok,
        replay::outcome(Some(b), s, false) is Ok,
    ensures
        ({
            let x = replay::outcome(Some(a), s, false)->Ok_0;
            let y = replay::outcome(Some(b), s, false)->Ok_0;
            x == y || (x is Some && y is Some && forall|i: int|
                0 <= i < s.len() ==> !(#[trigger] s[i]).is_reset())
        }),
    decreases s.len(),
{
    if s.len() > 0 {
        lemma_outcomes_meet(a, b, s.drop_last());
        let rest = s.drop_last();
        assert forall|i: int| 0 <= i < rest.len() implies rest[i] == #[trigger] s[i] by {}
    }
}

/// What replay over the headers of a leaf leaves, no stored record surviving as
/// it was, is what replay over its records leaves.
proof fn lemma_leaf_settles(
    store: StoreView,
    child: ChildView,
    s: Seq<MutationView>,
    end: u64,
    records: Seq<FragmentView>,
)
    requires
        leaf_source(store, child, s) is Ok,
        leaf_refusal(child, leaf_source(store, child, s)->Ok_0, s, end) is None,
        steps::lists(
            records,
            replay::replayed(steps::indexed(leaf_source(store, child, s)->Ok_0), s, true).0,
        ),
    ensures
        steps::settles(store, child, s, records),
{
    let given = leaf_source(store, child, s)->Ok_0;
    let state = steps::indexed(given);
    let after = replay::replayed(state, s, true).0;
    assert forall|w: World, key: u64|
        #![trigger world::cell(w, seq![child], s, key)]
        world::agrees(w, store) && world::cell(w, seq![child], s, key) is Ok implies world::cell(
        w,
        seq![child],
        s,
        key,
    ) == Ok::<Option<FragmentView>, Error>(world::found(records, key)) by {
        let group = seq![child];
        node::lemma_route(group, key);
        let base = world::base_at(w, group, key);
        let run = order::run(s, key);
        assert(base == (w.record)(child.loc(), key));
        steps::lemma_replayed_cell(state, s, key);
        assert(replay::lookup(state, key) == world::found(given, key));
        if claims_all(child, s) {
            partial::lemma_reads_headers(w, store, child);
            if base is Some {
                let header = world::found(given, key)->0;
                lemma_outcomes_meet(base->0, header, run);
                let k = leaves::lemma_found_some(given, key);
                lemma_survivors(given, after, s, given.len() as int, k);
                if after.contains_key(key) {
                    let i = choose|i: int|
                        0 <= i < s.len() && (#[trigger] s[i]).key() == key && (s[i].known() matches
                            Some(ActionView::AddFragment(_)));
                    order::lemma_of_key_contains(s, key, s[i]);
                    order::lemma_sorted_contains(order::of_key(s, key), false, s[i]);
                    assert(run.contains(s[i]));
                    assert(s[i].is_reset());
                }
            }
        } else {
            steps::lemma_reads_leaf(w, store, child);
        }
    }
}

/// Where nothing survives, every stored record is gone or put anew.
proof fn lemma_survivors(
    given: Seq<FragmentView>,
    after: Map<u64, FragmentView>,
    s: Seq<MutationView>,
    n: int,
    k: int,
)
    requires
        survivor(given, after, s, n) is None,
        0 <= k < n,
    ensures
        after.contains_key(given[k].id) ==> puts(s, given[k].id),
    decreases n,
{
    if k < n - 1 {
        lemma_survivors(given, after, s, n - 1, k);
    }
}

/// Apply mutations to a leaf and write what it then holds.
fn ingest_leaf(
    store: &mut NodeStore,
    child: &FragmentMetadataChild,
    incoming: Vec<FragmentMetadataMutation>,
    end: u64,
    config: &FragmentMetadataTreeConfig,
) -> (r: Result<(Vec<FragmentMetadataChild>, WriteAcc), Stop>)
    requires
        config.valid(),
        child.height == 0,
        forall|i: int|
            0 <= i < incoming@.len() ==> (#[trigger] views::all(incoming@)[i]).key()
                >= child.min_key,
    ensures
        match r {
            Ok((refs, acc)) => {
                let out = views::all(refs@);
                &&& world::faithful(
                    old(store)@,
                    final(store)@,
                    seq![child@],
                    views::all(incoming@),
                    out,
                    levels::no_mutations(),
                    ceiling(old(store)@) as int,
                )
                &&& steps::shaped(out, child@.height as int, child@.min_key as int)
                &&& out.len() > 0 ==> out[0].min_key == child@.min_key
                &&& store::booked(acc.io_bytes, old(store)@, final(store)@)
                &&& acc.materialized == incoming@.len()
                &&& leaf_source(old(store)@, child@, views::all(incoming@)) is Ok
                &&& leaf_refusal(
                    child@,
                    leaf_source(old(store)@, child@, views::all(incoming@))->Ok_0,
                    views::all(incoming@),
                    end,
                ) is None
            },
            Err(stop) => store::honest(stop, old(store)@),
        },
        merge::grown(old(store)@, final(store)@),
        forall|names: Names| #[trigger]
            names.fit(final(store)@) ==> leaf_ingested(
                old(store)@,
                names,
                child@,
                views::all(incoming@),
                end,
                *config,
            ) == merge::told(r, final(store)@),
{
    let ghost before = store@;
    let ghost given = child@;
    let ghost s = views::all(incoming@);
    let ghost none = levels::no_mutations();
    let ghost cap = ceiling(before) as int;
    let mut acc = WriteAcc::new();
    proof {
        store::lemma_extends_self(before);
    }
    acc.materialized = incoming.len() as u64;
    // A batch that claims to remove or replace every stored record needs only
    // their headers, to check each stored delta and that no stored record
    // survives without its files.
    let retired: u64 = flush::retired_keys(&incoming);
    let replaced: u64 = count_replacing(&incoming);
    let read = if retired.checked_add(replaced) == Some(child.num_keys) {
        store.read_leaf_headers(child)
    } else {
        store.read_leaf(child)
    };
    let stored = match read {
        Err(stop) => {
            proof {
                assert forall|names: Names| #[trigger] names.fit(store@) implies leaf_ingested(
                    before,
                    names,
                    given,
                    s,
                    end,
                    *config,
                )
                    == Err::<(StoreView, Seq<ChildView>, WriteAcc), Halt>(stop.halt()) by {
                    reveal(leaf_ingested);
                }
            }
            return Err(stop);
        },
        Ok(stored) => stored,
    };
    let ghost records = views::all(stored@);
    proof {
        if claims_all(given, s) {
            partial::lemma_headers_shape(before, given);
        } else {
            steps::lemma_leaf_shape(before, given);
        }
    }
    let kept = match apply_to_leaf(child, stored, incoming, end) {
        Err(error) => {
            proof {
                assert forall|names: Names| #[trigger] names.fit(store@) implies leaf_ingested(
                    before,
                    names,
                    given,
                    s,
                    end,
                    *config,
                )
                    == Err::<(StoreView, Seq<ChildView>, WriteAcc), Halt>(Halt::Fail(error)) by {
                    reveal(leaf_ingested);
                }
            }
            return Err(Stop::Fail(error));
        },
        Ok(kept) => kept,
    };
    let ghost listed = views::all(kept@);
    let ghost after_map = replay::replayed(steps::indexed(records), s, true).0;
    proof {
        assert forall|i: int| 0 <= i < listed.len() implies (#[trigger] listed[i]).id
            >= given.min_key by {
            leaves::lemma_found(listed, i);
            let key = listed[i].id;
            assert(world::found(listed, key) == replay::lookup(after_map, key));
            lemma_replayed_from(records, s, key, given.min_key as int);
        }
    }
    // A fully-emptied leaf is dropped from its parent. Keeping it would
    // create a phantom child with min_key=0 that corrupts the
    // sorted-by-min_key invariant `child_index_for` relies on. Writing no
    // records writes no leaf.
    let watermark: u64 = store.next_action_sequence.saturating_sub(1);
    let count: usize = kept.len();
    let ghost parts = store::halves(
        before,
        listed,
        0,
        listed.len() as int,
        config.max_leaf_bytes,
    );
    let written = match store.write_leaves(&kept, watermark, config) {
        Err(stop) => {
            proof {
                assert forall|names: Names| #[trigger] names.fit(store@) implies leaf_ingested(
                    before,
                    names,
                    given,
                    s,
                    end,
                    *config,
                )
                    == Err::<(StoreView, Seq<ChildView>, WriteAcc), Halt>(stop.halt()) by {
                    reveal(leaf_ingested);
                }
            }
            return Err(stop);
        },
        Ok(written) => written,
    };
    let ghost refs = store::refs_of(written@);
    if written.len() > 1 {
        acc.splits = (written.len() - 1) as u64;
    }
    let (mut out, bytes) = merge::take_refs(written);
    acc.io_bytes = bytes;
    proof {
        store::lemma_halves(before, listed, 0, listed.len() as int, config.max_leaf_bytes);
        store::lemma_leaves_written(before, store@, refs, listed, parts, watermark);
        steps::lemma_leaf_refs(before, store@, refs, listed, parts, watermark);
        lemma_leaf_settles(before, given, s, end, listed);
        steps::step_leaves(before, store@, given, s, listed, parts, refs, watermark);
        if refs.len() > 0 {
            assert(refs[0] == out@[0]@);
        }
    }
    node::fence(&mut out, child.min_key);
    proof {
        let fenced = views::all(out@);
        assert forall|i: int| 0 <= i < fenced.len() implies (#[trigger] fenced[i]).height == 0
            && fenced[i].min_key >= given.min_key && fenced[i].num_keys > 0 by {
            assert(refs[i].height == 0);
        }
    }
    proof {
        assert forall|names: Names| #[trigger] names.fit(store@) implies leaf_ingested(
            before,
            names,
            given,
            s,
            end,
            *config,
        )
            == Ok::<(StoreView, Seq<ChildView>, WriteAcc), Halt>(
                (store@, views::all(out@), acc),
            ) by {
            reveal(leaf_ingested);
        }
    }
    Ok((out, acc))
}

/// Buffer mutations at an interior node, flush it and merge its children.
#[verifier::rlimit(60)]
fn settle_node(
    store: &mut NodeStore,
    child: &FragmentMetadataChild,
    incoming: Vec<FragmentMetadataMutation>,
    depth: u32,
    end: u64,
    config: &FragmentMetadataTreeConfig,
) -> (r: Result<
    (Vec<FragmentMetadataChild>, Vec<FragmentMetadataMutation>, WriteAcc),
    Stop,
>)
    requires
        config.valid(),
        child.height > 0,
    ensures
        match r {
            Ok((kids, rest, acc)) => {
                let out = views::all(kids@);
                &&& world::faithful(
                    old(store)@,
                    final(store)@,
                    seq![child@],
                    views::all(incoming@),
                    out,
                    views::all(rest@),
                    ceiling(old(store)@) as int,
                )
                &&& steps::shaped(out, child@.height - 1, child@.min_key as int)
                &&& out.len() > 0 ==> out[0].min_key == child@.min_key
                &&& out.len() == 0 ==> rest@.len() == 0
                &&& store::booked(acc.io_bytes, old(store)@, final(store)@)
            },
            Err(stop) => store::honest(stop, old(store)@),
        },
        merge::grown(old(store)@, final(store)@),
        forall|names: Names| #[trigger]
            names.fit(final(store)@) ==> node_settled(
                old(store)@,
                names,
                child@,
                views::all(incoming@),
                depth,
                end,
                *config,
                (child@.height - 1) as nat,
                ingesting(names, *config, (child@.height - 1) as nat),
            ) == match r {
                Ok((kids, rest, acc)) => Ok(
                    (final(store)@, views::all(kids@), views::all(rest@), acc),
                ),
                Err(stop) => Err(stop.halt()),
            },
    decreases child.height, 0int,
{
    let ghost before = store@;
    let ghost given = child@;
    let ghost s = views::all(incoming@);
    let ghost none = levels::no_mutations();
    let ghost cap = ceiling(before) as int;
    let ghost height = child.height - 1;
    let mut acc = WriteAcc::new();
    proof {
        store::lemma_extends_self(before);
    }
    let node = match merge::read_node(store, child) {
        Err(stop) => {
            proof {
                assert forall|names: Names| #[trigger] names.fit(store@) implies node_settled(
                    before,
                    names,
                    given,
                    s,
                    depth,
                    end,
                    *config,
                    height as nat,
                    ingesting(names, *config, height as nat),
                )
                    == Err::<(StoreView, Seq<ChildView>, Seq<MutationView>, WriteAcc), Halt>(stop.halt()) by {
                    reveal(node_settled);
                reveal(flushed_out);
                }
            }
            return Err(stop);
        },
        Ok(node) => node,
    };
    let InternalNode { children, buffer } = node;
    let ghost kids = views::all(children@);
    let ghost pending = views::all(buffer@);
    let ghost low = child.min_key as int;
    let mut buffer = buffer;
    let mut incoming = incoming;
    buffer.append(&mut incoming);
    let ghost joined = views::all(buffer@);
    let held: usize = buffer.len();
    proof {
        let group = seq![given];
        steps::lemma_node_shape(before, given);
        assert(steps::gathered(before, group) == Some((kids, pending))) by {
            reveal_with_fuel(steps::gathered, 2);
            assert(group.drop_last() =~= merge::no_children());
            assert(group.last() == given);
            assert(merge::no_children() + kids =~= kids);
            assert(Seq::<MutationView>::empty() + pending =~= pending);
        }
        assert(joined =~= pending + s);
        steps::step_unfold(before, group, s, joined);
    }
    let squashed = squash::squash_buffer(buffer);
    let ghost normal = views::all(squashed@);
    if squashed.len() < held {
        acc.squashed = (held - squashed.len()) as u64;
    }
    proof {
        steps::step_squash(before, kids, joined, normal);
        world::lemma_faithful_transitive(
            before,
            before,
            before,
            seq![given],
            s,
            kids,
            joined,
            kids,
            normal,
            -1,
            -1,
        );
        lemma_faithful_weaken(before, before, seq![given], s, kids, normal, cap);
    }
    // This node is one level deeper than the parent that flushed to it.
    let (flushed_children, rest, more) = match flush_internal(
        store,
        children,
        squashed,
        depth.saturating_add(1),
        child.min_key,
        end,
        config,
        Ghost(height),
    ) {
        Err(stop) => {
            proof {
                assert forall|names: Names| #[trigger] names.fit(store@) implies node_settled(
                    before,
                    names,
                    given,
                    s,
                    depth,
                    end,
                    *config,
                    height as nat,
                    ingesting(names, *config, height as nat),
                )
                    == Err::<(StoreView, Seq<ChildView>, Seq<MutationView>, WriteAcc), Halt>(stop.halt()) by {
                    reveal(node_settled);
                reveal(flushed_out);
                }
            }
            return Err(stop);
        },
        Ok(done) => done,
    };
    let ghost s1 = store@;
    let ghost kids2 = views::all(flushed_children@);
    let ghost pending2 = views::all(rest@);
    acc.add(more);
    proof {
        world::lemma_faithful_transitive(
            before,
            before,
            s1,
            seq![given],
            s,
            kids,
            normal,
            kids2,
            pending2,
            cap,
            cap,
        );
    }
    let (merged, more) = match merge::merge_small_children(
        store,
        flushed_children,
        config,
        Ghost(height),
        Ghost(low),
    ) {
        Err(stop) => {
            proof {
                store::lemma_extends_lacks(before, s1, stop);
                store::lemma_extends_transitive(before, s1, store@);
            }
            proof {
                assert forall|names: Names| #[trigger] names.fit(store@) implies node_settled(
                    before,
                    names,
                    given,
                    s,
                    depth,
                    end,
                    *config,
                    height as nat,
                    ingesting(names, *config, height as nat),
                )
                    == Err::<(StoreView, Seq<ChildView>, Seq<MutationView>, WriteAcc), Halt>(stop.halt()) by {
                    reveal(node_settled);
                reveal(flushed_out);
                }
            }
            return Err(stop);
        },
        Ok(done) => done,
    };
    let ghost s2 = store@;
    let ghost kids3 = views::all(merged@);
    let ghost spent = acc.io_bytes;
    acc.add(more);
    proof {
        store::lemma_extends_transitive(before, s1, s2);
        store::lemma_booked_join(spent, more.io_bytes, before, s1, s2);
        if kids2.len() > 0 {
            let x = merge::no_children();
            steps::step_splice(s1, s2, x, kids2, x, pending2, kids3);
            assert(x + kids2 + x =~= kids2);
            assert(x + kids3 + x =~= kids3);
            lemma_faithful_weaken(s1, s2, kids2, pending2, kids3, pending2, cap);
            world::lemma_faithful_transitive(
                before,
                s1,
                s2,
                seq![given],
                s,
                kids2,
                pending2,
                kids3,
                pending2,
                cap,
                cap,
            );
        }
    }
    proof {
        if kids2.len() == 0 {
            assert(kids2 =~= merge::no_children());
            assert(pending2 =~= none);
            assert(kids3 =~= merge::no_children());
            lemma_faithful_later(before, s1, s2, seq![given], s, kids2, pending2, cap);
        }
    }
    proof {
        assert forall|names: Names| #[trigger] names.fit(store@) implies node_settled(
                    before,
                    names,
                    given,
                    s,
                    depth,
                    end,
                    *config,
                    height as nat,
                    ingesting(names, *config, height as nat),
                )
            == Ok::<(StoreView, Seq<ChildView>, Seq<MutationView>, WriteAcc), Halt>(
                (store@, views::all(merged@), views::all(rest@), acc),
            ) by {
            reveal(node_settled);
                reveal(flushed_out);
        }
    }
    Ok((merged, rest, acc))
}

/// Buffer mutations at an interior node and flush it.
#[verifier::rlimit(60)]
fn ingest_node(
    store: &mut NodeStore,
    child: &FragmentMetadataChild,
    incoming: Vec<FragmentMetadataMutation>,
    depth: u32,
    end: u64,
    config: &FragmentMetadataTreeConfig,
) -> (r: Result<(Vec<FragmentMetadataChild>, WriteAcc), Stop>)
    requires
        config.valid(),
        child.height > 0,
    ensures
        match r {
            Ok((refs, acc)) => {
                let out = views::all(refs@);
                &&& world::faithful(
                    old(store)@,
                    final(store)@,
                    seq![child@],
                    views::all(incoming@),
                    out,
                    levels::no_mutations(),
                    ceiling(old(store)@) as int,
                )
                &&& steps::shaped(out, child@.height as int, child@.min_key as int)
                &&& out.len() > 0 ==> out[0].min_key == child@.min_key
                &&& store::booked(acc.io_bytes, old(store)@, final(store)@)
            },
            Err(stop) => store::honest(stop, old(store)@),
        },
        merge::grown(old(store)@, final(store)@),
        forall|names: Names| #[trigger]
            names.fit(final(store)@) ==> node_ingested(
                old(store)@,
                names,
                child@,
                views::all(incoming@),
                depth,
                end,
                *config,
                (child@.height - 1) as nat,
                ingesting(names, *config, (child@.height - 1) as nat),
            ) == merge::told(r, final(store)@),
    decreases child.height, 1int,
{
    let ghost before = store@;
    let ghost given = child@;
    let ghost s = views::all(incoming@);
    let ghost none = levels::no_mutations();
    let ghost cap = ceiling(before) as int;
    let ghost height = child.height - 1;
    let ghost low = child.min_key as int;
    let (merged, rest, mut acc) = match settle_node(store, child, incoming, depth, end, config) {
        Err(stop) => {
            proof {
                assert forall|names: Names| #[trigger] names.fit(store@) implies node_ingested(
                    before,
                    names,
                    given,
                    s,
                    depth,
                    end,
                    *config,
                    height as nat,
                    ingesting(names, *config, height as nat),
                )
                    == Err::<(StoreView, Seq<ChildView>, WriteAcc), Halt>(stop.halt()) by {
                    reveal(node_ingested);
                }
            }
            return Err(stop);
        },
        Ok(done) => done,
    };
    let ghost s2 = store@;
    let ghost kids3 = views::all(merged@);
    let ghost pending2 = views::all(rest@);
    if merged.len() == 1 && merged[0].height > 0 && merged[0].num_children == 1 {
        proof {
            assert(kids3[0] == merged@[0]@);
            assert forall|names: Names| #[trigger] names.fit(store@) implies node_ingested(
                    before,
                    names,
                    given,
                    s,
                    depth,
                    end,
                    *config,
                    height as nat,
                    ingesting(names, *config, height as nat),
                )
                == Err::<(StoreView, Seq<ChildView>, WriteAcc), Halt>(Halt::Collapsed) by {
                reveal(node_ingested);
            }
        }
        return Err(Stop::Collapsed);
    }
    // An internal node whose children all vanished is dropped too (same
    // phantom-min_key=0 hazard as an empty leaf).
    if merged.is_empty() {
        proof {
            assert(pending2 =~= none);
        }
        proof {
            assert forall|names: Names| #[trigger] names.fit(store@) implies node_ingested(
                    before,
                    names,
                    given,
                    s,
                    depth,
                    end,
                    *config,
                    height as nat,
                    ingesting(names, *config, height as nat),
                )
                == Ok::<(StoreView, Seq<ChildView>, WriteAcc), Halt>(
                    (store@, views::all(merged@), acc),
                ) by {
                reveal(node_ingested);
            }
        }
        return Ok((merged, acc));
    }
    assert(kids3[0] == merged@[0]@);
    if node::internal_overflows(&merged, &rest, config) {
        let pieces = split::split_internal(
            merged,
            rest,
            config.split_piece_bytes(),
            config.max_children_per_node,
        );
        let (mut refs, bytes) = match merge::write_split(
            store,
            pieces,
            Ghost(kids3),
            Ghost(pending2),
            Ghost((config.max_node_bytes / 2) as u64),
            Ghost(config.max_children_per_node),
            Ghost(height),
            Ghost(low),
        ) {
            Err(stop) => {
                proof {
                    store::lemma_extends_transitive(before, s2, store@);
                }
                proof {
                    assert forall|names: Names| #[trigger] names.fit(store@) implies node_ingested(
                    before,
                    names,
                    given,
                    s,
                    depth,
                    end,
                    *config,
                    height as nat,
                    ingesting(names, *config, height as nat),
                )
                        == Err::<(StoreView, Seq<ChildView>, WriteAcc), Halt>(stop.halt()) by {
                        reveal(node_ingested);
                    }
                }
                return Err(stop);
            },
            Ok(done) => done,
        };
        let ghost raw = views::all(refs@);
        proof {
            assert(raw[0] == refs@[0]@);
            lemma_ingest_end(
                before,
                s2,
                store@,
                seq![given],
                s,
                kids3,
                pending2,
                raw,
                child.min_key,
                cap,
            );
            store::lemma_booked_join(acc.io_bytes, bytes, before, s2, store@);
        }
        acc.io_bytes = acc.io_bytes.saturating_add(bytes);
        acc.splits = acc.splits.saturating_add(1);
        node::fence(&mut refs, child.min_key);
        proof {
            let fenced = views::all(refs@);
            assert forall|i: int| 0 <= i < fenced.len() implies (#[trigger] fenced[i]).height
                == child.height && fenced[i].min_key >= low && (child.height == 0
                ==> fenced[i].num_keys > 0) by {
                assert(raw[i].height == height + 1);
            }
        }
        proof {
            assert forall|names: Names| #[trigger] names.fit(store@) implies node_ingested(
                    before,
                    names,
                    given,
                    s,
                    depth,
                    end,
                    *config,
                    height as nat,
                    ingesting(names, *config, height as nat),
                )
                == Ok::<(StoreView, Seq<ChildView>, WriteAcc), Halt>(
                    (store@, views::all(refs@), acc),
                ) by {
                reveal(node_ingested);
            }
        }
        Ok((refs, acc))
    } else {
        let (written, bytes) = match merge::write_level(
            store,
            merged,
            rest,
            Ghost(height),
            Ghost(low),
        ) {
            Err(stop) => {
                proof {
                    assert forall|names: Names| #[trigger] names.fit(store@) implies node_ingested(
                    before,
                    names,
                    given,
                    s,
                    depth,
                    end,
                    *config,
                    height as nat,
                    ingesting(names, *config, height as nat),
                )
                        == Err::<(StoreView, Seq<ChildView>, WriteAcc), Halt>(stop.halt()) by {
                        reveal(node_ingested);
                    }
                }
                return Err(stop);
            },
            Ok(done) => done,
        };
        let mut refs: Vec<FragmentMetadataChild> = Vec::new();
        refs.push(written);
        let ghost raw = views::all(refs@);
        proof {
            assert(raw =~= seq![written@]);
            assert(raw[0] == refs@[0]@);
            lemma_ingest_end(
                before,
                s2,
                store@,
                seq![given],
                s,
                kids3,
                pending2,
                raw,
                child.min_key,
                cap,
            );
            store::lemma_booked_join(acc.io_bytes, bytes, before, s2, store@);
        }
        acc.io_bytes = acc.io_bytes.saturating_add(bytes);
        node::fence(&mut refs, child.min_key);
        proof {
            let fenced = views::all(refs@);
            assert forall|i: int| 0 <= i < fenced.len() implies (#[trigger] fenced[i]).height
                == child.height && fenced[i].min_key >= low && (child.height == 0
                ==> fenced[i].num_keys > 0) by {
                assert(raw[i].height == height + 1);
            }
        }
        proof {
            assert forall|names: Names| #[trigger] names.fit(store@) implies node_ingested(
                    before,
                    names,
                    given,
                    s,
                    depth,
                    end,
                    *config,
                    height as nat,
                    ingesting(names, *config, height as nat),
                )
                == Ok::<(StoreView, Seq<ChildView>, WriteAcc), Halt>(
                    (store@, views::all(refs@), acc),
                ) by {
                reveal(node_ingested);
            }
        }
        Ok((refs, acc))
    }
}

/// Push `incoming` messages into the subtree rooted at `child` (at `depth`
/// below the root, owning keys below `end`): apply at a leaf, recurse and
/// buffer at an internal node, split on overflow. Gives the child references
/// that now represent the subtree.
pub(crate) fn ingest(
    store: &mut NodeStore,
    child: &FragmentMetadataChild,
    incoming: Vec<FragmentMetadataMutation>,
    depth: u32,
    end: u64,
    config: &FragmentMetadataTreeConfig,
) -> (r: Result<(Vec<FragmentMetadataChild>, WriteAcc), Stop>)
    requires
        config.valid(),
        forall|i: int|
            0 <= i < incoming@.len() ==> (#[trigger] views::all(incoming@)[i]).key()
                >= child.min_key,
    ensures
        match r {
            Ok((refs, acc)) => {
                let out = views::all(refs@);
                &&& world::faithful(
                    old(store)@,
                    final(store)@,
                    seq![child@],
                    views::all(incoming@),
                    out,
                    levels::no_mutations(),
                    ceiling(old(store)@) as int,
                )
                &&& steps::shaped(out, child@.height as int, child@.min_key as int)
                &&& out.len() > 0 ==> out[0].min_key == child@.min_key
                &&& store::booked(acc.io_bytes, old(store)@, final(store)@)
                &&& child.height == 0 ==> acc.materialized == incoming@.len()
                &&& child.height == 0 ==> (leaf_source(
                    old(store)@,
                    child@,
                    views::all(incoming@),
                ) is Ok && leaf_refusal(
                    child@,
                    leaf_source(old(store)@, child@, views::all(incoming@))->Ok_0,
                    views::all(incoming@),
                    end,
                ) is None)
            },
            Err(stop) => store::honest(stop, old(store)@),
        },
        merge::grown(old(store)@, final(store)@),
        forall|names: Names| #[trigger]
            names.fit(final(store)@) ==> ingested(
                old(store)@,
                names,
                child@,
                views::all(incoming@),
                depth,
                end,
                *config,
            ) == merge::told(r, final(store)@),
    decreases child.height, 2int,
{
    let ghost before = store@;
    let ghost s = views::all(incoming@);
    let r = if child.height == 0 {
        ingest_leaf(store, child, incoming, end, config)
    } else {
        ingest_node(store, child, incoming, depth, end, config)
    };
    proof {
        assert forall|names: Names| #[trigger] names.fit(store@) implies ingested(
            before,
            names,
            child@,
            s,
            depth,
            end,
            *config,
        ) == merge::told(r, store@) by {
            lemma_ingested(
                before,
                names,
                child@,
                s,
                depth,
                end,
                *config,
                child.height as nat,
            );
        }
    }
    r
}

/// Writing what a node became and fencing it.
proof fn lemma_ingest_end(
    s0: StoreView,
    s1: StoreView,
    s2: StoreView,
    given: Seq<ChildView>,
    s: Seq<MutationView>,
    kids: Seq<ChildView>,
    pending: Seq<MutationView>,
    raw: Seq<ChildView>,
    lower: u64,
    cap: int,
)
    requires
        world::faithful(s0, s1, given, s, kids, pending, cap),
        world::faithful(s1, s2, kids, pending, raw, levels::no_mutations(), -1),
        s1.extends(s0),
        s2.extends(s1),
        raw.len() > 0,
        lower <= raw[0].min_key,
        cap >= 0,
    ensures
        world::faithful(
            s0,
            s2,
            given,
            s,
            node::fenced(raw, lower),
            levels::no_mutations(),
            cap,
        ),
        s2.extends(s0),
{
    let none = levels::no_mutations();
    store::lemma_extends_transitive(s0, s1, s2);
    store::lemma_extends_self(s2);
    lemma_faithful_weaken(s1, s2, kids, pending, raw, none, cap);
    world::lemma_faithful_transitive(s0, s1, s2, given, s, kids, pending, raw, none, cap, cap);
    steps::step_refence(s2, raw, none, lower);
    let fenced = node::fenced(raw, lower);
    lemma_faithful_weaken(s2, s2, raw, none, fenced, none, cap);
    world::lemma_faithful_transitive(s0, s2, s2, given, s, raw, none, fenced, none, cap, cap);
}

/// Knowing more objects takes nothing back, where only nodes that are sound
/// were added.
proof fn lemma_faithful_later(
    s0: StoreView,
    s1: StoreView,
    s2: StoreView,
    given: Seq<ChildView>,
    s: Seq<MutationView>,
    kids: Seq<ChildView>,
    pending: Seq<MutationView>,
    cap: int,
)
    requires
        world::faithful(s0, s1, given, s, kids, pending, cap),
        world::faithful(
            s1,
            s2,
            kids,
            levels::no_mutations(),
            kids,
            levels::no_mutations(),
            -1,
        ),
        s2.extends(s1),
        pending == levels::no_mutations(),
        cap >= 0,
    ensures
        world::faithful(s0, s2, given, s, kids, pending, cap),
{
    let none = levels::no_mutations();
    lemma_faithful_weaken(s1, s2, kids, none, kids, none, cap);
    world::lemma_faithful_transitive(s0, s1, s2, given, s, kids, none, kids, none, cap, cap);
}

proof fn lemma_selected(
    store: StoreView,
    children: Seq<ChildView>,
    held: Seq<Seq<MutationView>>,
    chosen: Seq<int>,
    ends: Seq<u64>,
    depth: u32,
    down: spec_fn(StoreView, ChildView, Seq<MutationView>, u32, u64) -> Result<
        (StoreView, Seq<ChildView>, WriteAcc),
        Halt,
    >,
    at: int,
    acc: WriteAcc,
)
    requires
        at > 0,
    ensures
        selected_drained(store, children, held, chosen, ends, depth, down, at, acc)
            == if chosen.contains(at - 1) {
            match down(store, children[at - 1], held[at - 1], depth, ends[at - 1]) {
                Err(halt) => Err(halt),
                Ok((after, refs, more)) => selected_drained(
                    after,
                    children.take(at - 1) + refs + children.skip(at),
                    drained(held, at - 1, refs.len()),
                    chosen,
                    ends,
                    depth,
                    down,
                    at - 1,
                    drain_work(acc, more, depth),
                ),
            }
        } else {
            selected_drained(store, children, held, chosen, ends, depth, down, at - 1, acc)
        },
{
    reveal_with_fuel(selected_drained, 2);
}

/// Drain some children of a node into their subtrees.
#[verifier::rlimit(60)]
fn drain_selected(
    store: &mut NodeStore,
    level: Vec<FragmentMetadataChild>,
    routed: Buckets,
    indices: &Vec<usize>,
    depth: u32,
    end: u64,
    config: &FragmentMetadataTreeConfig,
    Ghost(height): Ghost<int>,
    Ghost(lower): Ghost<int>,
    Ghost(origin): Ghost<StoreView>,
    Ghost(first): Ghost<Seq<ChildView>>,
    Ghost(first_buffer): Ghost<Seq<MutationView>>,
) -> (r: Result<(Vec<FragmentMetadataChild>, Buckets, WriteAcc), Stop>)
    requires
        config.valid(),
        height >= 0,
        routed.held().len() == level@.len(),
        steps::shaped(views::all(level@), height, lower),
        above_fences(views::all(level@), routed.held()),
        old(store)@.extends(origin),
        flushing(
            origin,
            old(store)@,
            first,
            first_buffer,
            views::all(level@),
            routed.held(),
            ceiling(origin) as int,
        ),
        indices@.len() > 0,
        forall|k: int|
            0 <= k < indices@.len() ==> (#[trigger] indices@[k]) < level@.len()
                && routed.held()[indices@[k] as int].len() > 0,
    ensures
        match r {
            Ok((kids, left, acc)) => {
                &&& flushing(
                    origin,
                    final(store)@,
                    first,
                    first_buffer,
                    views::all(kids@),
                    left.held(),
                    ceiling(origin) as int,
                )
                &&& left.held().len() == kids@.len()
                &&& steps::shaped(views::all(kids@), height, lower)
                &&& above_fences(views::all(kids@), left.held())
                &&& flush::held_count(left.held()) < flush::held_count(routed.held())
                &&& store::booked(acc.io_bytes, old(store)@, final(store)@)
            },
            Err(stop) => store::honest(stop, old(store)@),
        },
        merge::grown(old(store)@, final(store)@),
        forall|names: Names| #[trigger]
            names.fit(final(store)@) ==> selected_drained(
                old(store)@,
                views::all(level@),
                routed.held(),
                flush::positions(indices@),
                child_ends(views::all(level@), end),
                depth,
                ingesting(names, *config, height as nat),
                level@.len() as int,
                WriteAcc::nothing(),
            ) == match r {
                Ok((kids, left, acc)) => Ok(
                    (final(store)@, views::all(kids@), left.held(), acc),
                ),
                Err(stop) => Err(stop.halt()),
            },
    decreases height, 3int,
{
    let ghost before = store@;
    let ghost cap = ceiling(origin) as int;
    let ghost start = views::all(level@);
    let ghost held0 = routed.held();
    let ghost chosen = flush::positions(indices@);
    let ends = ends_of(&level, end);
    let mut children = level;
    let mut buckets = routed;
    let mut acc = WriteAcc::new();
    let mut at: usize = children.len();
    let ghost mut taken: int = 0;
    proof {
        store::lemma_extends_self(before);
        assert(ends@ =~= child_ends(start, end));
    }
    // From the right, so splits and removals keep earlier indices valid.
    while at > 0
        invariant
            start == views::all(level@),
            held0 == routed.held(),
            chosen == flush::positions(indices@),
            ends@ == child_ends(start, end),
            forall|names: Names| #[trigger]
                names.fit(store@) ==> selected_drained(
                    before,
                    start,
                    held0,
                    chosen,
                    child_ends(start, end),
                    depth,
                    ingesting(names, *config, height as nat),
                    start.len() as int,
                    WriteAcc::nothing(),
                ) == selected_drained(
                    store@,
                    views::all(children@),
                    buckets.held(),
                    chosen,
                    child_ends(start, end),
                    depth,
                    ingesting(names, *config, height as nat),
                    at as int,
                    acc,
                ),
            config.valid(),
            height >= 0,
            at <= start.len(),
            ends@.len() == start.len(),
            held0.len() == start.len(),
            at <= children@.len(),
            children@.len() == buckets.held().len(),
            cap == ceiling(origin) as int,
            before == old(store)@,
            before.extends(origin),
            steps::shaped(start, height, lower),
            steps::shaped(views::all(children@), height, lower),
            above_fences(start, held0),
            above_fences(views::all(children@), buckets.held()),
            flushing(
                origin,
                store@,
                first,
                first_buffer,
                views::all(children@),
                buckets.held(),
                cap,
            ),
            forall|k: int| 0 <= k < at ==> #[trigger] views::all(children@)[k] == start[k],
            forall|k: int| 0 <= k < at ==> #[trigger] buckets.held()[k] == held0[k],
            flush::held_count(buckets.held()) + taken == flush::held_count(held0),
            taken >= 0,
            forall|k: int|
                0 <= k < indices@.len() ==> (#[trigger] indices@[k]) < start.len()
                    && held0[indices@[k] as int].len() > 0,
            forall|k: int|
                0 <= k < indices@.len() && (#[trigger] indices@[k]) >= at ==> taken > 0,
            store::booked(acc.io_bytes, before, store@),
            merge::grown(before, store@),
            ceiling(store@) == ceiling(origin),
        decreases at,
    {
        let ghost at0 = at as int;
        let ghost acc0 = acc;
        at = at - 1;
        if is_selected(indices, at) {
            let ghost middle = store@;
            let ghost now = views::all(children@);
            let ghost held = buckets.held();
            let (left, actions) = buckets.take(at);
            proof {
                assert(now[at as int] == start[at as int]);
                assert(held[at as int] == held0[at as int]);
                assert(now[at as int] == children@[at as int]@);
                let inc = views::all(actions@);
                assert forall|i: int| 0 <= i < inc.len() implies (#[trigger] inc[i]).key()
                    >= now[at as int].min_key by {
                    assert(held[at as int][i].key() >= now[at as int].min_key);
                }
            }
            let (refs, more) = match ingest(
                store,
                &children[at],
                actions,
                depth,
                ends[at],
                config,
            ) {
                Err(stop) => {
                    proof {
                        store::lemma_extends_lacks(before, middle, stop);
                        store::lemma_extends_transitive(before, middle, store@);
                    }
                    proof {
                        assert forall|names: Names| #[trigger] names.fit(store@) implies selected_drained(
                    before,
                    start,
                    held0,
                    chosen,
                    child_ends(start, end),
                    depth,
                    ingesting(names, *config, height as nat),
                    start.len() as int,
                    WriteAcc::nothing(),
                )
                            == Err::<(StoreView, Seq<ChildView>, Seq<Seq<MutationView>>, WriteAcc), Halt>(stop.halt()) by {
                            lemma_selected(
                        middle,
                        now,
                        held,
                        chosen,
                        child_ends(start, end),
                        depth,
                        ingesting(names, *config, height as nat),
                        at0,
                        acc0,
                    );
                    lemma_ingested(
                        middle,
                        names,
                        now[at as int],
                        held[at as int],
                        depth,
                        ends@[at as int],
                        *config,
                        height as nat,
                    );
                        }
                    }
                    return Err(stop);
                },
                Ok(done) => done,
            };
            let ghost new = views::all(refs@);
            let count: usize = refs.len();
            let ghost spent = acc.io_bytes;
            acc.add(more);
            acc.flushes = acc.flushes.saturating_add(1);
            if depth > acc.max_flush_depth {
                acc.max_flush_depth = depth;
            }
            buckets = left.replace(at, count);
            children = splice(children, at, refs);
            proof {
                let after = store@;
                let later = views::all(children@);
                let held2 = drained(held, at as int, new.len());
                assert(held.update(at as int, Seq::empty()).take(at as int) =~= held.take(
                    at as int,
                ));
                assert(held.update(at as int, Seq::empty()).skip(at + 1) =~= held.skip(at + 1));
                assert(buckets.held() =~= held2);
                store::lemma_extends_transitive(before, middle, after);
                store::lemma_booked_join(spent, more.io_bytes, before, middle, after);
                lemma_flushing_drain(
                    origin,
                    middle,
                    after,
                    first,
                    first_buffer,
                    now,
                    held,
                    at as int,
                    new,
                    cap,
                );
                lemma_drained_count(held, at as int, new.len());
                taken = taken + held[at as int].len();
                lemma_spliced(now, held, at as int, new, height, lower);
                assert forall|k: int| 0 <= k < at implies #[trigger] later[k] == start[k] by {
                    assert(later[k] == now[k]);
                }
                assert forall|k: int| 0 <= k < at implies #[trigger] buckets.held()[k]
                    == held0[k] by {
                    lemma_drained_at(held, at as int, new.len(), k);
                    assert(held[k] == held0[k]);
                }
                assert(held[at as int].len() > 0) by {
                    let sel = flush::positions(indices@);
                    let k = choose|k: int| 0 <= k < sel.len() && sel[k] == at as int;
                    assert(indices@[k] == at);
                }
                assert forall|names: Names| #[trigger] names.fit(store@) implies selected_drained(
                    before,
                    start,
                    held0,
                    chosen,
                    child_ends(start, end),
                    depth,
                    ingesting(names, *config, height as nat),
                    start.len() as int,
                    WriteAcc::nothing(),
                )
                    == selected_drained(
                    store@,
                    views::all(children@),
                    buckets.held(),
                    chosen,
                    child_ends(start, end),
                    depth,
                    ingesting(names, *config, height as nat),
                    at as int,
                    acc,
                ) by {
                    lemma_selected(
                        middle,
                        now,
                        held,
                        chosen,
                        child_ends(start, end),
                        depth,
                        ingesting(names, *config, height as nat),
                        at0,
                        acc0,
                    );
                    lemma_ingested(
                        middle,
                        names,
                        now[at as int],
                        held[at as int],
                        depth,
                        ends@[at as int],
                        *config,
                        height as nat,
                    );
                }
            }
        } else {
            proof {
                assert forall|k: int|
                    0 <= k < indices@.len() && (#[trigger] indices@[k])
                        >= at implies taken > 0 by {
                    if indices@[k] == at {
                        let sel = flush::positions(indices@);
                        assert(sel[k] == at as int);
                        assert(sel.contains(at as int));
                    }
                }
                assert forall|names: Names| #[trigger] names.fit(store@) implies selected_drained(
                    before,
                    start,
                    held0,
                    chosen,
                    child_ends(start, end),
                    depth,
                    ingesting(names, *config, height as nat),
                    start.len() as int,
                    WriteAcc::nothing(),
                )
                    == selected_drained(
                    store@,
                    views::all(children@),
                    buckets.held(),
                    chosen,
                    child_ends(start, end),
                    depth,
                    ingesting(names, *config, height as nat),
                    at as int,
                    acc,
                ) by {
                    lemma_selected(
                        store@,
                        views::all(children@),
                        buckets.held(),
                        chosen,
                        child_ends(start, end),
                        depth,
                        ingesting(names, *config, height as nat),
                        at0,
                        acc0,
                    );
                }
            }
        }
    }
    proof {
        assert(indices@[0] >= 0);
        assert(taken > 0);
        reveal(selected_drained);
    }
    Ok((children, buckets, acc))
}

/// What a list looks like once one child was replaced.
pub proof fn lemma_spliced(
    now: Seq<ChildView>,
    held: Seq<Seq<MutationView>>,
    at: int,
    refs: Seq<ChildView>,
    height: int,
    lower: int,
)
    requires
        0 <= at < now.len(),
        held.len() == now.len(),
        steps::shaped(now, height, lower),
        above_fences(now, held),
        steps::shaped(refs, height, now[at].min_key as int),
    ensures
        steps::shaped(now.take(at) + refs + now.skip(at + 1), height, lower),
        above_fences(now.take(at) + refs + now.skip(at + 1), drained(held, at, refs.len())),
        drained(held, at, refs.len()).len() == now.len() - 1 + refs.len(),
{
    let new = now.take(at) + refs + now.skip(at + 1);
    let held2 = drained(held, at, refs.len());
    assert(now[at].min_key >= lower);
    assert forall|i: int| 0 <= i < new.len() implies (#[trigger] new[i]).height == height
        && new[i].min_key >= lower && (height == 0 ==> new[i].num_keys > 0) by {
        if i < at {
            assert(new[i] == now[i]);
        } else if i < at + refs.len() {
            assert(new[i] == refs[i - at]);
        } else {
            assert(new[i] == now[i - refs.len() + 1]);
        }
    }
    assert forall|i: int, j: int| 0 <= i < held2.len() && 0 <= j < held2[i].len() implies (
    #[trigger] held2[i][j]).key() >= new[i].min_key by {
        lemma_drained_at(held, at, refs.len(), i);
        if i < at {
            assert(held[i][j].key() >= now[i].min_key);
        } else if i >= at + refs.len() {
            let k = i - refs.len() + 1;
            assert(held[k][j].key() >= now[k].min_key);
        }
    }
}

proof fn lemma_drained_through(
    store: StoreView,
    children: Seq<ChildView>,
    held: Seq<Seq<MutationView>>,
    depth: u32,
    end: u64,
    config: FragmentMetadataTreeConfig,
    down: spec_fn(StoreView, ChildView, Seq<MutationView>, u32, u64) -> Result<
        (StoreView, Seq<ChildView>, WriteAcc),
        Halt,
    >,
    acc: WriteAcc,
)
    ensures
        ({
            let pressure = urgency(
                children,
                wire::capped(flush::held_len(held)),
                any_bucket_retires(held),
                config,
            );
            let chosen = flush::selection(
                children,
                held,
                config,
                store.io_parallelism,
                pressure->0,
            );
            &&& settled(children, held, config, store.io_parallelism) ==> drained_through(
                store,
                children,
                held,
                depth,
                end,
                config,
                down,
                acc,
            ) == Ok::<(StoreView, Seq<ChildView>, Seq<Seq<MutationView>>, WriteAcc), Halt>(
                (store, children, held, acc),
            )
            &&& children.len() > 0 && pressure is Some && chosen.len() > 0 ==> drained_through(
                store,
                children,
                held,
                depth,
                end,
                config,
                down,
                acc,
            ) == match selected_drained(
                store,
                children,
                held,
                chosen,
                child_ends(children, end),
                depth,
                down,
                children.len() as int,
                WriteAcc::nothing(),
            ) {
                Err(halt) => Err(halt),
                Ok((after, kids, left, more)) => if flush::held_count(left) < flush::held_count(
                    held,
                ) {
                    drained_through(after, kids, left, depth, end, config, down, acc.with(more))
                } else {
                    Err(Halt::Need)
                },
            }
        }),
{
    reveal_with_fuel(drained_through, 2);
}

/// Drain children while some are worth it.
fn drain_until_settled(
    store: &mut NodeStore,
    level: Vec<FragmentMetadataChild>,
    routed: Buckets,
    depth: u32,
    end: u64,
    config: &FragmentMetadataTreeConfig,
    Ghost(height): Ghost<int>,
    Ghost(lower): Ghost<int>,
    Ghost(first): Ghost<Seq<ChildView>>,
    Ghost(first_buffer): Ghost<Seq<MutationView>>,
) -> (r: Result<(Vec<FragmentMetadataChild>, Buckets, WriteAcc), Stop>)
    requires
        config.valid(),
        height >= 0,
        routed.held().len() == level@.len(),
        steps::shaped(views::all(level@), height, lower),
        above_fences(views::all(level@), routed.held()),
        flushing(
            old(store)@,
            old(store)@,
            first,
            first_buffer,
            views::all(level@),
            routed.held(),
            ceiling(old(store)@) as int,
        ),
    ensures
        match r {
            Ok((kids, left, acc)) => {
                &&& flushing(
                    old(store)@,
                    final(store)@,
                    first,
                    first_buffer,
                    views::all(kids@),
                    left.held(),
                    ceiling(old(store)@) as int,
                )
                &&& left.held().len() == kids@.len()
                &&& steps::shaped(views::all(kids@), height, lower)
                &&& settled(
                    views::all(kids@),
                    left.held(),
                    *config,
                    old(store)@.io_parallelism,
                )
                &&& store::booked(acc.io_bytes, old(store)@, final(store)@)
            },
            Err(stop) => store::honest(stop, old(store)@),
        },
        merge::grown(old(store)@, final(store)@),
        forall|names: Names| #[trigger]
            names.fit(final(store)@) ==> drained_through(
                old(store)@,
                views::all(level@),
                routed.held(),
                depth,
                end,
                *config,
                ingesting(names, *config, height as nat),
                WriteAcc::nothing(),
            ) == match r {
                Ok((kids, left, acc)) => Ok(
                    (final(store)@, views::all(kids@), left.held(), acc),
                ),
                Err(stop) => Err(stop.halt()),
            },
    decreases height, 4int,
{
    let ghost before = store@;
    let ghost cap = ceiling(before) as int;
    let ghost kids0 = views::all(level@);
    let ghost held0 = routed.held();
    let mut acc = WriteAcc::new();
    let mut children = level;
    let mut buckets = routed;
    proof {
        store::lemma_extends_self(before);
    }
    loop
        invariant
            kids0 == views::all(level@),
            held0 == routed.held(),
            forall|names: Names| #[trigger]
                names.fit(store@) ==> drained_through(
                    before,
                    kids0,
                    held0,
                    depth,
                    end,
                    *config,
                    ingesting(names, *config, height as nat),
                    WriteAcc::nothing(),
                ) == drained_through(
                    store@,
                    views::all(children@),
                    buckets.held(),
                    depth,
                    end,
                    *config,
                    ingesting(names, *config, height as nat),
                    acc,
                ),
            config.valid(),
            height >= 0,
            before == old(store)@,
            cap == ceiling(before) as int,
            buckets.held().len() == children@.len(),
            steps::shaped(views::all(children@), height, lower),
            above_fences(views::all(children@), buckets.held()),
            flushing(
                before,
                store@,
                first,
                first_buffer,
                views::all(children@),
                buckets.held(),
                cap,
            ),
            store::booked(acc.io_bytes, before, store@),
            merge::grown(before, store@),
        ensures
            settled(
                views::all(children@),
                buckets.held(),
                *config,
                before.io_parallelism,
            ),
        decreases flush::held_count(buckets.held()),
    {
        if children.is_empty() {
            break;
        }
        let held_bytes: u64 = buckets.total_bytes();
        let retiring: bool = find_bucket_retiring(&buckets);
        let now = match find_urgency(&children, held_bytes, retiring, config) {
            None => {
                break;
            },
            Some(now) => now,
        };
        let indices = flush::select_children(
            &children,
            &buckets,
            config,
            store.io_parallelism,
            now,
        );
        // Under semantic pressure no batch pays for its object yet, so
        // keep buffering. Under structural pressure a byte overflow always
        // leaves a bucket at or above the fair share, so only routing or
        // fanout remains and the caller splits it.
        if indices.is_empty() {
            proof {
                assert(flush::positions(indices@).len() == 0);
            }
            break;
        }
        let ghost middle = store@;
        let ghost kids_now = views::all(children@);
        let ghost held_now = buckets.held();
        let ghost acc0 = acc;
        proof {
            let sel = flush::selection(
                views::all(children@),
                buckets.held(),
                *config,
                store@.io_parallelism,
                now,
            );
            flush::law_selection_is_worthwhile(
                views::all(children@),
                buckets.held(),
                *config,
                store@.io_parallelism,
                now,
            );
            assert forall|k: int| 0 <= k < indices@.len() implies (#[trigger] indices@[k])
                < children@.len() && buckets.held()[indices@[k] as int].len() > 0 by {
                assert(sel[k] == flush::positions(indices@)[k]);
                assert(0 <= sel[k] < buckets.held().len());
            }
        }
        let (kids, left, more) = match drain_selected(
            store,
            children,
            buckets,
            &indices,
            depth,
            end,
            config,
            Ghost(height),
            Ghost(lower),
            Ghost(before),
            Ghost(first),
            Ghost(first_buffer),
        ) {
            Err(stop) => {
                proof {
                    store::lemma_extends_lacks(before, middle, stop);
                    store::lemma_extends_transitive(before, middle, store@);
                }
                proof {
                    assert forall|names: Names| #[trigger] names.fit(store@) implies drained_through(
                    before,
                    kids0,
                    held0,
                    depth,
                    end,
                    *config,
                    ingesting(names, *config, height as nat),
                    WriteAcc::nothing(),
                )
                        == Err::<(StoreView, Seq<ChildView>, Seq<Seq<MutationView>>, WriteAcc), Halt>(stop.halt()) by {
                        lemma_drained_through(
                    middle,
                    kids_now,
                    held_now,
                    depth,
                    end,
                    *config,
                    ingesting(names, *config, height as nat),
                    acc0,
                );
                    }
                }
                return Err(stop);
            },
            Ok(done) => done,
        };
        proof {
            store::lemma_extends_transitive(before, middle, store@);
            store::lemma_booked_join(acc.io_bytes, more.io_bytes, before, middle, store@);
        }
        acc.add(more);
        children = kids;
        buckets = left;
        proof {
            assert forall|names: Names| #[trigger] names.fit(store@) implies drained_through(
                    before,
                    kids0,
                    held0,
                    depth,
                    end,
                    *config,
                    ingesting(names, *config, height as nat),
                    WriteAcc::nothing(),
                )
                == drained_through(
                    store@,
                    views::all(children@),
                    buckets.held(),
                    depth,
                    end,
                    *config,
                    ingesting(names, *config, height as nat),
                    acc,
                ) by {
                lemma_drained_through(
                    middle,
                    kids_now,
                    held_now,
                    depth,
                    end,
                    *config,
                    ingesting(names, *config, height as nat),
                    acc0,
                );
            }
        }
    }
    proof {
        assert forall|names: Names| #[trigger] names.fit(store@) implies drained_through(
                    before,
                    kids0,
                    held0,
                    depth,
                    end,
                    *config,
                    ingesting(names, *config, height as nat),
                    WriteAcc::nothing(),
                )
            == Ok::<(StoreView, Seq<ChildView>, Seq<Seq<MutationView>>, WriteAcc), Halt>(
                (store@, views::all(children@), buckets.held(), acc),
            ) by {
            lemma_drained_through(
                store@,
                views::all(children@),
                buckets.held(),
                depth,
                end,
                *config,
                ingesting(names, *config, height as nat),
                acc,
            );
        }
    }
    Ok((children, buckets, acc))
}

/// Partition a buffer by child, refusing what routing could only have
/// produced from a corrupt node.
pub(crate) fn route_buffer(
    children: &Vec<FragmentMetadataChild>,
    buffer: Vec<FragmentMetadataMutation>,
    end: u64,
    Ghost(store): Ghost<StoreView>,
) -> (r: Result<Buckets, Error>)
    requires
        children@.len() > 0,
    ensures
        r matches Ok(buckets) ==> {
            &&& buckets.held().len() == children@.len()
            &&& above_fences(views::all(children@), buckets.held())
            &&& flushing(
                store,
                store,
                views::all(children@),
                views::all(buffer@),
                views::all(children@),
                buckets.held(),
                ceiling(store) as int,
            )
        },
        match split::routing_fault(
            views::all(children@),
            split::buckets(views::all(children@), views::all(buffer@)),
            end,
            children@.len() as int,
        ) {
            Some(reason) => r == Err::<Buckets, Error>(Error::CorruptFile { reason }),
            None => r matches Ok(buckets) && buckets.held() == split::buckets(
                views::all(children@),
                views::all(buffer@),
            ),
        },
{
    let ghost first = views::all(children@);
    let ghost pending = views::all(buffer@);
    let routed = split::partition_buffer_by_child(children, buffer);
    let ghost held = split::bucket_views(routed@);
    proof {
        assert forall|i: int| 0 <= i < held.len() implies #[trigger] held[i] == split::bucket(
            first,
            pending,
            i,
        ) by {
            assert(views::all(routed@[i]@) == split::bucket(first, pending, i));
        }
        assert(held =~= split::buckets(first, pending));
    }
    match split::validate_routed(children, &routed, end) {
        Err(error) => {
            return Err(error);
        },
        Ok(()) => {},
    }
    proof {
        lemma_flushing_start(store, first, pending, held, ceiling(store) as int);
        split::lemma_routing_fault(first, held, end, first.len() as int);
        assert(above_fences(first, held)) by {
            assert forall|i: int, j: int|
                0 <= i < held.len() && 0 <= j < held[i].len() implies (
            #[trigger] held[i][j]).key() >= first[i].min_key by {
                let child_end = node::end_of(first, i, end);
                assert(split::bucket_fault(first[i], child_end, held[i]) is None);
                split::lemma_bucket_fault(first[i], child_end, held[i]);
                assert(split::misrouted(first[i], child_end, held[i][j]) is None);
            }
        }
    }
    Ok(Buckets::new(routed))
}

/// Flush an internal node's buffer to its children while it is pressured.
/// Only children whose pending batch amortizes a rewrite drain. Under semantic
/// pressure the rest keep buffering. Under structural pressure the caller
/// splits whatever routing still overflows. `depth` is this node's level below
/// the root, 0 for the root itself; its range starts at `lower` and ends
/// before `end`. Gives the children, split if needed, and the residual buffer.
#[verifier::rlimit(60)]
pub(crate) fn flush_internal(
    store: &mut NodeStore,
    children: Vec<FragmentMetadataChild>,
    buffer: Vec<FragmentMetadataMutation>,
    depth: u32,
    lower: u64,
    end: u64,
    config: &FragmentMetadataTreeConfig,
    Ghost(height): Ghost<int>,
) -> (r: Result<(Vec<FragmentMetadataChild>, Vec<FragmentMetadataMutation>, WriteAcc), Stop>)
    requires
        config.valid(),
        height >= 0,
        steps::shaped(views::all(children@), height, lower as int),
    ensures
        match r {
            Ok((kids, rest, acc)) => {
                let out = views::all(kids@);
                &&& world::faithful(
                    old(store)@,
                    final(store)@,
                    views::all(children@),
                    views::all(buffer@),
                    out,
                    views::all(rest@),
                    ceiling(old(store)@) as int,
                )
                &&& steps::shaped(out, height, lower as int)
                &&& out.len() > 0 ==> out[0].min_key == lower
                &&& children@.len() > 0 && out.len() == 0 ==> rest@.len() == 0
                &&& flushed(
                    views::all(children@),
                    views::all(buffer@),
                    out,
                    views::all(rest@),
                    *config,
                    old(store)@.io_parallelism,
                )
                &&& store::booked(acc.io_bytes, old(store)@, final(store)@)
            },
            Err(stop) => store::honest(stop, old(store)@),
        },
        merge::grown(old(store)@, final(store)@),
        forall|names: Names| #[trigger]
            names.fit(final(store)@) ==> flushed_out(
                old(store)@,
                names,
                views::all(children@),
                views::all(buffer@),
                depth,
                lower,
                end,
                *config,
                height as nat,
            ) == match r {
                Ok((kids, rest, acc)) => Ok(
                    (final(store)@, views::all(kids@), views::all(rest@), acc),
                ),
                Err(stop) => Err(stop.halt()),
            },
    decreases height, 5int,
{
    let ghost before = store@;
    let ghost first = views::all(children@);
    let ghost first_buffer = views::all(buffer@);
    let ghost none = levels::no_mutations();
    let ghost cap = ceiling(before) as int;
    let mut acc = WriteAcc::new();
    let mut children = children;
    let mut buffer = buffer;
    proof {
        store::lemma_extends_self(before);
        world::lemma_faithful_self(before, first, first_buffer);
        lemma_faithful_weaken(before, before, first, first_buffer, first, first_buffer, cap);
    }
    // A childless node has nowhere to flush; the caller turns the buffer into
    // leaves instead.
    let empty: Vec<FragmentMetadataChild> = Vec::new();
    let bytes: u64 = node::internal_logical_bytes(&empty, &buffer);
    proof {
        assert(views::all(empty@) =~= merge::no_children());
        assert(node::children_len(views::all(empty@)) == 0);
    }
    let mut pressure: Option<Pressure> = None;
    if !children.is_empty() {
        let retiring: bool = find_retiring(&buffer);
        pressure = find_urgency(&children, bytes, retiring, config);
    }
    if pressure.is_some() {
        let routed = match route_buffer(&children, buffer, end, Ghost(before)) {
            Err(error) => {
                proof {
                    assert forall|names: Names| #[trigger] names.fit(store@) implies flushed_out(
                    before,
                    names,
                    first,
                    first_buffer,
                    depth,
                    lower,
                    end,
                    *config,
                    height as nat,
                )
                        == Err::<(StoreView, Seq<ChildView>, Seq<MutationView>, WriteAcc), Halt>(
                            Halt::Fail(error),
                        ) by {
                        reveal(flushed_out);
                reveal(level_flushed);
                    }
                }
                return Err(Stop::Fail(error));
            },
            Ok(routed) => routed,
        };
        let (settled_children, buckets, more) = match drain_until_settled(
            store,
            children,
            routed,
            depth,
            end,
            config,
            Ghost(height),
            Ghost(lower as int),
            Ghost(first),
            Ghost(first_buffer),
        ) {
            Err(stop) => {
                proof {
                    assert forall|names: Names| #[trigger] names.fit(store@) implies flushed_out(
                    before,
                    names,
                    first,
                    first_buffer,
                    depth,
                    lower,
                    end,
                    *config,
                    height as nat,
                )
                        == Err::<(StoreView, Seq<ChildView>, Seq<MutationView>, WriteAcc), Halt>(stop.halt()) by {
                        reveal(flushed_out);
                reveal(level_flushed);
                    }
                }
                return Err(stop);
            },
            Ok(done) => done,
        };
        children = settled_children;
        acc.add(more);
        let ghost held = buckets.held();
        proof {
            lemma_flushing_end(
                before,
                store@,
                first,
                first_buffer,
                views::all(children@),
                held,
                cap,
            );
        }
        buffer = buckets.into_buffer();
        let ghost kids = views::all(children@);
        let ghost pending = views::all(buffer@);
        let ghost middle = store@;
        let (fenced, more) = match merge::fence_left_edge(store, children, lower, Ghost(height)) {
            Err(stop) => {
                proof {
                    store::lemma_extends_lacks(before, middle, stop);
                    store::lemma_extends_transitive(before, middle, store@);
                }
                proof {
                    assert forall|names: Names| #[trigger] names.fit(store@) implies flushed_out(
                    before,
                    names,
                    first,
                    first_buffer,
                    depth,
                    lower,
                    end,
                    *config,
                    height as nat,
                )
                        == Err::<(StoreView, Seq<ChildView>, Seq<MutationView>, WriteAcc), Halt>(stop.halt()) by {
                        reveal(flushed_out);
                reveal(level_flushed);
                    }
                }
                return Err(stop);
            },
            Ok(done) => done,
        };
        proof {
            let after = store@;
            let out = views::all(fenced@);
            store::lemma_extends_transitive(before, middle, after);
            store::lemma_booked_join(acc.io_bytes, more, before, middle, after);
            if kids.len() > 0 {
                lemma_fenced_level(
                    before,
                    middle,
                    after,
                    first,
                    first_buffer,
                    kids,
                    pending,
                    out,
                    cap,
                );
            } else {
                assert(held =~= Seq::<Seq<MutationView>>::empty());
                assert(pending =~= none);
                assert(kids =~= merge::no_children());
                assert(out =~= merge::no_children());
                lemma_faithful_later(
                    before,
                    middle,
                    after,
                    first,
                    first_buffer,
                    kids,
                    pending,
                    cap,
                );
            }
            assert(settled(kids, held, *config, before.io_parallelism));
            assert(flush::flattened(held) == pending);
            assert(flushed(first, first_buffer, out, pending, *config, before.io_parallelism));
            assert(kids.len() == 0 ==> buffer@.len() == 0) by {
                assert(pending.len() == buffer@.len());
            }
        }
        acc.io_bytes = acc.io_bytes.saturating_add(more);
        proof {
            assert forall|names: Names| #[trigger] names.fit(store@) implies flushed_out(
                    before,
                    names,
                    first,
                    first_buffer,
                    depth,
                    lower,
                    end,
                    *config,
                    height as nat,
                )
                == Ok::<(StoreView, Seq<ChildView>, Seq<MutationView>, WriteAcc), Halt>(
                    (store@, views::all(fenced@), views::all(buffer@), acc),
                ) by {
                reveal(flushed_out);
                reveal(level_flushed);
            }
        }
        return Ok((fenced, buffer, acc));
    }
    let ghost middle = store@;
    let (fenced, more) = match merge::fence_left_edge(store, children, lower, Ghost(height)) {
        Err(stop) => {
            proof {
                assert forall|names: Names| #[trigger] names.fit(store@) implies flushed_out(
                    before,
                    names,
                    first,
                    first_buffer,
                    depth,
                    lower,
                    end,
                    *config,
                    height as nat,
                )
                    == Err::<(StoreView, Seq<ChildView>, Seq<MutationView>, WriteAcc), Halt>(stop.halt()) by {
                    reveal(flushed_out);
                reveal(level_flushed);
                }
            }
            return Err(stop);
        },
        Ok(done) => done,
    };
    proof {
        let after = store@;
        let out = views::all(fenced@);
        if first.len() > 0 {
            lemma_fenced_level(
                before,
                before,
                after,
                first,
                first_buffer,
                first,
                first_buffer,
                out,
                cap,
            );
        } else {
            assert(out =~= first);
            lemma_childless(before, after, first, first_buffer);
            lemma_faithful_weaken(before, after, first, first_buffer, first, first_buffer, cap);
        }
    }
    acc.io_bytes = more;
    proof {
        assert forall|names: Names| #[trigger] names.fit(store@) implies flushed_out(
                    before,
                    names,
                    first,
                    first_buffer,
                    depth,
                    lower,
                    end,
                    *config,
                    height as nat,
                )
            == Ok::<(StoreView, Seq<ChildView>, Seq<MutationView>, WriteAcc), Halt>(
                (store@, views::all(fenced@), views::all(buffer@), acc),
            ) by {
            reveal(flushed_out);
                reveal(level_flushed);
        }
    }
    Ok((fenced, buffer, acc))
}

/// Fencing the left edge of a flushed level.
proof fn lemma_fenced_level(
    s0: StoreView,
    s1: StoreView,
    s2: StoreView,
    first: Seq<ChildView>,
    first_buffer: Seq<MutationView>,
    kids: Seq<ChildView>,
    pending: Seq<MutationView>,
    out: Seq<ChildView>,
    cap: int,
)
    requires
        world::faithful(s0, s1, first, first_buffer, kids, pending, cap),
        world::faithful(
            s1,
            s2,
            kids,
            levels::no_mutations(),
            out,
            levels::no_mutations(),
            -1,
        ),
        s2.extends(s1),
        kids.len() > 0,
        out.len() > 0,
        out[0].height == kids[0].height,
        out[0].min_key <= kids[0].min_key,
        cap >= 0,
    ensures
        world::faithful(s0, s2, first, first_buffer, out, pending, cap),
{
    let x = merge::no_children();
    steps::step_splice(s1, s2, x, kids, x, pending, out);
    assert(x + kids + x =~= kids);
    assert(x + out + x =~= out);
    lemma_faithful_weaken(s1, s2, kids, pending, out, pending, cap);
    world::lemma_faithful_transitive(
        s0,
        s1,
        s2,
        first,
        first_buffer,
        kids,
        pending,
        out,
        pending,
        cap,
        cap,
    );
}

/// A childless level keeps its buffer.
pub proof fn lemma_childless(
    before: StoreView,
    after: StoreView,
    first: Seq<ChildView>,
    buffer: Seq<MutationView>,
)
    requires
        world::faithful(
            before,
            after,
            first,
            levels::no_mutations(),
            first,
            levels::no_mutations(),
            -1,
        ),
        after.extends(before),
        first.len() == 0,
    ensures
        world::faithful(before, after, first, buffer, first, buffer, -1),
{
    reveal(world::faithful);
    assert forall|w: World|
        #![trigger world::agrees(w, after)]
        world::agrees(w, after) && world::all_sound(w, before) && world::sound(
            w,
            first,
            buffer,
        ) implies world::all_sound(w, after) && world::refines(
        w,
        first,
        buffer,
        first,
        buffer,
        -1,
    ) by {
        levels::lemma_bare_sound(w, first);
        world::lemma_refines_self(w, first, buffer);
    }
}

} // verus!
