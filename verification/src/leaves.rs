//! Levels of leaves.

use vstd::prelude::*;

use crate::error::Error;
use crate::levels;
use crate::node;
use crate::pb::{ChildView, MutationView};
use crate::record;
use crate::record::{Fragment, FragmentView};
use crate::store;
use crate::views;
use crate::world;
use crate::world::World;

verus! {

broadcast use crate::views::group_views;

/// A record put behind every other one whose id is not larger.
pub open spec fn placed(records: Seq<FragmentView>, x: FragmentView) -> Seq<FragmentView>
    decreases records.len(),
{
    if records.len() == 0 || records.last().id <= x.id {
        records.push(x)
    } else {
        placed(records.drop_last(), x).push(records.last())
    }
}

/// Records in order of their ids, equals staying in the order they had.
pub open spec fn by_id(records: Seq<FragmentView>) -> Seq<FragmentView>
    decreases records.len(),
{
    if records.len() == 0 {
        records
    } else {
        placed(by_id(records.drop_last()), records.last())
    }
}

/// Records that ascend stay as they are.
pub proof fn lemma_by_id_fixed(records: Seq<FragmentView>)
    requires
        store::ascending(records),
    ensures
        by_id(records) == records,
    decreases records.len(),
{
    if records.len() > 0 {
        let rest = records.drop_last();
        assert(store::ascending(rest)) by {
            assert forall|i: int, j: int| 0 <= i < j < rest.len() implies (#[trigger] rest[i]).id
                < (#[trigger] rest[j]).id by {
                assert(rest[i] == records[i] && rest[j] == records[j]);
            }
        }
        lemma_by_id_fixed(rest);
        if rest.len() > 0 {
            assert(rest.last() == records[records.len() - 2]);
            assert(records.last() == records[records.len() - 1]);
        }
        assert(rest.push(records.last()) =~= records);
    }
}

/// Sorting keeps every record.
pub proof fn lemma_by_id_from(records: Seq<FragmentView>, lower: int)
    requires
        forall|i: int| 0 <= i < records.len() ==> (#[trigger] records[i]).id >= lower,
    ensures
        by_id(records).len() == records.len(),
        forall|i: int|
            0 <= i < by_id(records).len() ==> (#[trigger] by_id(records)[i]).id >= lower,
    decreases records.len(),
{
    if records.len() > 0 {
        let rest = records.drop_last();
        assert forall|i: int| 0 <= i < rest.len() implies (#[trigger] rest[i]).id >= lower by {
            assert(rest[i] == records[i]);
        }
        lemma_by_id_from(rest, lower);
        assert(records.last() == records[records.len() - 1]);
        lemma_placed_from(by_id(rest), records.last(), lower);
    }
}

proof fn lemma_placed_from(records: Seq<FragmentView>, x: FragmentView, lower: int)
    requires
        forall|i: int| 0 <= i < records.len() ==> (#[trigger] records[i]).id >= lower,
        x.id >= lower,
    ensures
        placed(records, x).len() == records.len() + 1,
        forall|i: int|
            0 <= i < placed(records, x).len() ==> (#[trigger] placed(records, x)[i]).id >= lower,
    decreases records.len(),
{
    if records.len() > 0 && records.last().id > x.id {
        let rest = records.drop_last();
        assert forall|i: int| 0 <= i < rest.len() implies (#[trigger] rest[i]).id >= lower by {
            assert(rest[i] == records[i]);
        }
        lemma_placed_from(rest, x, lower);
        assert(records.last() == records[records.len() - 1]);
    }
}

proof fn lemma_placed_at(records: Seq<FragmentView>, x: FragmentView, at: int)
    requires
        0 <= at <= records.len(),
        forall|i: int| at <= i < records.len() ==> (#[trigger] records[i]).id > x.id,
        at == 0 || records[at - 1].id <= x.id,
    ensures
        placed(records, x) == records.insert(at, x),
    decreases records.len(),
{
    if at < records.len() {
        let rest = records.drop_last();
        assert(records.last() == records[records.len() - 1]);
        lemma_placed_at(rest, x, at);
        assert(rest.insert(at, x).push(records.last()) =~= records.insert(at, x));
    } else {
        assert(records.insert(at, x) =~= records.push(x));
    }
}

/// Whether two records have one id.
pub open spec fn repeated(records: Seq<FragmentView>) -> bool {
    exists|i: int, j: int|
        0 <= i < j < records.len() && (#[trigger] records[i]).id == (#[trigger] records[j]).id
}

pub open spec fn has_id(records: Seq<FragmentView>, id: u64) -> bool {
    exists|i: int| 0 <= i < records.len() && (#[trigger] records[i]).id == id
}

/// Whether no record comes before one with a smaller id.
pub open spec fn in_order(records: Seq<FragmentView>) -> bool {
    forall|i: int, j: int|
        0 <= i < j < records.len() ==> (#[trigger] records[i]).id <= (#[trigger] records[j]).id
}

pub proof fn lemma_placed(records: Seq<FragmentView>, x: FragmentView) -> (at: int)
    requires
        in_order(records),
    ensures
        0 <= at <= records.len(),
        placed(records, x) == records.insert(at, x),
        in_order(placed(records, x)),
    decreases records.len(),
{
    if records.len() == 0 || records.last().id <= x.id {
        let at = records.len() as int;
        assert(placed(records, x) =~= records.insert(at, x));
        assert(in_order(placed(records, x)));
        at
    } else {
        let rest = records.drop_last();
        assert(in_order(rest));
        let at = lemma_placed(rest, x);
        assert(placed(records, x) =~= records.insert(at, x));
        let out = placed(records, x);
        assert forall|i: int, j: int| 0 <= i < j < out.len() implies (#[trigger] out[i]).id <= (
        #[trigger] out[j]).id by {
            let inner = placed(rest, x);
            if j == out.len() - 1 {
                assert(out[j] == records.last());
                if i == at {
                    assert(out[i] == x);
                } else if i < at {
                    assert(out[i] == records[i]);
                } else {
                    assert(out[i] == records[i - 1]);
                }
            } else {
                assert(out[i] == inner[i] && out[j] == inner[j]);
            }
        }
        at
    }
}

/// One record more brings its own id.
pub proof fn lemma_inserted_ids(s: Seq<FragmentView>, at: int, x: FragmentView)
    requires
        0 <= at <= s.len(),
    ensures
        forall|id: u64| #[trigger]
            has_id(s.insert(at, x), id) == (has_id(s, id) || id == x.id),
        repeated(s.insert(at, x)) == (repeated(s) || has_id(s, x.id)),
{
    let out = s.insert(at, x);
    let to = |i: int|
        if i < at {
            i
        } else {
            i + 1
        };
    let from = |i: int|
        if i < at {
            i
        } else {
            i - 1
        };
    assert forall|i: int| 0 <= i < s.len() implies (#[trigger] s[i]) == out[to(i)] by {}
    assert forall|i: int| 0 <= i < out.len() && i != at implies (#[trigger] out[i])
        == s[from(i)] by {}
    assert(out[at] == x);
    assert forall|id: u64| #[trigger] has_id(out, id) == (has_id(s, id) || id == x.id) by {
        if has_id(out, id) && id != x.id {
            let i = choose|i: int| 0 <= i < out.len() && (#[trigger] out[i]).id == id;
            assert(s[from(i)].id == id);
        }
        if has_id(s, id) {
            let i = choose|i: int| 0 <= i < s.len() && (#[trigger] s[i]).id == id;
            assert(out[to(i)].id == id);
        }
    }
    if repeated(out) {
        let (i, j) = choose|i: int, j: int|
            0 <= i < j < out.len() && (#[trigger] out[i]).id == (#[trigger] out[j]).id;
        if i == at {
            assert(s[from(j)].id == x.id);
        } else if j == at {
            assert(s[from(i)].id == x.id);
        } else {
            assert(s[from(i)].id == s[from(j)].id);
        }
    }
    if repeated(s) {
        let (i, j) = choose|i: int, j: int|
            0 <= i < j < s.len() && (#[trigger] s[i]).id == (#[trigger] s[j]).id;
        assert(out[to(i)].id == out[to(j)].id);
    }
    if has_id(s, x.id) {
        let i = choose|i: int| 0 <= i < s.len() && (#[trigger] s[i]).id == x.id;
        let k = to(i);
        if k < at {
            assert(out[k].id == out[at].id);
        } else {
            assert(out[at].id == out[k].id);
        }
    }
}

/// Sorting puts records in order and keeps which ids they have.
pub proof fn lemma_by_id(records: Seq<FragmentView>)
    ensures
        in_order(by_id(records)),
        forall|id: u64| #[trigger] has_id(by_id(records), id) == has_id(records, id),
        repeated(by_id(records)) == repeated(records),
    decreases records.len(),
{
    if records.len() > 0 {
        let rest = records.drop_last();
        let x = records.last();
        lemma_by_id(rest);
        let at = lemma_placed(by_id(rest), x);
        lemma_inserted_ids(by_id(rest), at, x);
        lemma_inserted_ids(rest, rest.len() as int, x);
        assert(records =~= rest.insert(rest.len() as int, x));
        assert(has_id(by_id(rest), x.id) == has_id(rest, x.id));
    }
}

/// Sort records by id, keeping the order of equal ones.
pub fn sort_by_id(records: Vec<Fragment>) -> (r: Vec<Fragment>)
    ensures
        views::all(r@) == by_id(views::all(records@)),
{
    let ghost given = views::all(records@);
    let mut out: Vec<Fragment> = Vec::new();
    for record in iter: records
        invariant
            given == views::all(iter.seq()),
            views::all(out@) == by_id(given.take(iter.index() as int)),
    {
        let ghost n = iter.index() as int;
        let ghost before = views::all(out@);
        let mut at: usize = out.len();
        while at > 0 && out[at - 1].id > record.id
            invariant
                at <= out@.len(),
                before == views::all(out@),
                forall|i: int| at <= i < before.len() ==> (#[trigger] before[i]).id > record@.id,
            decreases at,
        {
            assert(before[at - 1] == out@[at - 1]@);
            at = at - 1;
        }
        proof {
            if at > 0 {
                assert(before[at - 1] == out@[at - 1]@);
            }
            lemma_placed_at(before, record@, at as int);
            assert(given[n] == record@);
            assert(given.take(n + 1).drop_last() =~= given.take(n));
            assert(given.take(n + 1).last() == record@);
        }
        out.insert(at, record);
        assert(views::all(out@) =~= before.insert(at as int, record@));
    }
    assert(given.take(given.len() as int) =~= given);
    out
}

/// A record with an id is the one found for it among records that ascend.
pub proof fn lemma_found(records: Seq<FragmentView>, i: int)
    requires
        store::ascending(records),
        0 <= i < records.len(),
    ensures
        world::found(records, records[i].id) == Some(records[i]),
{
    let key = records[i].id;
    let k = choose|k: int| 0 <= k < records.len() && (#[trigger] records[k]).id == key;
    assert(records[i].id == key);
    if k < i {
        assert(records[k].id < records[i].id);
    } else if i < k {
        assert(records[i].id < records[k].id);
    }
}

pub proof fn lemma_found_some(records: Seq<FragmentView>, key: u64) -> (i: int)
    requires
        world::found(records, key) is Some,
    ensures
        0 <= i < records.len(),
        records[i].id == key,
        world::found(records, key) == Some(records[i]),
{
    choose|i: int| 0 <= i < records.len() && (#[trigger] records[i]).id == key
}

/// Whether some references stand for leaves with the given parts of some
/// records.
pub open spec fn holding(
    w: World,
    refs: Seq<ChildView>,
    records: Seq<FragmentView>,
    parts: Seq<(int, int)>,
    watermark: u64,
) -> bool {
    &&& store::tiles(parts, 0, records.len() as int)
    &&& refs.len() == parts.len()
    &&& forall|i: int|
        0 <= i < refs.len() ==> {
            &&& (#[trigger] refs[i]).height == 0
            &&& refs[i].materialized_through_action_sequence == watermark
            &&& refs[i].min_key == records[parts[i].0].id
            &&& world::leaf_agrees(
                w,
                refs[i].loc(),
                records.subrange(parts[i].0, parts[i].1),
            )
        }
}

/// Where a record that some leaves hold is found.
proof fn lemma_held_record(
    w: World,
    refs: Seq<ChildView>,
    records: Seq<FragmentView>,
    parts: Seq<(int, int)>,
    watermark: u64,
    i: int,
    key: u64,
)
    requires
        store::ascending(records),
        holding(w, refs, records, parts, watermark),
        0 <= i < refs.len(),
        (w.record)(refs[i].loc(), key) is Some,
    ensures
        world::found(records, key) == (w.record)(refs[i].loc(), key),
        refs[i].min_key <= key,
        forall|j: int| i < j < refs.len() ==> key < (#[trigger] refs[j]).min_key,
{
    store::lemma_tiles(parts, 0, records.len() as int);
    let part = records.subrange(parts[i].0, parts[i].1);
    assert(world::found(part, key) is Some);
    let k = lemma_found_some(part, key);
    let at = parts[i].0 + k;
    assert(part[k] == records[at]);
    lemma_found(records, at);
    if k > 0 {
        assert(records[parts[i].0].id < records[at].id);
    }
    assert forall|j: int| i < j < refs.len() implies key < (#[trigger] refs[j]).min_key by {
        assert(parts[i].1 <= parts[j].0);
        assert(parts[j].0 < parts[j].1);
        assert(records[at].id < records[parts[j].0].id);
    }
}

/// Which leaf holds a record.
proof fn lemma_holder(
    w: World,
    refs: Seq<ChildView>,
    records: Seq<FragmentView>,
    parts: Seq<(int, int)>,
    watermark: u64,
    key: u64,
) -> (i: int)
    requires
        store::ascending(records),
        holding(w, refs, records, parts, watermark),
        world::found(records, key) is Some,
    ensures
        0 <= i < refs.len(),
        (w.record)(refs[i].loc(), key) == world::found(records, key),
{
    let k = lemma_found_some(records, key);
    let i = lemma_tile_of(parts, 0, records.len() as int, k);
    store::lemma_tiles(parts, 0, records.len() as int);
    let part = records.subrange(parts[i].0, parts[i].1);
    assert(part[k - parts[i].0] == records[k]);
    assert(store::ascending(part)) by {
        assert forall|a: int, b: int| 0 <= a < b < part.len() implies (#[trigger] part[a]).id < (
        #[trigger] part[b]).id by {
            assert(records[parts[i].0 + a].id < records[parts[i].0 + b].id);
        }
    }
    lemma_found(part, k - parts[i].0);
    assert(refs[i].height == 0);
    i
}

proof fn lemma_tile_of(parts: Seq<(int, int)>, from: int, to: int, k: int) -> (i: int)
    requires
        store::tiles(parts, from, to),
        from <= k < to,
    ensures
        0 <= i < parts.len(),
        parts[i].0 <= k < parts[i].1,
    decreases parts.len(),
{
    let last = parts.len() - 1;
    if parts[last].0 <= k {
        last
    } else {
        store::lemma_tiles_prefix(parts, from, to);
        let rest = parts.drop_last();
        assert(parts.last() == parts[last]);
        let i = lemma_tile_of(rest, from, parts[last].0, k);
        assert(rest[i] == parts[i]);
        i
    }
}

/// Leaves that hold records a tree may hold are children it may hold.
pub proof fn lemma_leaf_base(
    w: World,
    records: Seq<FragmentView>,
    parts: Seq<(int, int)>,
    refs: Seq<ChildView>,
    watermark: u64,
    lower: u64,
)
    requires
        store::ascending(records),
        holding(w, refs, records, parts, watermark),
        records.len() > 0 ==> lower <= records[0].id,
        forall|key: u64| world::proper(#[trigger] world::found(records, key), key),
    ensures
        ({
            let new = node::fenced(refs, lower);
            &&& world::sane(w, new)
            &&& forall|key: u64| #[trigger]
                world::base_at(w, new, key) == world::found(records, key)
            &&& forall|i: int|
                0 <= i < new.len() ==> (#[trigger] new[i]).height == 0
                    && new[i].materialized_through_action_sequence == watermark
        }),
{
    let new = node::fenced(refs, lower);
    store::lemma_tiles(parts, 0, records.len() as int);
    assert forall|i: int| 0 <= i < new.len() implies (#[trigger] new[i]).loc() == refs[i].loc()
        && new[i].height == 0 && new[i].materialized_through_action_sequence == watermark
        && new[i].min_key <= refs[i].min_key && (i > 0 ==> new[i] == refs[i]) by {
        assert(refs[i].height == 0);
        if i == 0 {
            assert(parts[0].0 == 0);
        }
    }
    assert forall|i: int, j: int| 0 <= i < j < new.len() implies (#[trigger] new[i]).min_key < (
    #[trigger] new[j]).min_key by {
        assert(refs[i].height == 0 && refs[j].height == 0);
        assert(parts[i].0 < parts[i].1 && parts[i].1 <= parts[j].0 && parts[j].0 < parts[j].1);
        assert(records[parts[i].0].id < records[parts[j].0].id);
    }
    assert(world::fences(new));
    // A held record is where its key is routed.
    assert forall|i: int, key: u64|
        0 <= i < new.len() && node::route(new, key) != i implies #[trigger] w.rec(
        new[i],
        key,
    ) is None && w.newest_of(new[i], key) == 0 by {
        if w.rec(new[i], key) is Some {
            lemma_held_record(w, refs, records, parts, watermark, i, key);
            if i + 1 < new.len() {
                assert(key < refs[i + 1].min_key);
            }
            world::lemma_route_is(new, key, i);
        }
    }
    assert forall|key: u64|
        #![trigger world::base_at(w, new, key)]
        world::base_at(w, new, key) == world::found(records, key) by {
        node::lemma_route(new, key);
        let r = node::route(new, key);
        if world::found(records, key) is Some {
            let i = lemma_holder(w, refs, records, parts, watermark, key);
            assert(w.rec(new[i], key) is Some);
        } else if new.len() > 0 {
            if w.rec(new[r], key) is Some {
                lemma_held_record(w, refs, records, parts, watermark, r, key);
            }
        }
    }
    assert(world::sane(w, new)) by {
        assert forall|i: int, key: u64| 0 <= i < new.len() implies world::proper(
            #[trigger] w.rec(new[i], key),
            key,
        ) by {
            if w.rec(new[i], key) is Some {
                lemma_held_record(w, refs, records, parts, watermark, i, key);
                assert(world::proper(world::found(records, key), key));
            }
        }
    }
}

/// Leaves that hold what a level holds stand for it.
pub proof fn lemma_leaf_level(
    w: World,
    children: Seq<ChildView>,
    buffer: Seq<MutationView>,
    records: Seq<FragmentView>,
    parts: Seq<(int, int)>,
    refs: Seq<ChildView>,
    watermark: u64,
    lower: u64,
    cap: int,
)
    requires
        world::sound(w, children, buffer),
        store::ascending(records),
        holding(w, refs, records, parts, watermark),
        records.len() > 0 ==> lower <= records[0].id,
        forall|key: u64| #[trigger]
            world::cell(w, children, buffer, key) == Ok::<Option<FragmentView>, Error>(
                world::found(records, key),
            ),
        forall|bound: nat|
            bound >= cap && #[trigger] world::capped(w, children, bound) ==> watermark <= bound,
        cap < 0 ==> forall|key: u64| watermark <= #[trigger] world::mark_at(w, children, key),
    ensures
        world::refines(
            w,
            children,
            buffer,
            node::fenced(refs, lower),
            levels::no_mutations(),
            cap,
        ),
{
    let new = node::fenced(refs, lower);
    let none = levels::no_mutations();
    assert forall|key: u64| world::proper(#[trigger] world::found(records, key), key) by {
        assert(world::good(world::cell(w, children, buffer, key), key));
    }
    lemma_leaf_base(w, records, parts, refs, watermark, lower);
    store::lemma_tiles(parts, 0, records.len() as int);
    assert forall|i: int| 0 <= i < new.len() implies (#[trigger] new[i]).min_key
        <= refs[i].min_key by {
        assert(refs[i].height == 0);
        if i == 0 {
            assert(parts[0].0 == 0);
        }
    }
    levels::lemma_bare_sound(w, new);
    assert forall|key: u64| #[trigger]
        world::cell(w, new, none, key) == world::cell(w, children, buffer, key) by {
        levels::lemma_bare_cell(w, new, key);
        let b = world::base_at(w, new, key);
    }
    assert forall|key: u64| #[trigger]
        world::frontier(w, new, none, key) <= world::frontier(w, children, buffer, key) by {
        levels::lemma_bare_cell(w, new, key);
        node::lemma_route(new, key);
    }
    if cap < 0 {
        assert forall|key: u64| #[trigger] world::mark_at(w, new, key) <= world::mark_at(
            w,
            children,
            key,
        ) by {
            node::lemma_route(new, key);
        }
    }
    assert forall|end: nat| #[trigger] world::bounded(w, children, buffer, end) implies
        world::bounded(w, new, none, end) by {
        if new.len() > 0 {
            assert forall|i: int| 0 <= i < new.len() implies (#[trigger] new[i]).min_key < end
                && w.reach_of(new[i]) < end by {
                let at = parts[i].0;
                assert(parts[i].0 < parts[i].1);
                assert(refs[i].height == 0);
                lemma_found(records, at);
                let key = records[at].id;
                assert(world::cell(w, children, buffer, key) == Ok::<Option<FragmentView>, Error>(
                    world::found(records, key),
                ));
            }
            world::lemma_reach_below(w, new, end);
        }
        assert forall|key: u64| key >= end implies #[trigger] world::cell(w, new, none, key)
            == Ok::<Option<FragmentView>, Error>(None) && world::frontier(w, new, none, key)
            == 0 by {
            assert(world::cell(w, children, buffer, key) == Ok::<Option<FragmentView>, Error>(
                None,
            ));
            assert(world::frontier(w, new, none, key) <= world::frontier(
                w,
                children,
                buffer,
                key,
            ));
        }
    }
}

} // verus!
