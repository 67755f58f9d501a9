//! What a tree stands for.
//!
//! A [`World`] says of every object what record it holds for each fragment
//! once its own buffers are replayed, which places in the commit order its
//! buffers use, and where its leaves stand. A list of children with a buffer
//! is a level; [`cell`] is the record a level holds. Operations on trees are
//! stated over all worlds: [`faithful`] says that one level holds exactly what
//! another one held.

use vstd::prelude::*;

use crate::error::Error;
use crate::inherit;
use crate::node;
use crate::order;
use crate::partial;
use crate::pb::{ChildView, MutationView};
use crate::record::FragmentView;
use crate::replay;
use crate::store::{Loc, StoreView};

verus! {

/// What the objects of a tree stand for.
pub struct World {
    /// The record an object holds for a fragment, its buffers replayed.
    pub record: spec_fn(Loc, u64) -> Option<FragmentView>,
    /// One past the newest place a node's subtree has buffered for a fragment.
    pub newest: spec_fn(Loc, u64) -> nat,
    /// The watermark of the leaf below a node that owns a fragment.
    pub mark: spec_fn(Loc, u64) -> nat,
    /// The largest fence below a node.
    pub reach: spec_fn(Loc) -> nat,
    /// The largest watermark of a leaf below a node.
    pub peak: spec_fn(Loc) -> nat,
}

pub open spec fn larger(a: nat, b: nat) -> nat {
    if a >= b {
        a
    } else {
        b
    }
}

pub open spec fn higher(a: int, b: int) -> int {
    if a >= b {
        a
    } else {
        b
    }
}

impl World {
    pub open spec fn rec(self, c: ChildView, key: u64) -> Option<FragmentView> {
        (self.record)(c.loc(), key)
    }

    pub open spec fn newest_of(self, c: ChildView, key: u64) -> nat {
        if c.height == 0 {
            0
        } else {
            (self.newest)(c.loc(), key)
        }
    }

    pub open spec fn mark_of(self, c: ChildView, key: u64) -> nat {
        if c.height == 0 {
            c.materialized_through_action_sequence as nat
        } else {
            (self.mark)(c.loc(), key)
        }
    }

    pub open spec fn reach_of(self, c: ChildView) -> nat {
        if c.height == 0 {
            0
        } else {
            (self.reach)(c.loc())
        }
    }

    pub open spec fn peak_of(self, c: ChildView) -> nat {
        if c.height == 0 {
            c.materialized_through_action_sequence as nat
        } else {
            (self.peak)(c.loc())
        }
    }
}

/// One past the newest place a buffer uses for a fragment.
pub open spec fn latest(buffer: Seq<MutationView>, key: u64) -> nat
    decreases buffer.len(),
{
    if buffer.len() == 0 {
        0
    } else {
        let rest = latest(buffer.drop_last(), key);
        if buffer.last().key() == key {
            larger(rest, (buffer.last().action_sequence + 1) as nat)
        } else {
            rest
        }
    }
}

/// The record the children of a level hold, before its buffer.
pub open spec fn base_at(w: World, children: Seq<ChildView>, key: u64) -> Option<FragmentView> {
    if children.len() == 0 {
        None
    } else {
        w.rec(children[node::route(children, key)], key)
    }
}

/// The record a level holds.
pub open spec fn cell(
    w: World,
    children: Seq<ChildView>,
    buffer: Seq<MutationView>,
    key: u64,
) -> Result<Option<FragmentView>, Error> {
    replay::outcome(base_at(w, children, key), order::run(buffer, key), false)
}

pub open spec fn newest_at(w: World, children: Seq<ChildView>, key: u64) -> nat {
    if children.len() == 0 {
        0
    } else {
        w.newest_of(children[node::route(children, key)], key)
    }
}

pub open spec fn mark_at(w: World, children: Seq<ChildView>, key: u64) -> nat {
    if children.len() == 0 {
        0
    } else {
        w.mark_of(children[node::route(children, key)], key)
    }
}

/// One past the newest place a level has buffered for a fragment.
pub open spec fn frontier(
    w: World,
    children: Seq<ChildView>,
    buffer: Seq<MutationView>,
    key: u64,
) -> nat {
    larger(latest(buffer, key), newest_at(w, children, key))
}

/// The largest fence of a list of children or below it.
pub open spec fn reach_over(w: World, children: Seq<ChildView>) -> nat
    decreases children.len(),
{
    if children.len() == 0 {
        0
    } else {
        larger(
            reach_over(w, children.drop_last()),
            larger(children.last().min_key as nat, w.reach_of(children.last())),
        )
    }
}

/// Whether no leaf of a list of children or below it has a watermark above a
/// bound.
pub open spec fn capped(w: World, children: Seq<ChildView>, bound: nat) -> bool {
    forall|i: int| 0 <= i < children.len() ==> w.peak_of(#[trigger] children[i]) <= bound
}

/// Whether a record is one a tree may hold for a fragment.
pub open spec fn proper(record: Option<FragmentView>, key: u64) -> bool {
    record matches Some(fragment) ==> fragment.storable() && fragment.id == key
}

pub open spec fn good(cell: Result<Option<FragmentView>, Error>, key: u64) -> bool {
    cell matches Ok(record) && proper(record, key)
}

/// Whether fences ascend.
pub open spec fn fences(children: Seq<ChildView>) -> bool {
    forall|i: int, j: int|
        0 <= i < j < children.len() ==> (#[trigger] children[i]).min_key < (
        #[trigger] children[j]).min_key
}

pub open spec fn level_heights(children: Seq<ChildView>, height: u32) -> bool {
    forall|i: int| 0 <= i < children.len() ==> (#[trigger] children[i]).height == height
}

/// Whether what lies below a child stays before the next fence.
pub open spec fn nested(w: World, children: Seq<ChildView>) -> bool {
    forall|i: int, j: int|
        0 <= i < j < children.len() ==> w.reach_of(#[trigger] children[i]) < (
        #[trigger] children[j]).min_key
}

/// Whether a fragment is found only in the child that owns its key.
pub open spec fn partitioned(w: World, children: Seq<ChildView>) -> bool {
    forall|i: int, key: u64|
        0 <= i < children.len() && node::route(children, key) != i ==> #[trigger] w.rec(
            children[i],
            key,
        ) is None && w.newest_of(children[i], key) == 0
}

/// Whether every record the children hold is proper.
pub open spec fn proper_records(w: World, children: Seq<ChildView>) -> bool {
    forall|i: int, key: u64|
        0 <= i < children.len() ==> proper(#[trigger] w.rec(children[i], key), key)
}

/// Whether a list of children is one a tree may hold.
pub open spec fn sane(w: World, children: Seq<ChildView>) -> bool {
    &&& fences(children)
    &&& nested(w, children)
    &&& partitioned(w, children)
    &&& proper_records(w, children)
    &&& children.len() > 0 ==> level_heights(children, children[0].height)
}

/// Whether buffered mutations are newer than everything buffered below and
/// than the leaves they are for.
pub open spec fn fresh(w: World, children: Seq<ChildView>, buffer: Seq<MutationView>) -> bool {
    forall|i: int|
        0 <= i < buffer.len() ==> newest_at(w, children, (#[trigger] buffer[i]).key())
            <= buffer[i].action_sequence && mark_at(w, children, buffer[i].key())
            < buffer[i].action_sequence
}

/// Whether no fragment has two mutations at one place in the commit order.
pub open spec fn apart(buffer: Seq<MutationView>) -> bool {
    forall|key: u64| order::distinct(#[trigger] order::of_key(buffer, key))
}

/// Whether a level is one a tree may hold.
pub open spec fn sound(w: World, children: Seq<ChildView>, buffer: Seq<MutationView>) -> bool {
    &&& sane(w, children)
    &&& apart(buffer)
    &&& fresh(w, children, buffer)
    &&& forall|key: u64| good(#[trigger] cell(w, children, buffer, key), key)
}

/// The record for a fragment among some records.
pub open spec fn found(fragments: Seq<FragmentView>, key: u64) -> Option<FragmentView> {
    if exists|i: int| 0 <= i < fragments.len() && (#[trigger] fragments[i]).id == key {
        Some(
            fragments[choose|i: int|
                0 <= i < fragments.len() && (#[trigger] fragments[i]).id == key],
        )
    } else {
        None
    }
}

/// Whether a world agrees with what a leaf stores.
pub open spec fn leaf_agrees(w: World, loc: Loc, fragments: Seq<FragmentView>) -> bool {
    forall|key: u64| #[trigger] (w.record)(loc, key) == found(fragments, key)
}

/// Whether a world agrees with what a node stores.
pub open spec fn node_agrees(
    w: World,
    loc: Loc,
    children: Seq<ChildView>,
    buffer: Seq<MutationView>,
) -> bool {
    &&& forall|key: u64|
        cell(w, children, buffer, key) matches Ok(record) ==> #[trigger] (w.record)(loc, key)
            == record
    &&& forall|key: u64| #[trigger] (w.newest)(loc, key) == frontier(w, children, buffer, key)
    &&& forall|key: u64| #[trigger] (w.mark)(loc, key) == mark_at(w, children, key)
    &&& (w.reach)(loc) == reach_over(w, children)
    &&& forall|bound: nat| #[trigger] capped(w, children, bound) == ((w.peak)(loc) <= bound)
}

/// Whether a world agrees with every object a store knows.
#[verifier::opaque]
pub open spec fn agrees(w: World, store: StoreView) -> bool {
    &&& forall|i: int|
        0 <= i < store.leaves.len() ==> leaf_agrees(
            w,
            (#[trigger] store.leaves[i]).loc,
            inherit::inherited_records(store.leaves[i].fragments, store.leaves[i].loc.base_id),
        )
    &&& forall|i: int|
        0 <= i < store.nodes.len() ==> node_agrees(
            w,
            (#[trigger] store.nodes[i]).loc,
            inherit::inherited_children(store.nodes[i].children, store.nodes[i].loc.base_id),
            inherit::inherited_buffer(store.nodes[i].buffer, store.nodes[i].loc.base_id),
        )
    &&& forall|i: int|
        0 <= i < store.headers.len() ==> partial::headers_agree(w, #[trigger] store.headers[i])
    &&& forall|i: int|
        0 <= i < store.rows.len() ==> partial::row_agrees(w, #[trigger] store.rows[i])
}

/// Whether every node a store knows is one a tree may hold.
#[verifier::opaque]
pub open spec fn all_sound(w: World, store: StoreView) -> bool {
    forall|i: int|
        0 <= i < store.nodes.len() ==> (#[trigger] store.nodes[i]).children.len() > 0 && sound(
            w,
            inherit::inherited_children(store.nodes[i].children, store.nodes[i].loc.base_id),
            inherit::inherited_buffer(store.nodes[i].buffer, store.nodes[i].loc.base_id),
        )
}

/// Whether nothing of a level lies at or above an end.
pub open spec fn bounded(
    w: World,
    children: Seq<ChildView>,
    buffer: Seq<MutationView>,
    end: nat,
) -> bool {
    &&& children.len() > 0 ==> reach_over(w, children) < end
    &&& forall|key: u64|
        key >= end ==> #[trigger] cell(w, children, buffer, key) == Ok::<
            Option<FragmentView>,
            Error,
        >(None) && frontier(w, children, buffer, key) == 0
}

/// Whether a second level holds exactly what a first one held, as newly
/// buffered at most. No watermark rises past a cap, and with a negative cap
/// none rises for any fragment.
pub open spec fn refines(
    w: World,
    children: Seq<ChildView>,
    buffer: Seq<MutationView>,
    children2: Seq<ChildView>,
    buffer2: Seq<MutationView>,
    cap: int,
) -> bool {
    &&& sound(w, children2, buffer2)
    &&& forall|key: u64| #[trigger]
        cell(w, children2, buffer2, key) == cell(w, children, buffer, key)
    &&& forall|key: u64| #[trigger]
        frontier(w, children2, buffer2, key) <= frontier(w, children, buffer, key)
    &&& cap < 0 ==> forall|key: u64| #[trigger]
        mark_at(w, children2, key) <= mark_at(w, children, key)
    &&& forall|bound: nat|
        bound >= cap && #[trigger] capped(w, children, bound) ==> capped(w, children2, bound)
    &&& forall|end: nat| #[trigger]
        bounded(w, children, buffer, end) ==> bounded(w, children2, buffer2, end)
}

/// Whether turning one level into another, knowing more objects afterwards,
/// changed nothing that the level holds: in every world that agrees with the
/// objects, a sound level became a sound level that holds the same, and every
/// new node is sound.
#[verifier::opaque]
pub open spec fn faithful(
    before: StoreView,
    after: StoreView,
    children: Seq<ChildView>,
    buffer: Seq<MutationView>,
    children2: Seq<ChildView>,
    buffer2: Seq<MutationView>,
    cap: int,
) -> bool {
    forall|w: World|
        #![trigger agrees(w, after)]
        agrees(w, after) && all_sound(w, before) && sound(w, children, buffer) ==> all_sound(
            w,
            after,
        ) && refines(w, children, buffer, children2, buffer2, cap)
}

// Laws of the model.

pub proof fn lemma_agrees_before(w: World, before: StoreView, after: StoreView)
    requires
        after.extends(before),
        agrees(w, after),
    ensures
        agrees(w, before),
{
    reveal(agrees);
    assert forall|i: int| 0 <= i < before.leaves.len() implies leaf_agrees(
        w,
        (#[trigger] before.leaves[i]).loc,
        inherit::inherited_records(before.leaves[i].fragments, before.leaves[i].loc.base_id),
    ) by {
        assert(after.leaves.take(before.leaves.len() as int)[i] == before.leaves[i]);
        assert(after.leaves[i] == before.leaves[i]);
    }
    assert forall|i: int| 0 <= i < before.nodes.len() implies node_agrees(
        w,
        (#[trigger] before.nodes[i]).loc,
        inherit::inherited_children(before.nodes[i].children, before.nodes[i].loc.base_id),
        inherit::inherited_buffer(before.nodes[i].buffer, before.nodes[i].loc.base_id),
    ) by {
        assert(after.nodes.take(before.nodes.len() as int)[i] == before.nodes[i]);
        assert(after.nodes[i] == before.nodes[i]);
    }
}

pub proof fn lemma_refines_self(w: World, children: Seq<ChildView>, buffer: Seq<MutationView>)
    requires
        sound(w, children, buffer),
    ensures
        refines(w, children, buffer, children, buffer, -1),
{
}

pub proof fn lemma_refines_transitive(
    w: World,
    a: Seq<ChildView>,
    x: Seq<MutationView>,
    b: Seq<ChildView>,
    y: Seq<MutationView>,
    c: Seq<ChildView>,
    z: Seq<MutationView>,
    cap: int,
    cap2: int,
)
    requires
        refines(w, a, x, b, y, cap),
        refines(w, b, y, c, z, cap2),
    ensures
        refines(w, a, x, c, z, higher(cap, cap2)),
{
    assert forall|key: u64| #[trigger] cell(w, c, z, key) == cell(w, a, x, key) by {
        assert(cell(w, b, y, key) == cell(w, a, x, key));
    }
    assert forall|key: u64| #[trigger] frontier(w, c, z, key) <= frontier(w, a, x, key) by {
        assert(frontier(w, b, y, key) <= frontier(w, a, x, key));
    }
    if higher(cap, cap2) < 0 {
        assert forall|key: u64| #[trigger] mark_at(w, c, key) <= mark_at(w, a, key) by {
            assert(mark_at(w, b, key) <= mark_at(w, a, key));
        }
    }
    assert forall|bound: nat|
        bound >= higher(cap, cap2) && #[trigger] capped(w, a, bound) implies capped(
        w,
        c,
        bound,
    ) by {
        assert(capped(w, b, bound));
    }
    assert forall|end: nat| #[trigger] bounded(w, a, x, end) implies bounded(w, c, z, end) by {
        assert(bounded(w, b, y, end));
    }
}

/// A level that stays as it is holds what it held.
pub proof fn lemma_faithful_self(
    store: StoreView,
    children: Seq<ChildView>,
    buffer: Seq<MutationView>,
)
    ensures
        faithful(store, store, children, buffer, children, buffer, -1),
{
    reveal(faithful);
    assert forall|w: World|
        #![trigger agrees(w, store)]
        agrees(w, store) && all_sound(w, store) && sound(w, children, buffer) implies all_sound(
        w,
        store,
    ) && refines(w, children, buffer, children, buffer, -1) by {
        lemma_refines_self(w, children, buffer);
    }
}

/// One faithful step after another is a faithful step.
pub proof fn lemma_faithful_transitive(
    s0: StoreView,
    s1: StoreView,
    s2: StoreView,
    a: Seq<ChildView>,
    x: Seq<MutationView>,
    b: Seq<ChildView>,
    y: Seq<MutationView>,
    c: Seq<ChildView>,
    z: Seq<MutationView>,
    cap: int,
    cap2: int,
)
    requires
        s2.extends(s1),
        faithful(s0, s1, a, x, b, y, cap),
        faithful(s1, s2, b, y, c, z, cap2),
    ensures
        faithful(s0, s2, a, x, c, z, higher(cap, cap2)),
{
    reveal(faithful);
    assert forall|w: World|
        #![trigger agrees(w, s2)]
        agrees(w, s2) && all_sound(w, s0) && sound(w, a, x) implies all_sound(w, s2) && refines(
        w,
        a,
        x,
        c,
        z,
        higher(cap, cap2),
    ) by {
        lemma_agrees_before(w, s1, s2);
        assert(all_sound(w, s1) && refines(w, a, x, b, y, cap));
        assert(all_sound(w, s2) && refines(w, b, y, c, z, cap2));
        lemma_refines_transitive(w, a, x, b, y, c, z, cap, cap2);
    }
}

// Buffers.

pub proof fn lemma_latest(buffer: Seq<MutationView>, key: u64)
    ensures
        forall|i: int|
            0 <= i < buffer.len() && (#[trigger] buffer[i]).key() == key
                ==> buffer[i].action_sequence < latest(buffer, key),
        latest(buffer, key) > 0 ==> exists|i: int|
            0 <= i < buffer.len() && (#[trigger] buffer[i]).key() == key
                && buffer[i].action_sequence + 1 == latest(buffer, key),
    decreases buffer.len(),
{
    if buffer.len() > 0 {
        let rest = buffer.drop_last();
        lemma_latest(rest, key);
        let n = buffer.len() - 1;
        assert(buffer.last() == buffer[n]);
        assert forall|i: int|
            0 <= i < buffer.len() && (#[trigger] buffer[i]).key()
                == key implies buffer[i].action_sequence < latest(buffer, key) by {
            if i < n {
                assert(rest[i] == buffer[i]);
            }
        }
        if latest(buffer, key) > 0 {
            if buffer.last().key() == key && latest(buffer, key) == buffer.last().action_sequence
                + 1 {
                assert(buffer[n].key() == key);
            } else {
                let i = choose|i: int|
                    0 <= i < rest.len() && (#[trigger] rest[i]).key() == key
                        && rest[i].action_sequence + 1 == latest(rest, key);
                assert(buffer[i] == rest[i]);
            }
        }
    }
}

/// A fragment's newest place depends on its own mutations alone.
pub proof fn lemma_latest_of_key(a: Seq<MutationView>, b: Seq<MutationView>, key: u64)
    requires
        forall|m: MutationView| m.key() == key && #[trigger] a.contains(m) ==> b.contains(m),
    ensures
        latest(a, key) <= latest(b, key),
{
    lemma_latest(a, key);
    lemma_latest(b, key);
    if latest(a, key) > 0 {
        let i = choose|i: int|
            0 <= i < a.len() && (#[trigger] a[i]).key() == key && a[i].action_sequence + 1
                == latest(a, key);
        assert(a.contains(a[i]));
        assert(b.contains(a[i]));
        let j = choose|j: int| 0 <= j < b.len() && b[j] == a[i];
        assert(b[j].key() == key);
    }
}

/// Whether two buffers hold the same mutations of a fragment in one order.
pub open spec fn same_run(a: Seq<MutationView>, b: Seq<MutationView>, key: u64) -> bool {
    order::of_key(a, key) == order::of_key(b, key)
}

pub proof fn lemma_same_run_latest(a: Seq<MutationView>, b: Seq<MutationView>, key: u64)
    requires
        same_run(a, b, key),
    ensures
        latest(a, key) == latest(b, key),
        order::run(a, key) == order::run(b, key),
{
    assert forall|m: MutationView| m.key() == key && #[trigger] a.contains(m) implies b.contains(m) by {
        order::lemma_of_key_contains(a, key, m);
        order::lemma_of_key_contains(b, key, m);
    }
    assert forall|m: MutationView| m.key() == key && #[trigger] b.contains(m) implies a.contains(m) by {
        order::lemma_of_key_contains(a, key, m);
        order::lemma_of_key_contains(b, key, m);
    }
    lemma_latest_of_key(a, b, key);
    lemma_latest_of_key(b, a, key);
}

/// A fragment without a newest place has no mutations in a buffer.
pub proof fn lemma_latest_zero(buffer: Seq<MutationView>, key: u64)
    ensures
        latest(buffer, key) == 0 ==> order::of_key(buffer, key) == Seq::<MutationView>::empty(),
        latest(buffer, key) == 0 ==> order::run(buffer, key) == Seq::<MutationView>::empty(),
{
    lemma_latest(buffer, key);
    if latest(buffer, key) == 0 {
        assert forall|i: int| 0 <= i < buffer.len() implies (#[trigger] buffer[i]).key() != key by {
            if buffer[i].key() == key {
                assert(buffer[i].action_sequence < latest(buffer, key));
            }
        }
        order::lemma_of_key_none(buffer, key);
    }
}

/// Mutations that are all newer than others follow them in commit order,
/// whichever way the two lists are joined.
pub proof fn lemma_run_join(
    older: Seq<MutationView>,
    newer: Seq<MutationView>,
    joined: Seq<MutationView>,
    key: u64,
)
    requires
        joined == older + newer || joined == newer + older,
        order::distinct(order::of_key(older, key)),
        order::distinct(order::of_key(newer, key)),
        forall|i: int|
            0 <= i < newer.len() && (#[trigger] newer[i]).key() == key ==> latest(older, key)
                <= newer[i].action_sequence,
    ensures
        order::run(joined, key) == order::run(older, key) + order::run(newer, key),
        order::distinct(order::of_key(joined, key)),
        latest(joined, key) == larger(latest(older, key), latest(newer, key)),
{
    broadcast use vstd::seq_lib::group_to_multiset_ensures;

    let pred = |m: MutationView| m.key() == key;
    let a = order::of_key(older, key);
    let b = order::of_key(newer, key);
    let x = order::run(older, key);
    let y = order::run(newer, key);
    Seq::filter_distributes_over_add(older, newer, pred);
    Seq::filter_distributes_over_add(newer, older, pred);
    crate::squash_laws::lemma_run(older, key);
    crate::squash_laws::lemma_run(newer, key);
    order::lemma_sorted_distinct(a, false);
    order::lemma_sorted_distinct(b, false);
    order::lemma_sorted_distinct(order::of_key(joined, key), false);
    lemma_latest(older, key);
    lemma_latest(newer, key);
    lemma_latest(joined, key);
    // Joined in commit order.
    let z = x + y;
    assert forall|i: int, j: int| 0 <= i < j < z.len() implies !order::after(
        #[trigger] z[i],
        #[trigger] z[j],
        false,
    ) && z[i].action_sequence != z[j].action_sequence by {
        if j < x.len() {
            assert(z[i] == x[i] && z[j] == x[j]);
        } else if i >= x.len() {
            assert(z[i] == y[i - x.len()] && z[j] == y[j - x.len()]);
        } else {
            assert(z[i] == x[i] && z[j] == y[j - x.len()]);
            assert(older.contains(x[i]) && newer.contains(y[j - x.len()]));
            let p = choose|p: int| 0 <= p < older.len() && older[p] == x[i];
            let q = choose|q: int| 0 <= q < newer.len() && newer[q] == y[j - x.len()];
            assert(older[p].key() == key && newer[q].key() == key);
            assert(older[p].action_sequence < latest(older, key));
        }
    }
    assert(order::is_sorted(z, false));
    assert(order::distinct(z));
    order::lemma_sorted_multiset(a, false);
    order::lemma_sorted_multiset(b, false);
    order::lemma_sorted_multiset(order::of_key(joined, key), false);
    vstd::seq_lib::lemma_multiset_commutative(x, y);
    vstd::seq_lib::lemma_multiset_commutative(a, b);
    vstd::seq_lib::lemma_multiset_commutative(b, a);
    assert(z.to_multiset() =~= order::run(joined, key).to_multiset());
    order::lemma_sorted_is_sorted(order::of_key(joined, key), false);
    order::lemma_sorted_unique(z, order::run(joined, key), false);
    // The newest place.
    assert forall|m: MutationView| m.key() == key && #[trigger] joined.contains(m) implies (
    older.contains(m) || newer.contains(m)) by {
        order::lemma_of_key_contains(joined, key, m);
        if joined.contains(m) {
            let i = choose|i: int| 0 <= i < joined.len() && joined[i] == m;
            if joined == older + newer {
                if i < older.len() {
                    assert(older[i] == m);
                } else {
                    assert(newer[i - older.len()] == m);
                }
            } else {
                if i < newer.len() {
                    assert(newer[i] == m);
                } else {
                    assert(older[i - newer.len()] == m);
                }
            }
        }
    }
    assert forall|m: MutationView| m.key() == key && #[trigger] older.contains(
        m,
    ) implies joined.contains(m) by {
        if older.contains(m) {
            let i = choose|i: int| 0 <= i < older.len() && older[i] == m;
            if joined == older + newer {
                assert(joined[i] == m);
            } else {
                assert(joined[newer.len() + i] == m);
            }
        }
    }
    assert forall|m: MutationView| m.key() == key && #[trigger] newer.contains(
        m,
    ) implies joined.contains(m) by {
        if newer.contains(m) {
            let i = choose|i: int| 0 <= i < newer.len() && newer[i] == m;
            if joined == older + newer {
                assert(joined[older.len() + i] == m);
            } else {
                assert(joined[i] == m);
            }
        }
    }
    lemma_latest_of_key(older, joined, key);
    lemma_latest_of_key(newer, joined, key);
    if latest(joined, key) > 0 {
        let i = choose|i: int|
            0 <= i < joined.len() && (#[trigger] joined[i]).key() == key
                && joined[i].action_sequence + 1 == latest(joined, key);
        assert(joined.contains(joined[i]));
        if older.contains(joined[i]) {
            let j = choose|j: int| 0 <= j < older.len() && older[j] == joined[i];
            assert(older[j].key() == key);
        } else {
            let j = choose|j: int| 0 <= j < newer.len() && newer[j] == joined[i];
            assert(newer[j].key() == key);
        }
    }
}

// Routing.

pub proof fn lemma_route_is(children: Seq<ChildView>, key: u64, i: int)
    requires
        fences(children),
        0 <= i < children.len(),
        i == 0 || children[i].min_key <= key,
        i + 1 < children.len() ==> key < children[i + 1].min_key,
    ensures
        node::route(children, key) == i,
{
    node::lemma_route(children, key);
    let r = node::route(children, key);
    if r < i {
        assert(key < children[i].min_key);
    }
    if i < r {
        if i + 1 < r {
            assert(children[i + 1].min_key < children[r].min_key);
        }
    }
}

/// Routing looks at every fence but the first.
pub proof fn lemma_route_same(a: Seq<ChildView>, b: Seq<ChildView>, key: u64)
    requires
        a.len() == b.len(),
        forall|i: int| 1 <= i < a.len() ==> (#[trigger] a[i]).min_key == b[i].min_key,
    ensures
        node::route(a, key) == node::route(b, key),
    decreases a.len(),
{
    if a.len() > 1 {
        let n = a.len() - 1;
        assert(a[n].min_key == b[n].min_key);
        if a.last().min_key > key {
            let x = a.drop_last();
            let y = b.drop_last();
            assert forall|i: int| 1 <= i < x.len() implies (#[trigger] x[i]).min_key
                == y[i].min_key by {
                assert(a[i].min_key == b[i].min_key);
            }
            lemma_route_same(x, y, key);
        }
    }
}

/// Routing into the middle of a list.
pub proof fn lemma_route_middle(
    x: Seq<ChildView>,
    s: Seq<ChildView>,
    y: Seq<ChildView>,
    key: u64,
)
    requires
        fences(x + s + y),
        s.len() > 0,
    ensures
        ({
            let all = x + s + y;
            let r = node::route(all, key);
            &&& 0 <= r < all.len()
            &&& x.len() <= r < x.len() + s.len() ==> node::route(s, key) == r - x.len()
            &&& (x.len() <= r < x.len() + s.len()) == ((x.len() == 0 || s[0].min_key <= key) && (
            y.len() == 0 || key < y[0].min_key))
        }),
{
    let all = x + s + y;
    let r = node::route(all, key);
    node::lemma_route(all, key);
    let n = x.len() as int;
    assert(all[n] == s[0]);
    assert(fences(s)) by {
        assert forall|i: int, j: int| 0 <= i < j < s.len() implies (#[trigger] s[i]).min_key < (
        #[trigger] s[j]).min_key by {
            assert(all[n + i] == s[i] && all[n + j] == s[j]);
        }
    }
    if y.len() > 0 {
        assert(all[n + s.len()] == y[0]);
    }
    if n <= r < n + s.len() {
        assert(all[r] == s[r - n]);
        if r + 1 < n + s.len() {
            assert(all[r + 1] == s[r - n + 1]);
        }
        lemma_route_is(s, key, r - n);
        if n < r {
            assert(all[n].min_key < all[r].min_key);
        }
        if y.len() > 0 {
            assert(key < all[n + s.len()].min_key);
        }
    } else if r < n {
        assert(key < all[n].min_key);
    } else {
        if n + s.len() < r {
            assert(all[n + s.len()].min_key < all[r].min_key);
        }
    }
}

/// Every fence and everything below stays within the reach of a list.
pub proof fn lemma_reach_over(w: World, children: Seq<ChildView>)
    ensures
        forall|i: int|
            0 <= i < children.len() ==> (#[trigger] children[i]).min_key <= reach_over(w, children)
                && w.reach_of(children[i]) <= reach_over(w, children),
        children.len() > 0 ==> exists|i: int|
            0 <= i < children.len() && (reach_over(w, children) == (
            #[trigger] children[i]).min_key || reach_over(w, children) == w.reach_of(children[i])),
    decreases children.len(),
{
    if children.len() > 0 {
        let rest = children.drop_last();
        let n = children.len() - 1;
        lemma_reach_over(w, rest);
        assert(children.last() == children[n]);
        assert forall|i: int| 0 <= i < children.len() implies (#[trigger] children[i]).min_key
            <= reach_over(w, children) && w.reach_of(children[i]) <= reach_over(w, children) by {
            if i < n {
                assert(rest[i] == children[i]);
            }
        }
        if reach_over(w, children) == children[n].min_key || reach_over(w, children) == w.reach_of(
            children[n],
        ) {
            assert(children[n] == children[n]);
        } else {
            let i = choose|i: int|
                0 <= i < rest.len() && (reach_over(w, rest) == (#[trigger] rest[i]).min_key
                    || reach_over(w, rest) == w.reach_of(rest[i]));
            assert(children[i] == rest[i]);
        }
    }
}

/// A bound on the fences of a list and on what lies below is one on its reach.
pub proof fn lemma_reach_below(w: World, children: Seq<ChildView>, end: nat)
    requires
        forall|i: int|
            0 <= i < children.len() ==> (#[trigger] children[i]).min_key < end && w.reach_of(
                children[i],
            ) < end,
        children.len() > 0,
    ensures
        reach_over(w, children) < end,
{
    lemma_reach_over(w, children);
    let i = choose|i: int|
        0 <= i < children.len() && (reach_over(w, children) == (#[trigger] children[i]).min_key
            || reach_over(w, children) == w.reach_of(children[i]));
    assert(children[i].min_key < end);
}

} // verus!
