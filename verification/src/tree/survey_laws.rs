//! What a survey of a tree sees and what it checks.

use vstd::prelude::*;

use crate::error::Error;
use crate::leaf_reads;
use crate::leaf_reads::{BaseView, DatasetView, LocationView};
use crate::node;
use crate::pb::{ChildView, MutationView};
use crate::store;
use crate::store::StoreView;
use crate::tree::ownership;
use crate::tree::survey;
use crate::tree::survey::Visit;
use crate::tree::TreeView;

verus! {

/// Whether a reference is among those that were visited.
pub open spec fn visited(seen: Seq<Visit>, child: ChildView) -> bool {
    exists|i: int| 0 <= i < seen.len() && (#[trigger] seen[i]).child == child
}

/// Whether what was seen behind a reference is what reading it gives, and a
/// leaf was read where asked for.
pub open spec fn seen_as_read(known: StoreView, v: Visit, leaves: bool) -> bool {
    if v.child.height == 0 {
        &&& v.children.len() == 0
        &&& v.buffer.len() == 0
        &&& leaves ==> store::leaf_read(known, v.child) is Ok
    } else {
        store::node_read(known, v.child) matches Ok(read) && v.children == read.0 && v.buffer
            == read.1
    }
}

/// Whether some visits are closed: each shows what reading it gives, and
/// visits what it shows that is lower.
pub open spec fn closed_below(known: StoreView, seen: Seq<Visit>, leaves: bool) -> bool {
    &&& forall|i: int| 0 <= i < seen.len() ==> #[trigger] seen_as_read(known, seen[i], leaves)
    &&& forall|i: int, j: int|
        0 <= i < seen.len() && 0 <= j < seen[i].children.len() && lower(seen[i].children, seen[i].child)
            ==> visited(seen, #[trigger] seen[i].children[j])
}

/// Whether children are all lower than their parent.
pub open spec fn lower(children: Seq<ChildView>, parent: ChildView) -> bool {
    forall|j: int| 0 <= j < children.len() ==> (#[trigger] children[j]).height < parent.height
}

proof fn lemma_closed_join(known: StoreView, a: Seq<Visit>, b: Seq<Visit>, leaves: bool)
    requires
        closed_below(known, a, leaves),
        closed_below(known, b, leaves),
    ensures
        closed_below(known, a + b, leaves),
        forall|c: ChildView| visited(a, c) ==> #[trigger] visited(a + b, c),
        forall|c: ChildView| visited(b, c) ==> #[trigger] visited(a + b, c),
{
    let c = a + b;
    let n = a.len() as int;
    assert forall|x: ChildView| visited(a, x) implies #[trigger] visited(c, x) by {
        let i = choose|i: int| 0 <= i < a.len() && (#[trigger] a[i]).child == x;
        assert(c[i].child == x);
    }
    assert forall|x: ChildView| visited(b, x) implies #[trigger] visited(c, x) by {
        let i = choose|i: int| 0 <= i < b.len() && (#[trigger] b[i]).child == x;
        assert(c[n + i].child == x);
    }
    assert forall|i: int| 0 <= i < c.len() implies #[trigger] seen_as_read(
        known,
        c[i],
        leaves,
    ) by {
        if i < n {
            assert(seen_as_read(known, a[i], leaves));
        } else {
            assert(seen_as_read(known, b[i - n], leaves));
        }
    }
    assert forall|i: int, j: int|
        0 <= i < c.len() && 0 <= j < c[i].children.len() && lower(
            c[i].children,
            c[i].child,
        ) implies visited(c, #[trigger] c[i].children[j]) by {
        if i < n {
            assert(c[i] == a[i]);
            assert(visited(a, a[i].children[j]));
        } else {
            assert(c[i] == b[i - n]);
            assert(visited(b, b[i - n].children[j]));
        }
    }
}

proof fn lemma_visit(known: StoreView, child: ChildView, leaves: bool)
    requires
        survey::visit(known, child, leaves).1 is None,
    ensures
        closed_below(known, survey::visit(known, child, leaves).0, leaves),
        visited(survey::visit(known, child, leaves).0, child),
    decreases child.height, 1int, 0int,
{
    let seen = survey::visit(known, child, leaves).0;
    if child.height == 0 {
        assert(seen[0].child == child);
        assert(seen_as_read(known, seen[0], leaves));
    } else {
        let (children, buffer) = store::node_read(known, child)->Ok_0;
        let below = survey::visit_all(known, children, child.height as int, leaves).0;
        lemma_visit_all(known, children, child.height as int, leaves);
        let own = Visit { child, children, buffer };
        assert(seen == seq![own] + below);
        assert(seen[0].child == child);
        assert forall|i: int| 0 <= i < seen.len() implies #[trigger] seen_as_read(
            known,
            seen[i],
            leaves,
        ) by {
            if i > 0 {
                assert(seen_as_read(known, below[i - 1], leaves));
            }
        }
        assert forall|i: int, j: int|
            0 <= i < seen.len() && 0 <= j < seen[i].children.len() && lower(
                seen[i].children,
                seen[i].child,
            ) implies visited(seen, #[trigger] seen[i].children[j]) by {
            let x = seen[i].children[j];
            if i == 0 {
                assert(lower(children, child));
                assert(visited(below, x));
            } else {
                assert(seen[i] == below[i - 1]);
                assert(visited(below, below[i - 1].children[j]));
            }
            let k = choose|k: int| 0 <= k < below.len() && (#[trigger] below[k]).child == x;
            assert(seen[k + 1].child == x);
        }
    }
}

proof fn lemma_visit_all(known: StoreView, children: Seq<ChildView>, height: int, leaves: bool)
    requires
        survey::visit_all(known, children, height, leaves).1 is None,
    ensures
        closed_below(known, survey::visit_all(known, children, height, leaves).0, leaves),
        (forall|j: int| 0 <= j < children.len() ==> (#[trigger] children[j]).height < height)
            ==> forall|j: int|
            0 <= j < children.len() ==> visited(
                survey::visit_all(known, children, height, leaves).0,
                #[trigger] children[j],
            ),
    decreases height, 0int, children.len(),
{
    if children.len() > 0 && children.last().height < height {
        let rest = children.drop_last();
        let n = rest.len() as int;
        let first = survey::visit(known, children.last(), leaves).0;
        let more = survey::visit_all(known, rest, height, leaves).0;
        lemma_visit(known, children.last(), leaves);
        lemma_visit_all(known, rest, height, leaves);
        lemma_closed_join(known, first, more, leaves);
        if forall|j: int| 0 <= j < children.len() ==> (#[trigger] children[j]).height < height {
            assert forall|j: int| 0 <= j < rest.len() implies (#[trigger] rest[j]).height
                < height by {
                assert(rest[j] == children[j]);
            }
            assert forall|j: int| 0 <= j < children.len() implies visited(
                first + more,
                #[trigger] children[j],
            ) by {
                if j < n {
                    assert(visited(more, rest[j]));
                }
            }
        }
    }
}

/// A survey that ends without a stop has seen every object that the root
/// reaches, each as reading it gives it: all children of the root, and with a
/// node all children that it holds.
pub proof fn law_survey_sees_every_object(t: TreeView, leaves: bool)
    requires
        survey::reached(t, leaves).1 is None,
    ensures
        ({
            let seen = survey::reached(t, leaves).0;
            &&& closed_below(t.store, seen, leaves)
            &&& forall|j: int|
                0 <= j < t.children.len() ==> visited(seen, #[trigger] t.children[j])
        }),
{
    lemma_visit_all(t.store, t.children, node::max_height(t.children) + 1, leaves);
    crate::reading_laws::lemma_max_height(t.children);
}

/// Leaves hold nothing newer than what is still on its way to them exactly
/// where every pending mutation comes after the mark of the leaf whose range
/// holds its fragment.
pub proof fn law_pending_mutations_are_newer_than_their_leaves(
    leaves: Seq<ChildView>,
    pending: Seq<MutationView>,
)
    ensures
        survey::first_ahead(leaves, pending) is None == (leaves.len() == 0 || forall|i: int|
            0 <= i < pending.len() ==> leaves[node::route(
                leaves,
                (#[trigger] pending[i]).key(),
            )].materialized_through_action_sequence < pending[i].action_sequence),
    decreases pending.len(),
{
    if pending.len() > 0 {
        let rest = pending.drop_last();
        let n = rest.len() as int;
        law_pending_mutations_are_newer_than_their_leaves(leaves, rest);
        assert(pending[n] == pending.last());
        if leaves.len() > 0 {
            if survey::first_ahead(leaves, rest) is None {
                assert forall|i: int| 0 <= i < n implies leaves[node::route(
                    leaves,
                    (#[trigger] pending[i]).key(),
                )].materialized_through_action_sequence < pending[i].action_sequence by {
                    assert(rest[i] == pending[i]);
                }
            } else {
                let i = choose|i: int|
                    0 <= i < rest.len() && leaves[node::route(
                        leaves,
                        (#[trigger] rest[i]).key(),
                    )].materialized_through_action_sequence >= rest[i].action_sequence;
                assert(rest[i] == pending[i]);
            }
        }
    }
}

/// Whether an object is one that is asked for: any, or where an owner is asked
/// for one that it holds at that very place.
pub open spec fn asked_for(v: Visit, place: LocationView, owner: Option<DatasetView>) -> bool {
    owner matches Some(own) ==> own.place(v.child.path) == place
}

/// The paths that are listed are those of the objects that were seen and that
/// are asked for, in the order they were seen.
pub proof fn law_listed_paths_are_the_asked_ones(
    seen: Seq<Visit>,
    places: Seq<LocationView>,
    owner: Option<DatasetView>,
)
    requires
        places.len() == seen.len(),
    ensures
        owner is None ==> ownership::owned_paths(seen, places, owner).len() == seen.len(),
        forall|i: int|
            0 <= i < seen.len() && #[trigger] asked_for(seen[i], places[i], owner)
                ==> ownership::owned_paths(seen, places, owner).contains(seen[i].child.path),
        forall|path: Seq<char>| #[trigger]
            ownership::owned_paths(seen, places, owner).contains(path) ==> exists|i: int|
                0 <= i < seen.len() && seen[i].child.path == path && #[trigger] asked_for(
                    seen[i],
                    places[i],
                    owner,
                ),
    decreases seen.len(),
{
    let listed = ownership::owned_paths(seen, places, owner);
    if seen.len() > 0 {
        let rest = seen.drop_last();
        let others = places.drop_last();
        let n = rest.len() as int;
        law_listed_paths_are_the_asked_ones(rest, others, owner);
        let less = ownership::owned_paths(rest, others, owner);
        assert(seen[n] == seen.last() && places[n] == places.last());
        assert forall|i: int|
            0 <= i < seen.len() && #[trigger] asked_for(
                seen[i],
                places[i],
                owner,
            ) implies listed.contains(seen[i].child.path) by {
            if i < n {
                assert(rest[i] == seen[i] && others[i] == places[i]);
                assert(asked_for(rest[i], others[i], owner));
                assert(less.contains(rest[i].child.path));
                let k = choose|k: int| 0 <= k < less.len() && less[k] == rest[i].child.path;
                assert(listed[k] == less[k]);
            } else {
                assert(listed[listed.len() - 1] == seen[i].child.path);
            }
        }
        assert forall|path: Seq<char>| #[trigger] listed.contains(path) implies exists|i: int|
            0 <= i < seen.len() && seen[i].child.path == path && #[trigger] asked_for(
                seen[i],
                places[i],
                owner,
            ) by {
            let k = choose|k: int| 0 <= k < listed.len() && listed[k] == path;
            if k < less.len() {
                assert(less[k] == path);
                assert(less.contains(path));
                let i = choose|i: int|
                    0 <= i < rest.len() && rest[i].child.path == path && #[trigger] asked_for(
                        rest[i],
                        others[i],
                        owner,
                    );
                assert(seen[i] == rest[i] && places[i] == others[i]);
                assert(asked_for(seen[i], places[i], owner));
            } else {
                assert(asked_for(seen[n], places[n], owner));
            }
        }
    }
}

/// Whether a dataset is the first that is registered under a number.
pub open spec fn first_under(bases: Seq<BaseView>, id: u32, i: int) -> bool {
    bases[i].id == id && forall|j: int| 0 <= j < i ==> (#[trigger] bases[j]).id != id
}

proof fn lemma_base_with(bases: Seq<BaseView>, id: u32, i: int)
    requires
        0 <= i < bases.len(),
        first_under(bases, id, i),
    ensures
        leaf_reads::base_with(bases, id) == Some(bases[i].dataset),
    decreases i,
{
    if i > 0 {
        let rest = bases.skip(1);
        assert(bases[0].id != id);
        assert forall|j: int| 0 <= j < i - 1 implies (#[trigger] rest[j]).id != id by {
            assert(rest[j] == bases[j + 1]);
        }
        assert(rest[i - 1] == bases[i]);
        lemma_base_with(rest, id, i - 1);
    }
}

proof fn lemma_no_base(bases: Seq<BaseView>, id: u32)
    requires
        forall|i: int| 0 <= i < bases.len() ==> (#[trigger] bases[i]).id != id,
    ensures
        leaf_reads::base_with(bases, id) is None,
    decreases bases.len(),
{
    if bases.len() > 0 {
        let rest = bases.skip(1);
        assert forall|j: int| 0 <= j < rest.len() implies (#[trigger] rest[j]).id != id by {
            assert(rest[j] == bases[j + 1]);
        }
        lemma_no_base(rest, id);
    }
}

/// A reference without an owner is in the tree's own dataset, and one with an
/// owner in the dataset that is first registered under that number. The place of an
/// object is its path below the base of its dataset, in the store of that
/// dataset.
pub proof fn law_reference_is_in_its_owners_dataset(
    own: DatasetView,
    bases: Seq<BaseView>,
    child: ChildView,
)
    ensures
        child.base_id is None ==> (leaf_reads::dataset_of(own, bases, child.base_id) matches Ok(d)
            && d == own),
        ({
            let place = own.place(child.path);
            &&& place.store_prefix == own.store_prefix
            &&& place.memory_store == own.memory_store
            &&& own.base.len() == 0 ==> place.path == child.path
            &&& own.base.len() > 0 ==> place.path == own.base + seq!['/'] + child.path
        }),
        child.base_id matches Some(id) ==> (forall|i: int|
            0 <= i < bases.len() && #[trigger] first_under(bases, id, i)
                ==> leaf_reads::dataset_of(own, bases, child.base_id) == Ok::<DatasetView, Error>(
                bases[i].dataset,
            )),
        child.base_id matches Some(id) ==> (forall|i: int|
            0 <= i < bases.len() ==> (#[trigger] bases[i]).id != id) ==> leaf_reads::dataset_of(
            own,
            bases,
            child.base_id,
        ) is Err,
{
    if let Some(id) = child.base_id {
        assert forall|i: int| 0 <= i < bases.len() && #[trigger] first_under(
            bases,
            id,
            i,
        ) implies leaf_reads::base_with(bases, id) == Some(bases[i].dataset) by {
            lemma_base_with(bases, id, i);
        }
        if forall|i: int| 0 <= i < bases.len() ==> (#[trigger] bases[i]).id != id {
            lemma_no_base(bases, id);
        }
    }
    assert(own.base.len() > 0 ==> own.place(child.path).path =~= own.base + seq!['/']
        + child.path);
}

/// The heights and sizes of the nodes among some objects, each as often as it
/// is there.
pub open spec fn node_sizes(seen: Seq<Visit>) -> vstd::multiset::Multiset<(u32, u64)>
    decreases seen.len(),
{
    if seen.len() == 0 {
        vstd::multiset::Multiset::empty()
    } else {
        let rest = node_sizes(seen.drop_last());
        let child = seen.last().child;
        if child.height == 0 {
            rest
        } else {
            rest.insert((child.height, child.object_size))
        }
    }
}

proof fn lemma_node_sizes_join(a: Seq<Visit>, b: Seq<Visit>)
    ensures
        node_sizes(a + b) == node_sizes(a).add(node_sizes(b)),
    decreases b.len(),
{
    broadcast use vstd::multiset::group_multiset_axioms;

    if b.len() == 0 {
        assert(a + b =~= a);
        assert(node_sizes(a).add(node_sizes(b)) =~= node_sizes(a));
    } else {
        lemma_node_sizes_join(a, b.drop_last());
        assert((a + b).drop_last() =~= a + b.drop_last());
        assert(node_sizes(a + b) =~= node_sizes(a).add(node_sizes(b)));
    }
}

proof fn lemma_sizes_of(known: StoreView, child: ChildView)
    requires
        survey::visit(known, child, false).1 is None,
    ensures
        survey::sizes(known, child).1 is None,
        survey::sizes(known, child).0.to_multiset() == node_sizes(
            survey::visit(known, child, false).0,
        ),
    decreases child.height, 1int, 0int,
{
    broadcast use vstd::multiset::group_multiset_axioms;

    reveal_with_fuel(survey::sizes, 2);
    reveal_with_fuel(survey::visit, 2);
    reveal_with_fuel(node_sizes, 2);
    let none = Seq::<(u32, u64)>::empty();
    none.to_multiset_ensures();
    if child.height == 0 {
        let seen = survey::visit(known, child, false).0;
        assert(seen.drop_last() =~= Seq::<Visit>::empty());
        assert(none.to_multiset() =~= vstd::multiset::Multiset::empty());
        assert(node_sizes(seen) =~= vstd::multiset::Multiset::empty());
    } else {
        let (children, buffer) = store::node_read(known, child)->Ok_0;
        lemma_sizes_of_all(known, children, child.height as int);
        let below = survey::visit_all(known, children, child.height as int, false).0;
        let own = seq![Visit { child, children, buffer }];
        let first = seq![(child.height, child.object_size)];
        let rest = survey::sizes_all(known, children, child.height as int).0;
        lemma_node_sizes_join(own, below);
        vstd::seq_lib::lemma_multiset_commutative(first, rest);
        assert(own.drop_last() =~= Seq::<Visit>::empty());
        assert(first =~= none.push((child.height, child.object_size)));
        assert(first.to_multiset() =~= none.to_multiset().insert(
            (child.height, child.object_size),
        ));
        assert(none.to_multiset() =~= vstd::multiset::Multiset::empty());
        assert(node_sizes(own) =~= first.to_multiset());
    }
}

proof fn lemma_sizes_of_all(known: StoreView, children: Seq<ChildView>, height: int)
    requires
        survey::visit_all(known, children, height, false).1 is None,
    ensures
        survey::sizes_all(known, children, height).1 is None,
        survey::sizes_all(known, children, height).0.to_multiset() == node_sizes(
            survey::visit_all(known, children, height, false).0,
        ),
    decreases height, 0int, children.len(),
{
    broadcast use vstd::multiset::group_multiset_axioms;

    reveal_with_fuel(survey::sizes_all, 2);
    reveal_with_fuel(survey::visit_all, 2);
    let none = Seq::<(u32, u64)>::empty();
    none.to_multiset_ensures();
    if children.len() == 0 || children.last().height >= height {
        assert(none.to_multiset() =~= vstd::multiset::Multiset::empty());
    } else {
        lemma_sizes_of(known, children.last());
        lemma_sizes_of_all(known, children.drop_last(), height);
        let first = survey::visit(known, children.last(), false).0;
        let rest = survey::visit_all(known, children.drop_last(), height, false).0;
        lemma_node_sizes_join(first, rest);
        let before = survey::sizes_all(known, children.drop_last(), height).0;
        let last = survey::sizes(known, children.last()).0;
        vstd::seq_lib::lemma_multiset_commutative(before, last);
        assert(node_sizes(first).add(node_sizes(rest)) =~= node_sizes(rest).add(
            node_sizes(first),
        ));
    }
}

/// Measuring the nodes below a root gives the height and the size of every node
/// that a survey sees, each as often as it sees it.
pub proof fn law_measured_nodes_are_the_surveyed_ones(t: TreeView)
    requires
        survey::reached(t, false).1 is None,
    ensures
        ({
            let height = node::max_height(t.children) + 1;
            let (below, error) = survey::sizes_all(t.store, t.children, height);
            &&& error is None
            &&& below.to_multiset() == node_sizes(survey::reached(t, false).0)
        }),
{
    lemma_sizes_of_all(t.store, t.children, node::max_height(t.children) + 1);
}

/// Paths are in dictionary order where of two neighbours the first differing
/// byte of the second is larger, or the first is where the second starts.
pub proof fn law_dictionary_order_is_by_the_first_difference(
    a: Seq<u8>,
    b: Seq<u8>,
    k: int,
)
    requires
        0 <= k <= a.len(),
        k <= b.len(),
        forall|i: int| 0 <= i < k ==> a[i] == b[i],
        k == a.len() || k == b.len() || a[k] != b[k],
    ensures
        survey::precedes(a, b) == (k < b.len() && (k == a.len() || a[k] < b[k])),
    decreases k,
{
    if k > 0 {
        assert(a[0] == b[0]);
        let x = a.skip(1);
        let y = b.skip(1);
        assert forall|i: int| 0 <= i < k - 1 implies x[i] == y[i] by {
            assert(x[i] == a[i + 1] && y[i] == b[i + 1]);
        }
        law_dictionary_order_is_by_the_first_difference(x, y, k - 1);
    }
}

/// The leaf sizes of a root are those of its children that are leaves, in their
/// order.
pub proof fn law_leaf_sizes_are_those_of_the_leaves(children: Seq<ChildView>, child: ChildView)
    ensures
        crate::tree::leaf_sizes(Seq::<ChildView>::empty()) == Seq::<u64>::empty(),
        crate::tree::leaf_sizes(children.push(child)) == if child.height == 0 {
            crate::tree::leaf_sizes(children).push(child.object_size)
        } else {
            crate::tree::leaf_sizes(children)
        },
{
    assert(children.push(child).drop_last() =~= children);
}

/// Objects are refused only where one names an owner that is not registered, or
/// where two are at one place.
pub proof fn law_places_are_refused_for_their_owners(
    own: DatasetView,
    bases: Seq<BaseView>,
    version: u64,
    seen: Seq<Visit>,
)
    requires
        forall|i: int|
            0 <= i < seen.len() ==> leaf_reads::dataset_of(
                own,
                bases,
                (#[trigger] seen[i]).child.base_id,
            ) is Ok,
        forall|i: int, j: int|
            0 <= i < j < seen.len() ==> place_of(own, bases, #[trigger] seen[i]) != place_of(
                own,
                bases,
                #[trigger] seen[j],
            ),
    ensures
        ownership::places(own, bases, version, seen) is Ok,
    decreases seen.len(),
{
    if seen.len() > 0 {
        let rest = seen.drop_last();
        let n = rest.len() as int;
        assert forall|i: int| 0 <= i < rest.len() implies leaf_reads::dataset_of(
            own,
            bases,
            (#[trigger] rest[i]).child.base_id,
        ) is Ok by {
            assert(rest[i] == seen[i]);
        }
        assert forall|i: int, j: int| 0 <= i < j < rest.len() implies place_of(
            own,
            bases,
            #[trigger] rest[i],
        ) != place_of(own, bases, #[trigger] rest[j]) by {
            assert(rest[i] == seen[i] && rest[j] == seen[j]);
        }
        law_places_are_refused_for_their_owners(own, bases, version, rest);
        ownership::law_node_places_are_distinct(own, bases, version, rest);
        assert(seen[n] == seen.last());
        let list = ownership::places(own, bases, version, rest)->Ok_0;
        let place = place_of(own, bases, seen[n]);
        if list.contains(place) {
            let k = choose|k: int| 0 <= k < list.len() && list[k] == place;
            assert(rest[k] == seen[k]);
            assert(place_of(own, bases, seen[k]) == list[k]);
        }
    }
}

/// Where an object that was seen is, by the dataset that owns it.
pub open spec fn place_of(own: DatasetView, bases: Seq<BaseView>, v: Visit) -> LocationView {
    leaf_reads::dataset_of(own, bases, v.child.base_id)->Ok_0.place(v.child.path)
}

/// A report parts every object that a survey sees in leaves and nodes by its
/// height, in the order they were seen, and everything buffered is what each of
/// them has buffered.
pub proof fn law_report_takes_in_every_object(seen: Seq<Visit>, v: Visit)
    ensures
        survey::leaves_of(Seq::<Visit>::empty()).len() == 0,
        survey::nodes_of(Seq::<Visit>::empty()).len() == 0,
        survey::pending_in(Seq::<Visit>::empty()).len() == 0,
        survey::leaves_of(seen.push(v)) == if v.child.height == 0 {
            survey::leaves_of(seen).push(v)
        } else {
            survey::leaves_of(seen)
        },
        survey::nodes_of(seen.push(v)) == if v.child.height > 0 {
            survey::nodes_of(seen).push(v)
        } else {
            survey::nodes_of(seen)
        },
        survey::pending_in(seen.push(v)) == survey::pending_in(seen) + v.buffer,
{
    reveal(Seq::filter);
    assert(seen.push(v).drop_last() =~= seen);
}

} // verus!
