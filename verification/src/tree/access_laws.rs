//! When a fragment is resolved and a tree is walked, step by step.

use vstd::prelude::*;

use crate::error::{Aggregate, Error};
use crate::inherit;
use crate::node;
use crate::partial;
use crate::pb::{ChildView, MutationView};
use crate::policy_laws;
use crate::reading_laws;
use crate::record::FragmentView;
use crate::split;
use crate::squash;
use crate::squash_form_laws;
use crate::store;
use crate::store::StoreView;
use crate::tree::reads;
use crate::tree::walk;
use crate::tree::walk::RoutedLeaf;
use crate::tree::TreeView;

verus! {

proof fn lemma_deltas_sum(values: Seq<i64>, bound: int, name: Aggregate)
    requires
        magnitudes(values) <= bound <= i64::MAX,
    ensures
        node::summed_deltas(values, name) matches Ok(sum) && -magnitudes(values) <= sum
            <= magnitudes(values),
        magnitudes(values) >= 0,
    decreases values.len(),
{
    if values.len() > 0 {
        lemma_magnitudes(values.drop_last());
        lemma_deltas_sum(values.drop_last(), bound, name);
    }
}

spec fn magnitudes(values: Seq<i64>) -> int
    decreases values.len(),
{
    if values.len() == 0 {
        0
    } else {
        magnitudes(values.drop_last()) + squash_form_laws::magnitude(values.last())
    }
}

proof fn lemma_magnitudes(values: Seq<i64>)
    ensures
        magnitudes(values) >= 0,
    decreases values.len(),
{
    if values.len() > 0 {
        lemma_magnitudes(values.drop_last());
    }
}

proof fn lemma_weights(buffer: Seq<MutationView>)
    ensures
        magnitudes(squash::fragment_deltas(buffer)) <= squash_form_laws::weight(buffer),
        magnitudes(squash::row_deltas(buffer)) <= squash_form_laws::weight(buffer),
        magnitudes(squash::visible_deltas(buffer)) <= squash_form_laws::weight(buffer),
    decreases buffer.len(),
{
    if buffer.len() > 0 {
        let rest = buffer.drop_last();
        lemma_weights(rest);
        assert(squash::fragment_deltas(buffer).drop_last() =~= squash::fragment_deltas(rest));
        assert(squash::row_deltas(buffer).drop_last() =~= squash::row_deltas(rest));
        assert(squash::visible_deltas(buffer).drop_last() =~= squash::visible_deltas(rest));
    }
}

/// A node is read where it is what the reference says: it has the declared
/// size, its children and buffer are sound, and they come to the declared
/// amounts one level above the children. Its amounts can be counted, and it is
/// of the dataset that reads it.
pub proof fn law_agreeing_node_is_read(known: StoreView, child: ChildView, at: int)
    requires
        0 <= at < known.nodes.len(),
        reading_laws::at_place(known.nodes[at].loc.path, known.nodes[at].loc.base_id, child),
        forall|i: int|
            0 <= i < at ==> !reading_laws::at_place(
                (#[trigger] known.nodes[i]).loc.path,
                known.nodes[i].loc.base_id,
                child,
            ),
        child.base_id is None,
        ({
            let stored = known.nodes[at];
            let amounts = reading_laws::node_amounts(stored.children, stored.buffer);
            &&& stored.object_size == child.object_size
            &&& 0 < stored.children.len() <= u32::MAX
            &&& reading_laws::sound_children(
                stored.children,
                known.next_action_sequence,
                child.min_key,
            )
            &&& reading_laws::sound_buffer(stored.buffer, 1, known.next_action_sequence)
            &&& squash_form_laws::weight(stored.buffer) <= i64::MAX
            &&& reading_laws::total(
                Seq::new(stored.children.len(), |i: int| stored.children[i].num_keys as int),
            ) <= u64::MAX
            &&& reading_laws::total(
                Seq::new(stored.children.len(), |i: int| stored.children[i].total_rows as int),
            ) <= u64::MAX
            &&& reading_laws::total(
                Seq::new(stored.children.len(), |i: int| stored.children[i].visible_rows as int),
            ) <= u64::MAX
            &&& child.num_keys == amounts.0
            &&& child.total_rows == amounts.1
            &&& child.visible_rows == amounts.2
            &&& child.num_children == stored.children.len()
            &&& child.height == stored.children[0].height + 1
        }),
    ensures
        store::node_read(known, child) == Ok::<
            (Seq<ChildView>, Seq<MutationView>),
            Option<Error>,
        >((known.nodes[at].children, known.nodes[at].buffer)),
{
    let stored = known.nodes[at];
    let kids = stored.children;
    let pending = stored.buffer;
    let found = store::node_index(known.nodes, child.loc());
    store::lemma_node_index(known.nodes, child.loc());
    assert(stored.loc == child.loc());
    if found < at {
        assert(known.nodes[found].loc == child.loc());
    }
    assert(found == at);
    reading_laws::law_children_are_accepted_where_sound(
        kids,
        known.next_action_sequence,
        child.min_key,
    );
    reading_laws::law_buffer_is_accepted_where_sound(pending, 1, known.next_action_sequence);
    lemma_weights(pending);
    lemma_deltas_sum(
        squash::fragment_deltas(pending),
        i64::MAX as int,
        Aggregate::FragmentCountDelta,
    );
    lemma_deltas_sum(squash::row_deltas(pending), i64::MAX as int, Aggregate::TotalRowsDelta);
    lemma_deltas_sum(
        squash::visible_deltas(pending),
        i64::MAX as int,
        Aggregate::VisibleRowsDelta,
    );
    reading_laws::lemma_amounts_counted(kids, pending);
    reading_laws::lemma_max_height(kids);
    let h = node::max_height(kids);
    assert(kids[0].height <= h);
    assert(reading_laws::sound_child(kids[0], known.next_action_sequence));
    if h != 0 {
        let i = choose|i: int| 0 <= i < kids.len() && (#[trigger] kids[i]).height == h;
        assert(kids[i].height == kids[0].height);
    }
    assert(inherit::inherited_children(kids, None) =~= kids);
}

/// A fragment is resolved along one path. Without children, its own mutations
/// are all there is. At a leaf, they are applied to the record that the leaf
/// holds, where each may be pending above the leaf. At a node, the node's
/// mutations of the fragment join them and the path goes on below.
pub proof fn law_resolution_follows_the_path(
    known: StoreView,
    children: Seq<ChildView>,
    actions: Seq<MutationView>,
    key: u64,
    height: int,
)
    ensures
        ({
            let r = reads::resolved(known, children, actions, key, height);
            let child = children[node::route(children, key)];
            &&& children.len() == 0 ==> r == reads::settled(None, actions, key)
            &&& children.len() > 0 && child.height == 0 && (forall|i: int|
                0 <= i < actions.len() ==> policy_laws::may_wait_above(
                    child,
                    0x1_0000_0000,
                    #[trigger] actions[i],
                )) ==> match partial::point_read(known, child, key) {
                Ok(record) => r == reads::settled(record, actions, key),
                Err(why) => r == Err::<Option<FragmentView>, Option<Error>>(why),
            }
            &&& children.len() > 0 && 0 < child.height < height ==> match store::node_read(
                known,
                child,
            ) {
                Ok((below, buffer)) => r == reads::resolved(
                    known,
                    below,
                    actions + buffer.filter(|m: MutationView| m.key() == key),
                    key,
                    child.height as int,
                ),
                Err(why) => r == Err::<Option<FragmentView>, Option<Error>>(why),
            }
        }),
{
    let child = children[node::route(children, key)];
    policy_laws::lemma_bucket_fault(child, 0x1_0000_0000, actions);
}

/// A record without mutations is what it is.
pub proof fn law_record_without_mutations_stays(record: FragmentView)
    ensures
        reads::settled(Some(record), Seq::empty(), record.id) == Ok::<
            Option<FragmentView>,
            Option<Error>,
        >(Some(record)),
        reads::settled(None, Seq::empty(), record.id) == Ok::<
            Option<FragmentView>,
            Option<Error>,
        >(None),
{
    let none = Seq::<MutationView>::empty();
    assert(crate::order::sorted(none, false) =~= none);
    assert(crate::order::sorted(none, true) =~= none);
    assert(crate::replay::first_fault(none) is None);
    assert(crate::replay::folded(reads::single(Some(record)), none, true) == (
        reads::single(Some(record)),
        None::<Error>,
    ));
    assert(crate::replay::folded(reads::single(None), none, true) == (
        reads::single(None),
        None::<Error>,
    ));
}

/// A walk of a root over leaves visits the leaves from the one on that holds its
/// lower bound, in their order and each with the mutations that the root buffers
/// for it, where these may be pending above them.
pub proof fn law_walk_over_leaves_visits_each(t: TreeView, lower: u64)
    requires
        t.children.len() > 0,
        forall|i: int| 0 <= i < t.children.len() ==> (#[trigger] t.children[i]).height == 0,
        policy_laws::all_may_wait(
            t.children,
            walk::buckets(t.children, t.buffer),
            0x1_0000_0000,
            t.children.len() as int,
        ),
    ensures
        ({
            let found = walk::start_leaves(t, lower);
            let from = node::route(t.children, lower);
            &&& found.error is None
            &&& found.items.len() == t.children.len() - from
            &&& forall|i: int|
                0 <= i < found.items.len() ==> {
                    let leaf = #[trigger] found.items[i];
                    &&& leaf.child == t.children[from + i]
                    &&& leaf.actions == t.buffer.filter(
                        |m: MutationView| node::route(t.children, m.key()) == from + i,
                    )
                }
        }),
{
    let kids = t.children;
    let n = kids.len() as int;
    let from = node::route(kids, lower);
    policy_laws::law_routed_mutations_belong_to_their_children(
        kids,
        walk::buckets(kids, t.buffer),
        0x1_0000_0000,
        n,
    );
    node::lemma_route(kids, lower);
    lemma_leaves_from(t.store, kids, t.buffer, lower, node::max_height(kids) + 1, from);
}

proof fn lemma_leaves_from(
    known: StoreView,
    children: Seq<ChildView>,
    pending: Seq<MutationView>,
    lower: u64,
    height: int,
    from: int,
)
    requires
        0 <= from <= children.len(),
        height > 0,
        forall|i: int| 0 <= i < children.len() ==> (#[trigger] children[i]).height == 0,
    ensures
        ({
            let found = walk::routed_from(
                known,
                children,
                pending,
                node::ROOT_EXCLUSIVE_END,
                lower,
                height,
                from,
            );
            &&& found.error is None
            &&& found.items.len() == children.len() - from
            &&& forall|i: int|
                0 <= i < found.items.len() ==> #[trigger] found.items[i] == (RoutedLeaf {
                    child: children[from + i],
                    actions: split::bucket(children, pending, from + i),
                })
        }),
    decreases children.len() - from,
{
    reveal_with_fuel(walk::routed, 2);
    reveal_with_fuel(walk::routed_from, 2);
    let end = node::ROOT_EXCLUSIVE_END;
    if from < children.len() {
        lemma_leaves_from(known, children, pending, lower, height, from + 1);
        let rest = walk::routed_from(known, children, pending, end, lower, height, from + 1);
        let found = walk::routed_from(known, children, pending, end, lower, height, from);
        let own = RoutedLeaf {
            child: children[from],
            actions: split::bucket(children, pending, from),
        };
        assert(children[from].height == 0);
        assert(found.items == seq![own] + rest.items);
        assert forall|i: int| 0 <= i < found.items.len() implies #[trigger] found.items[i] == (
        RoutedLeaf {
            child: children[from + i],
            actions: split::bucket(children, pending, from + i),
        }) by {
            if i > 0 {
                assert(found.items[i] == rest.items[i - 1]);
            }
        }
    }
}

} // verus!
