//! The steps a tree is rewritten by, each of which keeps what it holds.

use vstd::prelude::*;

use crate::error::Error;
use crate::inherit;
use crate::leaves;
use crate::levels;
use crate::lifting;
use crate::node;
use crate::order;
use crate::pb::{ChildView, MutationView};
use crate::record::FragmentView;
use crate::replay;
use crate::replay_laws;
use crate::split;
use crate::squash;
use crate::store;
use crate::store::StoreView;
use crate::validation;
use crate::world;
use crate::world::World;

verus! {

/// Whether children are of one height and start at a bound or above it, and
/// no leaf among them is empty.
pub open spec fn shaped(children: Seq<ChildView>, height: int, lower: int) -> bool {
    forall|i: int|
        0 <= i < children.len() ==> (#[trigger] children[i]).height == height
            && children[i].min_key >= lower && (height == 0 ==> children[i].num_keys > 0)
}

pub proof fn lemma_max_height(children: Seq<ChildView>, height: int)
    requires
        children.len() > 0,
        forall|i: int| 0 <= i < children.len() ==> (#[trigger] children[i]).height == height,
    ensures
        node::max_height(children) == height,
    decreases children.len(),
{
    let rest = children.drop_last();
    assert(children.last() == children[children.len() - 1]);
    if rest.len() > 0 {
        assert forall|i: int| 0 <= i < rest.len() implies (#[trigger] rest[i]).height
            == height by {
            assert(rest[i] == children[i]);
        }
        lemma_max_height(rest, height);
    }
}

// Reading.

/// What a node that was read looks like.
pub proof fn lemma_node_shape(store: StoreView, child: ChildView)
    requires
        store::node_read(store, child) is Ok,
    ensures
        ({
            let (children, buffer) = store::node_read(store, child)->Ok_0;
            &&& child.height > 0
            &&& shaped(children, child.height - 1, child.min_key as int)
            &&& children.len() > 0 ==> children[0].min_key == child.min_key
            &&& child.num_children == children.len() as u32
            &&& forall|i: int|
                0 <= i < buffer.len() ==> 1 <= (#[trigger] buffer[i]).action_sequence
                    < store.next_action_sequence
            &&& forall|i: int|
                0 <= i < children.len() && children[i].height > 0 ==> (
                #[trigger] children[i]).num_children >= 2
        }),
{
    let at = store::node_index(store.nodes, child.loc());
    store::lemma_node_index(store.nodes, child.loc());
    let stored = store.nodes[at];
    let kids = stored.children;
    validation::lemma_children_pass(
        kids,
        kids.len() as int,
        store.next_action_sequence,
        child.min_key,
    );
    validation::lemma_buffer_passes(
        stored.buffer,
        stored.buffer.len() as int,
        1,
        store.next_action_sequence,
    );
    if kids.len() > 0 {
        lemma_max_height(kids, kids[0].height as int);
    }
    let (children, buffer) = store::node_read(store, child)->Ok_0;
    assert forall|i: int| 0 <= i < children.len() implies (#[trigger] children[i]).height
        == child.height - 1 && children[i].min_key >= child.min_key && (children[i].height > 0
        ==> children[i].num_children >= 2) && (children[i].height == 0 ==> children[i].num_keys
        > 0) by {
        assert(kids[i].height == kids[0].height);
        if i > 0 {
            assert(kids[0].min_key < kids[i].min_key);
        }
    }
    assert forall|i: int| 0 <= i < buffer.len() implies 1 <= (#[trigger] buffer[i]).action_sequence
        < store.next_action_sequence by {
        assert(1 <= stored.buffer[i].action_sequence < store.next_action_sequence);
    }
}

/// A node that was read stands for its children and its buffer.
pub proof fn lemma_reads_node(w: World, store: StoreView, child: ChildView)
    requires
        world::agrees(w, store),
        world::all_sound(w, store),
        store::node_read(store, child) is Ok,
    ensures
        lifting::denotes(
            w,
            child,
            store::node_read(store, child)->Ok_0.0,
            store::node_read(store, child)->Ok_0.1,
        ),
{
    reveal(world::agrees);
    reveal(world::all_sound);
    let at = store::node_index(store.nodes, child.loc());
    store::lemma_node_index(store.nodes, child.loc());
    let stored = store.nodes[at];
    assert(stored.loc == child.loc());
    lemma_node_shape(store, child);
    let (children, buffer) = store::node_read(store, child)->Ok_0;
    assert(children.len() == stored.children.len());
    assert(children[0].height == child.height - 1);
}

/// A leaf that was read holds its records in order, from its fence on.
pub proof fn lemma_leaf_shape(store: StoreView, child: ChildView)
    requires
        store::leaf_read(store, child) is Ok,
    ensures
        ({
            let records = store::leaf_read(store, child)->Ok_0;
            &&& store::ascending(records)
            &&& forall|i: int|
                0 <= i < records.len() ==> (#[trigger] records[i]).id >= child.min_key
        }),
{
    let at = store::leaf_index(store.leaves, child.loc());
    store::lemma_leaf_index(store.leaves, child.loc());
    let stored = store.leaves[at];
    let fragments = stored.fragments;
    store::lemma_misordered(fragments, fragments.len() as int);
    assert(fragments.take(fragments.len() as int) =~= fragments);
    let records = store::leaf_read(store, child)->Ok_0;
    assert forall|i: int, j: int| 0 <= i < j < records.len() implies (#[trigger] records[i]).id < (
    #[trigger] records[j]).id by {
        assert(fragments[i].id < fragments[j].id);
    }
    assert forall|i: int| 0 <= i < records.len() implies (#[trigger] records[i]).id
        >= child.min_key by {
        if i > 0 {
            assert(fragments[0].id < fragments[i].id);
        }
    }
}

/// A leaf that was read stands for its records.
pub proof fn lemma_reads_leaf(w: World, store: StoreView, child: ChildView)
    requires
        world::agrees(w, store),
        store::leaf_read(store, child) is Ok,
    ensures
        world::leaf_agrees(w, child.loc(), store::leaf_read(store, child)->Ok_0),
{
    reveal(world::agrees);
    let at = store::leaf_index(store.leaves, child.loc());
    store::lemma_leaf_index(store.leaves, child.loc());
    assert(store.leaves[at].loc == child.loc());
}

/// What a list of nodes holds, node after node; nothing where one of them
/// cannot be read.
pub open spec fn gathered(store: StoreView, group: Seq<ChildView>) -> Option<
    (Seq<ChildView>, Seq<MutationView>),
>
    decreases group.len(),
{
    if group.len() == 0 {
        Some((Seq::empty(), Seq::empty()))
    } else {
        match gathered(store, group.drop_last()) {
            None => None,
            Some((children, buffer)) => match store::node_read(store, group.last()) {
                Err(_) => None,
                Ok((more, pending)) => Some((children + more, buffer + pending)),
            },
        }
    }
}

proof fn lemma_gathered(w: World, store: StoreView, group: Seq<ChildView>)
    requires
        world::agrees(w, store),
        world::all_sound(w, store),
        world::sane(w, group),
        gathered(store, group) is Some,
        group.len() > 0,
    ensures
        lifting::unfolds(w, group, gathered(store, group)->Some_0.0, gathered(store, group)->Some_0.1),
    decreases group.len(),
{
    let rest = group.drop_last();
    let c = group.last();
    lemma_reads_node(w, store, c);
    let (more, pending) = store::node_read(store, c)->Ok_0;
    if rest.len() == 0 {
        lifting::lemma_unfold_one(w, c, more, pending);
        assert(group =~= seq![c]);
        assert(Seq::<ChildView>::empty() + more =~= more);
        assert(Seq::<MutationView>::empty() + pending =~= pending);
    } else {
        assert(group =~= rest + seq![c]);
        assert(group =~= Seq::<ChildView>::empty() + rest + seq![c]);
        levels::lemma_middle(w, Seq::empty(), rest, seq![c]);
        lemma_gathered(w, store, rest);
        let (children, buffer) = gathered(store, rest)->0;
        lifting::lemma_unfold_push(w, rest, c, children, buffer, more, pending);
    }
}

pub proof fn lemma_gathered_shape(store: StoreView, group: Seq<ChildView>, height: int, lower: int)
    requires
        gathered(store, group) is Some,
        shaped(group, height, lower),
    ensures
        shaped(gathered(store, group)->Some_0.0, height - 1, lower),
        group.len() > 0 ==> height > 0,
    decreases group.len(),
{
    if group.len() > 0 {
        let rest = group.drop_last();
        let c = group.last();
        assert(c == group[group.len() - 1]);
        assert(shaped(rest, height, lower)) by {
            assert forall|i: int| 0 <= i < rest.len() implies (#[trigger] rest[i]).height == height
                && rest[i].min_key >= lower && (height == 0 ==> rest[i].num_keys > 0) by {
                assert(rest[i] == group[i]);
            }
        }
        lemma_gathered_shape(store, rest, height, lower);
        lemma_node_shape(store, c);
        let all = gathered(store, group)->Some_0.0;
        let first = gathered(store, rest)->Some_0.0;
        let more = store::node_read(store, c)->Ok_0.0;
        assert forall|i: int| 0 <= i < all.len() implies (#[trigger] all[i]).height == height - 1
            && all[i].min_key >= lower && (height - 1 == 0 ==> all[i].num_keys > 0) by {
            if i < first.len() {
                assert(all[i] == first[i]);
            } else {
                assert(all[i] == more[i - first.len()]);
            }
        }
    }
}

/// Gathered children start where the first node starts.
pub proof fn lemma_gathered_first(store: StoreView, group: Seq<ChildView>)
    requires
        gathered(store, group) is Some,
        group.len() > 0,
        forall|i: int|
            0 <= i < group.len() ==> store::node_read(store, #[trigger] group[i]) is Ok
                && store::node_read(store, group[i])->Ok_0.0.len() > 0,
    ensures
        gathered(store, group)->Some_0.0.len() > 0,
        gathered(store, group)->Some_0.0[0].min_key == group[0].min_key,
    decreases group.len(),
{
    let rest = group.drop_last();
    let c = group.last();
    assert(c == group[group.len() - 1]);
    lemma_node_shape(store, c);
    if rest.len() > 0 {
        assert forall|i: int| 0 <= i < rest.len() implies store::node_read(
            store,
            #[trigger] rest[i],
        ) is Ok && store::node_read(store, rest[i])->Ok_0.0.len() > 0 by {
            assert(rest[i] == group[i]);
        }
        lemma_gathered_first(store, rest);
    }
}

/// Replacing nodes by what they hold keeps what a level holds.
pub proof fn step_unfold(
    store: StoreView,
    group: Seq<ChildView>,
    above: Seq<MutationView>,
    joined: Seq<MutationView>,
)
    requires
        group.len() > 0,
        gathered(store, group) is Some,
        joined == gathered(store, group)->Some_0.1 + above || joined == above + gathered(
            store,
            group,
        )->Some_0.1,
    ensures
        world::faithful(
            store,
            store,
            group,
            above,
            gathered(store, group)->Some_0.0,
            joined,
            -1,
        ),
{
    reveal(world::faithful);
    let (children, below) = gathered(store, group)->0;
    assert forall|w: World|
        #![trigger world::agrees(w, store)]
        world::agrees(w, store) && world::all_sound(w, store) && world::sound(
            w,
            group,
            above,
        ) implies world::all_sound(w, store) && world::refines(
        w,
        group,
        above,
        children,
        joined,
        -1,
    ) by {
        lemma_gathered(w, store, group);
        lifting::lemma_unfold(w, group, above, children, below, joined);
    }
}

// Writing nodes.

/// Whether some references stand for nodes that were written with the given
/// children and buffers, behind what was known.
pub open spec fn wrote_nodes(
    before: StoreView,
    after: StoreView,
    refs: Seq<ChildView>,
    pieces: Seq<Seq<ChildView>>,
    buffers: Seq<Seq<MutationView>>,
) -> bool {
    let known = before.nodes.len();
    &&& after.extends(before)
    &&& after.leaves == before.leaves
    &&& after.nodes.len() == known + refs.len()
    &&& pieces.len() == refs.len()
    &&& buffers.len() == refs.len()
    &&& forall|i: int|
        0 <= i < refs.len() ==> {
            let node = after.nodes[known + i];
            &&& node.loc == (#[trigger] refs[i]).loc()
            &&& node.children == pieces[i]
            &&& node.buffer == buffers[i]
            &&& refs[i].base_id is None
            &&& refs[i].num_children == pieces[i].len() as u32
            &&& pieces[i].len() > 0 ==> refs[i].min_key == pieces[i][0].min_key
                && refs[i].height == node::max_height(pieces[i]) + 1
        }
}

proof fn lemma_wrote_nodes(
    w: World,
    before: StoreView,
    after: StoreView,
    refs: Seq<ChildView>,
    pieces: Seq<Seq<ChildView>>,
    buffers: Seq<Seq<MutationView>>,
)
    requires
        wrote_nodes(before, after, refs, pieces, buffers),
        world::agrees(w, after),
    ensures
        forall|i: int|
            0 <= i < refs.len() ==> world::node_agrees(
                w,
                (#[trigger] refs[i]).loc(),
                pieces[i],
                buffers[i],
            ),
{
    reveal(world::agrees);
    assert forall|i: int| 0 <= i < refs.len() implies world::node_agrees(
        w,
        (#[trigger] refs[i]).loc(),
        pieces[i],
        buffers[i],
    ) by {
        let node = after.nodes[before.nodes.len() + i];
        assert(node.loc == refs[i].loc());
        assert(inherit::inherited_children(node.children, None) =~= pieces[i]);
    }
}

spec fn pieces_sound(
    w: World,
    pieces: Seq<Seq<ChildView>>,
    buffers: Seq<Seq<MutationView>>,
) -> bool {
    forall|i: int|
        0 <= i < pieces.len() ==> (#[trigger] pieces[i]).len() > 0 && world::sound(
            w,
            pieces[i],
            buffers[i],
        )
}

proof fn lemma_wrote_sound(
    w: World,
    before: StoreView,
    after: StoreView,
    refs: Seq<ChildView>,
    pieces: Seq<Seq<ChildView>>,
    buffers: Seq<Seq<MutationView>>,
)
    requires
        wrote_nodes(before, after, refs, pieces, buffers),
        world::all_sound(w, before),
        pieces_sound(w, pieces, buffers),
    ensures
        world::all_sound(w, after),
{
    reveal(world::all_sound);
    let known = before.nodes.len();
    assert forall|k: int| 0 <= k < after.nodes.len() implies (
    #[trigger] after.nodes[k]).children.len() > 0 && world::sound(
        w,
        inherit::inherited_children(after.nodes[k].children, after.nodes[k].loc.base_id),
        inherit::inherited_buffer(after.nodes[k].buffer, after.nodes[k].loc.base_id),
    ) by {
        if k < known {
            assert(after.nodes.take(known as int)[k] == before.nodes[k]);
        } else {
            let i = k - known;
            assert(refs[i].base_id is None);
            assert(after.nodes[known + i].loc == refs[i].loc());
            assert(inherit::inherited_children(after.nodes[k].children, None) =~= pieces[i]);
            assert(pieces[i].len() > 0 && world::sound(w, pieces[i], buffers[i]));
        }
    }
}

/// Writing the pieces of a level as nodes keeps what it holds.
pub proof fn step_lift(
    before: StoreView,
    after: StoreView,
    children: Seq<ChildView>,
    buffer: Seq<MutationView>,
    cut: Seq<int>,
    pieces: Seq<Seq<ChildView>>,
    buffers: Seq<Seq<MutationView>>,
    refs: Seq<ChildView>,
    height: int,
)
    requires
        lifting::whole(children, cut),
        lifting::dealt(children, buffer, cut, buffers),
        wrote_nodes(before, after, refs, pieces, buffers),
        refs.len() == cut.len(),
        forall|j: int|
            0 <= j < cut.len() ==> #[trigger] pieces[j] == lifting::piece(children, cut, j),
        forall|i: int| 0 <= i < children.len() ==> (#[trigger] children[i]).height == height,
    ensures
        world::faithful(before, after, children, buffer, refs, levels::no_mutations(), -1),
        forall|j: int| 0 <= j < refs.len() ==> (#[trigger] refs[j]).height == height + 1,
        forall|j: int|
            0 <= j < refs.len() ==> exists|i: int|
                0 <= i < children.len() && (#[trigger] refs[j]).min_key == (
                #[trigger] children[i]).min_key,
        refs[0].min_key == children[0].min_key,
{
    assert forall|j: int| 0 <= j < refs.len() implies (#[trigger] refs[j]).height == height + 1
        && refs[j].min_key == children[split::taken(cut, j)].min_key by {
        lifting::lemma_piece(children, cut, j);
        let part = lifting::piece(children, cut, j);
        assert(pieces[j] == part);
        assert forall|i: int| 0 <= i < part.len() implies (#[trigger] part[i]).height
            == height by {
            assert(part[i] == children[split::taken(cut, j) + i]);
        }
        lemma_max_height(part, height);
    }
    assert forall|j: int| 0 <= j < refs.len() implies exists|i: int|
        0 <= i < children.len() && (#[trigger] refs[j]).min_key == (
        #[trigger] children[i]).min_key by {
        lifting::lemma_piece(children, cut, j);
        let i = split::taken(cut, j);
        assert(refs[j].min_key == children[i].min_key);
    }
    assert(refs[0].min_key == children[split::taken(cut, 0)].min_key);
    reveal(world::faithful);
    assert forall|w: World|
        #![trigger world::agrees(w, after)]
        world::agrees(w, after) && world::all_sound(w, before) && world::sound(
            w,
            children,
            buffer,
        ) implies world::all_sound(w, after) && world::refines(
        w,
        children,
        buffer,
        refs,
        levels::no_mutations(),
        -1,
    ) by {
        lemma_wrote_nodes(w, before, after, refs, pieces, buffers);
        assert forall|j: int| 0 <= j < cut.len() implies (#[trigger] refs[j]).height
            == children[0].height + 1 && refs[j].min_key == children[split::taken(
            cut,
            j,
        )].min_key && world::node_agrees(
            w,
            refs[j].loc(),
            lifting::piece(children, cut, j),
            buffers[j],
        ) by {
            lifting::lemma_piece(children, cut, j);
            assert(children[0].height == height);
            assert(pieces[j] == lifting::piece(children, cut, j));
        }
        lifting::lemma_lift(w, children, buffer, cut, buffers, refs);
        assert(pieces_sound(w, pieces, buffers)) by {
            assert forall|i: int| 0 <= i < pieces.len() implies (#[trigger] pieces[i]).len() > 0
                && world::sound(w, pieces[i], buffers[i]) by {
                lifting::lemma_piece(children, cut, i);
                assert(pieces[i] == lifting::piece(children, cut, i));
                assert(world::sound(w, lifting::piece(children, cut, i), buffers[i]));
            }
        }
        lemma_wrote_sound(w, before, after, refs, pieces, buffers);
    }
}

/// Writing a level as one node keeps what it holds.
pub proof fn step_write(
    before: StoreView,
    after: StoreView,
    children: Seq<ChildView>,
    buffer: Seq<MutationView>,
    r: ChildView,
    height: int,
)
    requires
        children.len() > 0,
        wrote_nodes(before, after, seq![r], seq![children], seq![buffer]),
        forall|i: int| 0 <= i < children.len() ==> (#[trigger] children[i]).height == height,
    ensures
        world::faithful(before, after, children, buffer, seq![r], levels::no_mutations(), -1),
        r.height == height + 1,
        r.min_key == children[0].min_key,
{
    let cut = seq![children.len() as int];
    let pieces = seq![children];
    let buffers = seq![buffer];
    let refs = seq![r];
    assert(split::taken(cut, 0) == 0);
    assert(split::taken(cut, 1) == children.len());
    assert(pieces[0] =~= lifting::piece(children, cut, 0));
    assert forall|key: u64| #![trigger node::route(children, key)]
        lifting::in_piece(children, cut, 0, key) by {
        node::lemma_route(children, key);
    }
    assert(lifting::dealt(children, buffer, cut, buffers)) by {
        assert forall|j: int, key: u64|
            0 <= j < cut.len() && !lifting::in_piece(
                children,
                cut,
                j,
                key,
            ) implies #[trigger] order::of_key(buffers[j], key) == Seq::<
            MutationView,
        >::empty() by {
            node::lemma_route(children, key);
        }
    }
    step_lift(before, after, children, buffer, cut, pieces, buffers, refs, height);
    assert(refs[0] == r);
}

/// The mutations each piece of a split node gets are the ones it owns.
pub proof fn lemma_dealt(
    children: Seq<ChildView>,
    buffer: Seq<MutationView>,
    cut: Seq<int>,
    buffers: Seq<Seq<MutationView>>,
)
    requires
        lifting::whole(children, cut),
        buffers.len() == cut.len(),
        forall|j: int|
            0 <= j < cut.len() ==> #[trigger] buffers[j] == split::joined(
                children,
                buffer,
                split::taken(cut, j),
                split::taken(cut, j + 1),
            ),
    ensures
        lifting::dealt(children, buffer, cut, buffers),
{
    assert forall|j: int, key: u64|
        #![trigger buffers[j], node::route(children, key)]
        0 <= j < cut.len() && lifting::in_piece(children, cut, j, key) implies world::same_run(
        buffers[j],
        buffer,
        key,
    ) by {
        lemma_joined(children, buffer, split::taken(cut, j), split::taken(cut, j + 1), key);
    }
    assert forall|j: int, key: u64|
        0 <= j < cut.len() && !lifting::in_piece(
            children,
            cut,
            j,
            key,
        ) implies #[trigger] order::of_key(buffers[j], key) == Seq::<MutationView>::empty() by {
        assert(buffers[j] == split::joined(
            children,
            buffer,
            split::taken(cut, j),
            split::taken(cut, j + 1),
        ));
        lemma_joined(children, buffer, split::taken(cut, j), split::taken(cut, j + 1), key);
    }
}

/// A bucket holds a fragment's mutations if its child owns it, else none.
pub proof fn lemma_bucket(
    children: Seq<ChildView>,
    buffer: Seq<MutationView>,
    index: int,
    key: u64,
)
    ensures
        order::of_key(split::bucket(children, buffer, index), key) == if node::route(children, key)
            == index {
            order::of_key(buffer, key)
        } else {
            Seq::<MutationView>::empty()
        },
    decreases buffer.len(),
{
    reveal_with_fuel(Seq::filter, 2);
    if buffer.len() > 0 {
        lemma_bucket(children, buffer.drop_last(), index, key);
        let m = buffer.last();
        let rest = split::bucket(children, buffer.drop_last(), index);
        let all = split::bucket(children, buffer, index);
        if node::route(children, m.key()) == index {
            assert(all == rest.push(m));
            assert(all.drop_last() =~= rest);
        } else {
            assert(all == rest);
        }
    }
}

proof fn lemma_joined(
    children: Seq<ChildView>,
    buffer: Seq<MutationView>,
    from: int,
    to: int,
    key: u64,
)
    ensures
        order::of_key(split::joined(children, buffer, from, to), key) == if from <= node::route(
            children,
            key,
        ) < to {
            order::of_key(buffer, key)
        } else {
            Seq::<MutationView>::empty()
        },
    decreases to - from,
{
    if from < to {
        lemma_joined(children, buffer, from, to - 1, key);
        lemma_bucket(children, buffer, to - 1, key);
        lifting::lemma_of_key_add(
            split::joined(children, buffer, from, to - 1),
            split::bucket(children, buffer, to - 1),
            key,
        );
        assert(order::of_key(buffer, key) + Seq::<MutationView>::empty() =~= order::of_key(
            buffer,
            key,
        ));
        assert(Seq::<MutationView>::empty() + order::of_key(buffer, key) =~= order::of_key(
            buffer,
            key,
        ));
        assert(Seq::<MutationView>::empty() + Seq::<MutationView>::empty() =~= Seq::<
            MutationView,
        >::empty());
    } else {
        levels::lemma_no_run(key);
        assert(split::joined(children, buffer, from, to) =~= levels::no_mutations());
    }
}

// Changing part of a level.

/// Replacing the middle of a level by children that hold the same keeps what
/// it holds. What is buffered above must not be for them where watermarks
/// rise.
pub proof fn step_splice(
    before: StoreView,
    after: StoreView,
    x: Seq<ChildView>,
    s: Seq<ChildView>,
    y: Seq<ChildView>,
    p: Seq<MutationView>,
    s2: Seq<ChildView>,
)
    requires
        s.len() > 0,
        s2.len() > 0,
        world::faithful(before, after, s, levels::no_mutations(), s2, levels::no_mutations(), -1),
        s2[0].height == s[0].height,
        s2[0].min_key == s[0].min_key || (x.len() == 0 && s2[0].min_key <= s[0].min_key),
    ensures
        world::faithful(before, after, x + s + y, p, x + s2 + y, p, -1),
{
    reveal(world::faithful);
    assert forall|w: World|
        #![trigger world::agrees(w, after)]
        world::agrees(w, after) && world::all_sound(w, before) && world::sound(
            w,
            x + s + y,
            p,
        ) implies world::all_sound(w, after) && world::refines(
        w,
        x + s + y,
        p,
        x + s2 + y,
        p,
        -1,
    ) by {
        levels::lemma_middle(w, x, s, y);
        levels::lemma_bare_sound(w, s);
        levels::lemma_splice(w, x, s, y, p, s2, -1);
    }
}

/// Normalizing a buffer keeps what a level holds.
pub proof fn step_squash(
    store: StoreView,
    children: Seq<ChildView>,
    a: Seq<MutationView>,
    b: Seq<MutationView>,
)
    requires
        squash::normalized(a, b),
    ensures
        world::faithful(store, store, children, a, children, b, -1),
{
    reveal(world::faithful);
    assert forall|w: World|
        #![trigger world::agrees(w, store)]
        world::agrees(w, store) && world::all_sound(w, store) && world::sound(
            w,
            children,
            a,
        ) implies world::all_sound(w, store) && world::refines(w, children, a, children, b, -1) by {
        lifting::lemma_squash(w, children, a, b);
    }
}

/// Holding the same mutations in another order keeps what a level holds.
pub proof fn step_regroup(
    store: StoreView,
    children: Seq<ChildView>,
    a: Seq<MutationView>,
    b: Seq<MutationView>,
)
    requires
        forall|key: u64| #[trigger] world::same_run(b, a, key),
    ensures
        world::faithful(store, store, children, a, children, b, -1),
{
    reveal(world::faithful);
    assert forall|w: World|
        #![trigger world::agrees(w, store)]
        world::agrees(w, store) && world::all_sound(w, store) && world::sound(
            w,
            children,
            a,
        ) implies world::all_sound(w, store) && world::refines(w, children, a, children, b, -1) by {
        lifting::lemma_regroup(w, children, a, b);
    }
}

/// Lowering the first fence keeps what a level holds.
pub proof fn step_refence(
    store: StoreView,
    children: Seq<ChildView>,
    buffer: Seq<MutationView>,
    lower: u64,
)
    requires
        children.len() > 0 ==> lower <= children[0].min_key,
    ensures
        world::faithful(
            store,
            store,
            children,
            buffer,
            node::fenced(children, lower),
            buffer,
            -1,
        ),
{
    reveal(world::faithful);
    assert forall|w: World|
        #![trigger world::agrees(w, store)]
        world::agrees(w, store) && world::all_sound(w, store) && world::sound(
            w,
            children,
            buffer,
        ) implies world::all_sound(w, store) && world::refines(
        w,
        children,
        buffer,
        node::fenced(children, lower),
        buffer,
        -1,
    ) by {
        if children.len() > 0 {
            lifting::lemma_refence(w, children, buffer, lower);
        } else {
            world::lemma_refines_self(w, children, buffer);
        }
    }
}

// Writing leaves.

/// The records of a leaf by id.
pub open spec fn indexed(records: Seq<FragmentView>) -> Map<u64, FragmentView> {
    Map::new(
        |key: u64| world::found(records, key) is Some,
        |key: u64| world::found(records, key)->0,
    )
}

/// Whether records are the ones of a map, in order of their ids.
pub open spec fn lists(records: Seq<FragmentView>, state: Map<u64, FragmentView>) -> bool {
    &&& store::ascending(records)
    &&& forall|key: u64| #[trigger] world::found(records, key) == replay::lookup(state, key)
}

pub proof fn lemma_wrote_leaves(
    w: World,
    before: StoreView,
    after: StoreView,
    refs: Seq<ChildView>,
    records: Seq<FragmentView>,
    parts: Seq<(int, int)>,
    watermark: u64,
)
    requires
        store::wrote_leaves(before, after, refs, records, parts, watermark),
        store::tiles(parts, 0, records.len() as int),
        world::agrees(w, after),
        world::all_sound(w, before),
    ensures
        leaves::holding(w, refs, records, parts, watermark),
        world::all_sound(w, after),
{
    reveal(world::agrees);
    reveal(world::all_sound);
    store::lemma_tiles(parts, 0, records.len() as int);
    assert forall|i: int| 0 <= i < refs.len() implies {
        &&& (#[trigger] refs[i]).height == 0
        &&& refs[i].materialized_through_action_sequence == watermark
        &&& refs[i].min_key == records[parts[i].0].id
        &&& world::leaf_agrees(w, refs[i].loc(), records.subrange(parts[i].0, parts[i].1))
    } by {
        let part = records.subrange(parts[i].0, parts[i].1);
        let leaf = after.leaves[before.leaves.len() + i];
        assert(leaf.loc == refs[i].loc());
        assert(part[0] == records[parts[i].0]);
        assert(inherit::inherited_records(leaf.fragments, None) =~= part);
    }
}

pub proof fn lemma_leaf_refs(
    before: StoreView,
    after: StoreView,
    refs: Seq<ChildView>,
    records: Seq<FragmentView>,
    parts: Seq<(int, int)>,
    watermark: u64,
)
    requires
        store::wrote_leaves(before, after, refs, records, parts, watermark),
        store::tiles(parts, 0, records.len() as int),
        store::ascending(records),
        records.len() <= u64::MAX,
    ensures
        records.len() > 0 ==> refs.len() > 0 && refs[0].min_key == records[0].id,
        records.len() == 0 ==> refs.len() == 0,
        records.len() > 0 ==> shaped(refs, 0, records[0].id as int),
        forall|i: int|
            0 <= i < refs.len() ==> (
            #[trigger] refs[i]).materialized_through_action_sequence == watermark
                && refs[i].num_children == 0,
{
    store::lemma_tiles(parts, 0, records.len() as int);
    assert forall|i: int| 0 <= i < refs.len() implies (#[trigger] refs[i]).height == 0
        && refs[i].min_key == records[parts[i].0].id && refs[i].min_key >= records[0].id
        && refs[i].materialized_through_action_sequence == watermark && refs[i].num_children
        == 0 && refs[i].num_keys > 0 by {
        let part = records.subrange(parts[i].0, parts[i].1);
        assert(parts[i].0 < parts[i].1);
        assert(part[0] == records[parts[i].0]);
        if parts[i].0 > 0 {
            assert(records[0].id < records[parts[i].0].id);
        }
    }
    if parts.len() > 0 {
        assert(parts[0].0 < parts[0].1);
        assert(refs[0].height == 0);
    }
}

/// What references to written leaves look like, whatever the order of the
/// records.
pub proof fn lemma_leaf_refs_from(
    before: StoreView,
    after: StoreView,
    refs: Seq<ChildView>,
    records: Seq<FragmentView>,
    parts: Seq<(int, int)>,
    watermark: u64,
    lower: int,
)
    requires
        store::wrote_leaves(before, after, refs, records, parts, watermark),
        store::tiles(parts, 0, records.len() as int),
        records.len() <= u64::MAX,
        forall|i: int| 0 <= i < records.len() ==> (#[trigger] records[i]).id >= lower,
    ensures
        records.len() > 0 ==> refs.len() > 0 && refs[0].min_key == records[0].id,
        shaped(refs, 0, lower),
{
    store::lemma_tiles(parts, 0, records.len() as int);
    assert forall|i: int| 0 <= i < refs.len() implies (#[trigger] refs[i]).height == 0
        && refs[i].min_key == records[parts[i].0].id && refs[i].min_key >= lower
        && refs[i].num_keys > 0 by {
        let part = records.subrange(parts[i].0, parts[i].1);
        assert(parts[i].0 < parts[i].1);
        assert(part[0] == records[parts[i].0]);
    }
    if parts.len() > 0 {
        assert(parts[0].0 < parts[0].1);
        assert(refs[0].height == 0);
    }
}

/// The collected records of leaves start where the leaves start.
pub proof fn lemma_collected_from(store: StoreView, group: Seq<ChildView>, lower: int)
    requires
        collected(store, group) is Some,
        shaped(group, 0, lower),
    ensures
        forall|i: int|
            0 <= i < (collected(store, group)->Some_0).len() ==> (#[trigger] (collected(
                store,
                group,
            )->Some_0)[i]).id >= lower,
        group.len() > 0 ==> (collected(store, group)->Some_0).len() > 0,
    decreases group.len(),
{
    if group.len() > 0 {
        let rest = group.drop_last();
        let c = group.last();
        assert(c == group[group.len() - 1]);
        assert(shaped(rest, 0, lower)) by {
            assert forall|i: int| 0 <= i < rest.len() implies (#[trigger] rest[i]).height == 0
                && rest[i].min_key >= lower && rest[i].num_keys > 0 by {
                assert(rest[i] == group[i]);
            }
        }
        lemma_collected_from(store, rest, lower);
        lemma_leaf_shape(store, c);
        let first = collected(store, rest)->Some_0;
        let more = store::leaf_read(store, c)->Ok_0;
        let all = collected(store, group)->Some_0;
        assert forall|i: int| 0 <= i < all.len() implies (#[trigger] all[i]).id >= lower by {
            if i < first.len() {
                assert(all[i] == first[i]);
            } else {
                assert(all[i] == more[i - first.len()]);
            }
        }
        assert(more.len() > 0) by {
            let at = store::leaf_index(store.leaves, c.loc());
            assert(store.leaves[at].fragments.len() as u64 == c.num_keys);
        }
    }
}

/// Whether records, in order of their ids, are what mutations make of a leaf
/// wherever they make something of it.
pub open spec fn settles(
    store: StoreView,
    child: ChildView,
    s: Seq<MutationView>,
    records: Seq<FragmentView>,
) -> bool {
    &&& store::ascending(records)
    &&& forall|w: World, key: u64|
        #![trigger world::cell(w, seq![child], s, key)]
        world::agrees(w, store) && world::cell(w, seq![child], s, key) is Ok ==> world::cell(
            w,
            seq![child],
            s,
            key,
        ) == Ok::<Option<FragmentView>, Error>(world::found(records, key))
}

/// What replay over the records of a leaf leaves is what mutations make of it.
pub proof fn lemma_settles(
    store: StoreView,
    child: ChildView,
    s: Seq<MutationView>,
    records: Seq<FragmentView>,
)
    requires
        store::leaf_read(store, child) is Ok,
        ({
            let (state, error) = replay::replayed(
                indexed(store::leaf_read(store, child)->Ok_0),
                s,
                true,
            );
            error is None && lists(records, state)
        }),
    ensures
        settles(store, child, s, records),
{
    let given = store::leaf_read(store, child)->Ok_0;
    assert forall|w: World, key: u64|
        #![trigger world::cell(w, seq![child], s, key)]
        world::agrees(w, store) && world::cell(w, seq![child], s, key) is Ok implies world::cell(
        w,
        seq![child],
        s,
        key,
    ) == Ok::<Option<FragmentView>, Error>(world::found(records, key)) by {
        node::lemma_route(seq![child], key);
        lemma_reads_leaf(w, store, child);
        assert(world::base_at(w, seq![child], key) == world::found(given, key));
        lemma_replayed_cell(indexed(given), s, key);
    }
}

/// Applying a leaf's mutations and writing the records as leaves keeps what
/// the leaf holds.
pub proof fn step_leaves(
    before: StoreView,
    after: StoreView,
    child: ChildView,
    incoming: Seq<MutationView>,
    records: Seq<FragmentView>,
    parts: Seq<(int, int)>,
    refs: Seq<ChildView>,
    watermark: u64,
)
    requires
        child.height == 0,
        settles(before, child, incoming, records),
        store::wrote_leaves(before, after, refs, records, parts, watermark),
        store::tiles(parts, 0, records.len() as int),
        records.len() > 0 ==> child.min_key <= records[0].id,
    ensures
        world::faithful(
            before,
            after,
            seq![child],
            incoming,
            node::fenced(refs, child.min_key),
            levels::no_mutations(),
            watermark as int,
        ),
{
    reveal(world::faithful);
    let group = seq![child];
    assert forall|w: World|
        #![trigger world::agrees(w, after)]
        world::agrees(w, after) && world::all_sound(w, before) && world::sound(
            w,
            group,
            incoming,
        ) implies world::all_sound(w, after) && world::refines(
        w,
        group,
        incoming,
        node::fenced(refs, child.min_key),
        levels::no_mutations(),
        watermark as int,
    ) by {
        world::lemma_agrees_before(w, before, after);
        lemma_wrote_leaves(w, before, after, refs, records, parts, watermark);
        assert forall|key: u64| #[trigger]
            world::cell(w, group, incoming, key) == Ok::<Option<FragmentView>, Error>(
                world::found(records, key),
            ) by {
            assert(world::good(world::cell(w, group, incoming, key), key));
        }
        leaves::lemma_leaf_level(
            w,
            group,
            incoming,
            records,
            parts,
            refs,
            watermark,
            child.min_key,
            watermark as int,
        );
    }
}

/// What a verifying replay made of one record.
pub proof fn lemma_replayed_cell(state: Map<u64, FragmentView>, s: Seq<MutationView>, key: u64)
    requires
        replay::replayed(state, s, true).1 is None,
    ensures
        replay::outcome(replay::lookup(state, key), order::run(s, key), false) == Ok::<
            Option<FragmentView>,
            Error,
        >(replay::lookup(replay::replayed(state, s, true).0, key)),
{
    replay_laws::law_fragments_replay_independently(state, s, true);
    assert(replay::outcome(replay::lookup(state, key), order::run(s, key), true) == Ok::<
        Option<FragmentView>,
        Error,
    >(replay::lookup(replay::replayed(state, s, true).0, key)));
    replay_laws::law_verified_replay_is_trusted(replay::lookup(state, key), order::run(s, key));
}

/// Turning the buffer of a childless root into leaves keeps what it holds.
pub proof fn step_root_leaves(
    before: StoreView,
    after: StoreView,
    buffer: Seq<MutationView>,
    records: Seq<FragmentView>,
    parts: Seq<(int, int)>,
    refs: Seq<ChildView>,
    watermark: u64,
)
    requires
        ({
            let (state, error) = replay::replayed(Map::empty(), buffer, true);
            error is None && lists(records, state)
        }),
        store::wrote_leaves(before, after, refs, records, parts, watermark),
        store::tiles(parts, 0, records.len() as int),
    ensures
        world::faithful(
            before,
            after,
            Seq::empty(),
            buffer,
            node::fenced(refs, 0),
            levels::no_mutations(),
            watermark as int,
        ),
{
    reveal(world::faithful);
    let none = Seq::<ChildView>::empty();
    assert forall|w: World|
        #![trigger world::agrees(w, after)]
        world::agrees(w, after) && world::all_sound(w, before) && world::sound(
            w,
            none,
            buffer,
        ) implies world::all_sound(w, after) && world::refines(
        w,
        none,
        buffer,
        node::fenced(refs, 0),
        levels::no_mutations(),
        watermark as int,
    ) by {
        lemma_wrote_leaves(w, before, after, refs, records, parts, watermark);
        assert forall|key: u64| #[trigger]
            world::cell(w, none, buffer, key) == Ok::<Option<FragmentView>, Error>(
                world::found(records, key),
            ) by {
            lemma_replayed_cell(Map::empty(), buffer, key);
        }
        leaves::lemma_leaf_level(
            w,
            none,
            buffer,
            records,
            parts,
            refs,
            watermark,
            0,
            watermark as int,
        );
    }
}

/// The records of some leaves, leaf after leaf; nothing where one of them
/// cannot be read.
pub open spec fn collected(store: StoreView, group: Seq<ChildView>) -> Option<Seq<FragmentView>>
    decreases group.len(),
{
    if group.len() == 0 {
        Some(Seq::empty())
    } else {
        match collected(store, group.drop_last()) {
            None => None,
            Some(records) => match store::leaf_read(store, group.last()) {
                Err(_) => None,
                Ok(more) => Some(records + more),
            },
        }
    }
}

/// The smallest watermark of some leaves.
pub open spec fn lowest_mark(group: Seq<ChildView>) -> u64
    decreases group.len(),
{
    if group.len() == 0 {
        0
    } else if group.len() == 1 {
        group[0].materialized_through_action_sequence
    } else {
        let rest = lowest_mark(group.drop_last());
        if group.last().materialized_through_action_sequence < rest {
            group.last().materialized_through_action_sequence
        } else {
            rest
        }
    }
}

proof fn lemma_lowest_mark(group: Seq<ChildView>)
    ensures
        forall|i: int|
            0 <= i < group.len() ==> lowest_mark(group) <= (
            #[trigger] group[i]).materialized_through_action_sequence,
    decreases group.len(),
{
    if group.len() > 1 {
        let rest = group.drop_last();
        lemma_lowest_mark(rest);
        assert forall|i: int| 0 <= i < group.len() implies lowest_mark(group) <= (
        #[trigger] group[i]).materialized_through_action_sequence by {
            if i < rest.len() {
                assert(rest[i] == group[i]);
            }
        }
    }
}

/// What the collected records of leaves are.
proof fn lemma_collected(w: World, store: StoreView, group: Seq<ChildView>)
    requires
        world::agrees(w, store),
        world::sane(w, group),
        collected(store, group) is Some,
        forall|i: int| 0 <= i < group.len() ==> (#[trigger] group[i]).height == 0,
    ensures
        ({
            let records = collected(store, group)->0;
            &&& store::ascending(records)
            &&& forall|key: u64| #[trigger]
                world::found(records, key) == world::base_at(w, group, key)
        }),
    decreases group.len(),
{
    let records = collected(store, group)->0;
    if group.len() > 0 {
        let rest = group.drop_last();
        let c = group.last();
        let none = Seq::<ChildView>::empty();
        assert(group =~= none + rest + seq![c]);
        if rest.len() > 0 {
            levels::lemma_middle(w, none, rest, seq![c]);
        }
        assert forall|i: int| 0 <= i < rest.len() implies (#[trigger] rest[i]).height == 0 by {
            assert(rest[i] == group[i]);
        }
        lemma_collected(w, store, rest);
        lemma_reads_leaf(w, store, c);
        lemma_leaf_shape(store, c);
        let first = collected(store, rest)->0;
        let more = store::leaf_read(store, c)->Ok_0;
        let n = rest.len() as int;
        assert(group[n] == c);
        // Each key is held by the child it is routed to alone.
        assert forall|key: u64| #[trigger] world::found(more, key) is Some implies node::route(
            group,
            key,
        ) == n by {
            if node::route(group, key) != n {
                assert(w.rec(group[n], key) is None);
            }
        }
        assert forall|key: u64| #[trigger] world::found(first, key) is Some implies node::route(
            group,
            key,
        ) < n && world::base_at(w, group, key) == world::found(first, key) by {
            node::lemma_route(group, key);
            node::lemma_route(rest, key);
            let r = node::route(rest, key);
            assert(world::base_at(w, rest, key) is Some);
            assert(rest[r] == group[r]);
            if node::route(group, key) != r {
                assert(w.rec(group[r], key) is None);
            }
        }
        assert(store::ascending(records)) by {
            assert forall|i: int, j: int| 0 <= i < j < records.len() implies (
            #[trigger] records[i]).id < (#[trigger] records[j]).id by {
                if j < first.len() {
                    assert(records[i] == first[i] && records[j] == first[j]);
                } else if i >= first.len() {
                    assert(records[i] == more[i - first.len()] && records[j] == more[j
                        - first.len()]);
                } else {
                    assert(records[i] == first[i] && records[j] == more[j - first.len()]);
                    let a = records[i].id;
                    leaves::lemma_found(first, i);
                    assert(world::found(first, a) is Some);
                    node::lemma_route(group, a);
                    if records[j].id <= a {
                        assert(more[j - first.len()].id >= c.min_key);
                        assert(group[n].min_key <= a);
                    }
                }
            }
        }
        assert forall|key: u64| #[trigger] world::found(records, key) == world::base_at(
            w,
            group,
            key,
        ) by {
            node::lemma_route(group, key);
            let r = node::route(group, key);
            if world::found(records, key) is Some {
                let i = leaves::lemma_found_some(records, key);
                leaves::lemma_found(records, i);
                if i < first.len() {
                    assert(records[i] == first[i]);
                    leaves::lemma_found(first, i);
                    assert(world::found(first, key) is Some);
                } else {
                    assert(records[i] == more[i - first.len()]);
                    leaves::lemma_found(more, i - first.len());
                    assert(world::found(more, key) is Some);
                }
            } else if world::base_at(w, group, key) is Some {
                if r == n {
                    assert(world::found(more, key) is Some);
                    let i = leaves::lemma_found_some(more, key);
                    assert(records[first.len() + i] == more[i]);
                } else {
                    assert(rest[r] == group[r]);
                    assert(world::fences(rest));
                    if r + 1 < n {
                        assert(rest[r + 1] == group[r + 1]);
                    }
                    world::lemma_route_is(rest, key, r);
                    assert(world::found(first, key) == world::base_at(w, rest, key));
                    let i = leaves::lemma_found_some(first, key);
                    assert(records[i] == first[i]);
                }
            }
        }
    } else {
        assert forall|key: u64| #[trigger] world::found(records, key) == world::base_at(
            w,
            group,
            key,
        ) by {}
    }
}

/// Writing the records of some leaves as leaves that claim no more than any
/// of them did keeps what they hold.
pub proof fn step_coalesce(
    before: StoreView,
    after: StoreView,
    group: Seq<ChildView>,
    parts: Seq<(int, int)>,
    refs: Seq<ChildView>,
    lower: u64,
)
    requires
        group.len() > 0,
        forall|i: int| 0 <= i < group.len() ==> (#[trigger] group[i]).height == 0,
        collected(before, group) is Some,
        ({
            let records = leaves::by_id(collected(before, group)->0);
            &&& store::wrote_leaves(before, after, refs, records, parts, lowest_mark(group))
            &&& store::tiles(parts, 0, records.len() as int)
            &&& records.len() > 0 ==> lower <= records[0].id
        }),
    ensures
        world::faithful(
            before,
            after,
            group,
            levels::no_mutations(),
            node::fenced(refs, lower),
            levels::no_mutations(),
            -1,
        ),
{
    reveal(world::faithful);
    let none = levels::no_mutations();
    let watermark = lowest_mark(group);
    let records = leaves::by_id(collected(before, group)->0);
    assert forall|w: World|
        #![trigger world::agrees(w, after)]
        world::agrees(w, after) && world::all_sound(w, before) && world::sound(
            w,
            group,
            none,
        ) implies world::all_sound(w, after) && world::refines(
        w,
        group,
        none,
        node::fenced(refs, lower),
        none,
        -1,
    ) by {
        world::lemma_agrees_before(w, before, after);
        lemma_collected(w, before, group);
        leaves::lemma_by_id_fixed(collected(before, group)->0);
        lemma_wrote_leaves(w, before, after, refs, records, parts, watermark);
        lemma_lowest_mark(group);
        assert forall|key: u64| #[trigger]
            world::cell(w, group, none, key) == Ok::<Option<FragmentView>, Error>(
                world::found(records, key),
            ) by {
            levels::lemma_bare_cell(w, group, key);
            assert(world::found(records, key) == world::base_at(w, group, key));
        }
        assert forall|bound: nat|
            bound >= -1 && #[trigger] world::capped(w, group, bound) implies watermark
            <= bound by {
            assert(w.peak_of(group[0]) <= bound);
        }
        assert forall|key: u64| watermark <= #[trigger] world::mark_at(w, group, key) by {
            node::lemma_route(group, key);
            let r = node::route(group, key);
            assert(group[r].height == 0);
        }
        leaves::lemma_leaf_level(w, group, none, records, parts, refs, watermark, lower, -1);
    }
}

} // verus!
