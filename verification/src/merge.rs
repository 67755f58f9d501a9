//! Keeping occupancy: coalescing small neighbours and fencing the left edge.

use vstd::prelude::*;

use crate::error::{Error, Reason};
use crate::leaves;
use crate::levels;
use crate::lifting;
use crate::node;
use crate::node::{FragmentMetadataTreeConfig, InternalNode};
use crate::pb::{clone_children, clone_mutations, ChildView, FragmentMetadataChild, FragmentMetadataMutation, MutationView};
use crate::record::{Fragment, FragmentView};
use crate::split;
use crate::steps;
use crate::store;
use crate::store::{Halt, Names, NodeStore, Stop, StoreView};
use crate::views;
use crate::wire;
use crate::world;

verus! {

broadcast use {crate::store::group_names, crate::views::group_views};

/// Accumulated write work over one commit.
#[derive(Debug, Clone, Copy)]
pub struct WriteAcc {
    pub io_bytes: u64,
    pub flushes: u64,
    pub splits: u64,
    pub merges: u64,
    /// Actions applied at leaves this commit.
    pub materialized: u64,
    /// Actions removed by same-key squashing this commit.
    pub squashed: u64,
    /// Deepest tree level at which a flush occurred this commit (0 = root
    /// only). Values above 0 mean an interior buffer drained.
    pub max_flush_depth: u32,
}

/// A sum, or the largest number where it is larger.
pub open spec fn summed(a: u64, b: u64) -> u64 {
    if a + b > u64::MAX {
        u64::MAX
    } else {
        (a + b) as u64
    }
}

impl WriteAcc {
    pub open spec fn nothing() -> WriteAcc {
        WriteAcc {
            io_bytes: 0,
            flushes: 0,
            splits: 0,
            merges: 0,
            materialized: 0,
            squashed: 0,
            max_flush_depth: 0,
        }
    }

    /// The work of two rewrites.
    pub open spec fn with(self, o: WriteAcc) -> WriteAcc {
        WriteAcc {
            io_bytes: summed(self.io_bytes, o.io_bytes),
            flushes: summed(self.flushes, o.flushes),
            splits: summed(self.splits, o.splits),
            merges: summed(self.merges, o.merges),
            materialized: summed(self.materialized, o.materialized),
            squashed: summed(self.squashed, o.squashed),
            max_flush_depth: if self.max_flush_depth >= o.max_flush_depth {
                self.max_flush_depth
            } else {
                o.max_flush_depth
            },
        }
    }

    pub fn new() -> (r: Self)
        ensures
            r == WriteAcc::nothing(),
    {
        WriteAcc {
            io_bytes: 0,
            flushes: 0,
            splits: 0,
            merges: 0,
            materialized: 0,
            squashed: 0,
            max_flush_depth: 0,
        }
    }

    pub fn add(&mut self, o: WriteAcc)
        ensures
            *final(self) == old(self).with(o),
    {
        self.io_bytes = self.io_bytes.saturating_add(o.io_bytes);
        self.flushes = self.flushes.saturating_add(o.flushes);
        self.splits = self.splits.saturating_add(o.splits);
        self.merges = self.merges.saturating_add(o.merges);
        self.materialized = self.materialized.saturating_add(o.materialized);
        self.squashed = self.squashed.saturating_add(o.squashed);
        if o.max_flush_depth > self.max_flush_depth {
            self.max_flush_depth = o.max_flush_depth;
        }
    }
}

/// What every rewriting step promises of the objects it knows.
pub open spec fn grown(before: StoreView, after: StoreView) -> bool {
    &&& after.extends(before)
    &&& before.unique() ==> after.unique()
    &&& store::drawn(before, after)
}

pub open spec fn no_children() -> Seq<ChildView> {
    Seq::empty()
}

/// The children and the buffer of an interior node, which has children.
pub open spec fn opened(store: StoreView, child: ChildView) -> Result<
    (Seq<ChildView>, Seq<MutationView>),
    Halt,
> {
    match store::node_read(store, child) {
        Err(why) => Err(store::halted(why)),
        Ok((children, buffer)) => if children.len() == 0 {
            Err(
                Halt::Fail(
                    Error::CorruptFile {
                        reason: Reason::NodeWithoutChildren { min_key: child.min_key },
                    },
                ),
            )
        } else {
            Ok((children, buffer))
        },
    }
}

/// The children and the buffers of a group of interior nodes, node after node.
pub open spec fn opened_all(store: StoreView, group: Seq<ChildView>) -> Result<
    (Seq<ChildView>, Seq<MutationView>),
    Halt,
>
    decreases group.len(),
{
    if group.len() == 0 {
        Ok((Seq::empty(), Seq::empty()))
    } else {
        match opened(store, group[0]) {
            Err(halt) => Err(halt),
            Ok((children, buffer)) => match opened_all(store, group.skip(1)) {
                Err(halt) => Err(halt),
                Ok((more, pending)) => Ok((children + more, buffer + pending)),
            },
        }
    }
}

/// The records of a group of leaves, leaf after leaf.
pub open spec fn records_of(store: StoreView, group: Seq<ChildView>) -> Result<
    Seq<FragmentView>,
    Halt,
>
    decreases group.len(),
{
    if group.len() == 0 {
        Ok(Seq::empty())
    } else {
        match store::leaf_read(store, group[0]) {
            Err(why) => Err(store::halted(why)),
            Ok(records) => match records_of(store, group.skip(1)) {
                Err(halt) => Err(halt),
                Ok(more) => Ok(records + more),
            },
        }
    }
}

/// What writing pieces as one node each gives, from one of them on: the store,
/// the references and the bytes.
#[verifier::opaque]
pub open spec fn put_pieces(
    store: StoreView,
    names: Names,
    children: Seq<Seq<ChildView>>,
    buffers: Seq<Seq<MutationView>>,
    i: int,
    refs: Seq<ChildView>,
    bytes: u64,
) -> Result<(StoreView, Seq<ChildView>, u64), Halt>
    decreases children.len() - i,
{
    if i >= children.len() {
        Ok((store, refs, bytes))
    } else {
        match store::put_node(store, names, children[i], buffers[i]) {
            Err(halt) => Err(halt),
            Ok((after, child, more)) => put_pieces(
                after,
                names,
                children,
                buffers,
                i + 1,
                refs.push(child),
                summed(bytes, more),
            ),
        }
    }
}

/// The children of each piece a level is cut in.
pub open spec fn cut_children(
    children: Seq<ChildView>,
    buffer: Seq<MutationView>,
    piece_bytes: u64,
    most: u32,
) -> Seq<Seq<ChildView>> {
    let c = split::cut(children, buffer, piece_bytes, most);
    Seq::new(c.len(), |i: int| children.subrange(split::taken(c, i), split::taken(c, i + 1)))
}

/// The buffer of each piece a level is cut in.
pub open spec fn cut_buffers(
    children: Seq<ChildView>,
    buffer: Seq<MutationView>,
    piece_bytes: u64,
    most: u32,
) -> Seq<Seq<MutationView>> {
    let c = split::cut(children, buffer, piece_bytes, most);
    Seq::new(
        c.len(),
        |i: int| split::joined(children, buffer, split::taken(c, i), split::taken(c, i + 1)),
    )
}

/// What cutting a level and writing the pieces gives.
pub open spec fn put_split(
    store: StoreView,
    names: Names,
    children: Seq<ChildView>,
    buffer: Seq<MutationView>,
    piece_bytes: u64,
    most: u32,
) -> Result<(StoreView, Seq<ChildView>, u64), Halt> {
    put_pieces(
        store,
        names,
        cut_children(children, buffer, piece_bytes, most),
        cut_buffers(children, buffer, piece_bytes, most),
        0,
        Seq::empty(),
        0,
    )
}

/// What fencing the left edge of a level gives: the fence moves down to the
/// leaf, through every node on the way.
#[verifier::opaque]
pub open spec fn edge_fenced(
    store: StoreView,
    names: Names,
    children: Seq<ChildView>,
    lower_bound: u64,
    height: nat,
) -> Result<(StoreView, Seq<ChildView>, u64), Halt>
    decreases height,
{
    if children.len() == 0 {
        Ok((store, children, 0))
    } else if height == 0 || children[0].min_key == lower_bound {
        Ok((store, node::fenced(children, lower_bound), 0))
    } else {
        match opened(store, children[0]) {
            Err(halt) => Err(halt),
            Ok((kids, buffer)) => match edge_fenced(
                store,
                names,
                kids,
                lower_bound,
                (height - 1) as nat,
            ) {
                Err(halt) => Err(halt),
                Ok((middle, fenced, more)) => match store::put_node(
                    middle,
                    names,
                    fenced,
                    buffer,
                ) {
                    Err(halt) => Err(halt),
                    Ok((after, child, bytes)) => Ok(
                        (after, children.update(0, child), summed(more, bytes)),
                    ),
                },
            },
        }
    }
}

/// What a rewrite of children gives.
pub open spec fn told(
    r: Result<(Vec<FragmentMetadataChild>, WriteAcc), Stop>,
    after: StoreView,
) -> Result<
    (StoreView, Seq<ChildView>, WriteAcc),
    Halt,
> {
    match r {
        Ok((children, acc)) => Ok((after, views::all(children@), acc)),
        Err(stop) => Err(stop.halt()),
    }
}

/// What writing references gives.
pub open spec fn told_bytes(
    r: Result<(Vec<FragmentMetadataChild>, u64), Stop>,
    after: StoreView,
) -> Result<
    (StoreView, Seq<ChildView>, u64),
    Halt,
> {
    match r {
        Ok((children, bytes)) => Ok((after, views::all(children@), bytes)),
        Err(stop) => Err(stop.halt()),
    }
}

/// What writing one node gives.
pub open spec fn told_node(
    r: Result<(FragmentMetadataChild, u64), Stop>,
    after: StoreView,
) -> Result<
    (StoreView, ChildView, u64),
    Halt,
> {
    match r {
        Ok((child, bytes)) => Ok((after, child@, bytes)),
        Err(stop) => Err(stop.halt()),
    }
}

/// Read an interior node, which has children.
pub fn read_node(store: &NodeStore, child: &FragmentMetadataChild) -> (r: Result<
    InternalNode,
    Stop,
>)
    ensures
        match r {
            Ok(node) => store::node_read(store@, child@) == Ok::<
                (Seq<ChildView>, Seq<MutationView>),
                Option<Error>,
            >((views::all(node.children@), views::all(node.buffer@))) && node.children@.len() > 0,
            Err(stop) => {
                &&& store::honest(stop, store@)
                &&& !(stop is Collapsed)
                &&& store::node_read(store@, child@) is Err || store::node_read(
                    store@,
                    child@,
                )->Ok_0.0.len() == 0
            },
        },
        opened(store@, child@) == match r {
            Ok(node) => Ok((views::all(node.children@), views::all(node.buffer@))),
            Err(stop) => Err(stop.halt()),
        },
{
    match store.read_internal(child) {
        Err(stop) => Err(stop),
        Ok(node) => {
            if node.children.is_empty() {
                return Err(
                    Stop::Fail(
                        Error::CorruptFile {
                            reason: Reason::NodeWithoutChildren { min_key: child.min_key },
                        },
                    ),
                );
            }
            Ok(node)
        },
    }
}

/// Read a group of interior nodes: their children and their buffers, node
/// after node.
pub fn gather(store: &NodeStore, group: &Vec<FragmentMetadataChild>) -> (r: Result<
    InternalNode,
    Stop,
>)
    ensures
        match r {
            Ok(node) => steps::gathered(store@, views::all(group@)) == Some(
                (views::all(node.children@), views::all(node.buffer@)),
            ) && (forall|i: int|
                0 <= i < group@.len() ==> store::node_read(
                    store@,
                    #[trigger] views::all(group@)[i],
                ) is Ok && store::node_read(store@, views::all(group@)[i])->Ok_0.0.len() > 0) && (
            group@.len() > 0 ==> node.children@.len() > 0),
            Err(stop) => store::honest(stop, store@) && !(stop is Collapsed),
        },
        opened_all(store@, views::all(group@)) == match r {
            Ok(node) => Ok((views::all(node.children@), views::all(node.buffer@))),
            Err(stop) => Err(stop.halt()),
        },
{
    let ghost all = views::all(group@);
    let mut children: Vec<FragmentMetadataChild> = Vec::new();
    let mut buffer: Vec<FragmentMetadataMutation> = Vec::new();
    let mut i: usize = 0;
    proof {
        assert(all.skip(0) =~= all);
        if let Ok((more, pending)) = opened_all(store@, all) {
            assert(Seq::<ChildView>::empty() + more =~= more);
            assert(Seq::<MutationView>::empty() + pending =~= pending);
        }
    }
    while i < group.len()
        invariant
            i <= group@.len(),
            all == views::all(group@),
            opened_all(store@, all) == match opened_all(store@, all.skip(i as int)) {
                Err(halt) => Err(halt),
                Ok((more, pending)) => Ok(
                    (views::all(children@) + more, views::all(buffer@) + pending),
                ),
            },
            steps::gathered(store@, all.take(i as int)) == Some(
                (views::all(children@), views::all(buffer@)),
            ),
            i > 0 ==> children@.len() > 0,
            forall|k: int|
                0 <= k < i ==> store::node_read(store@, #[trigger] all[k]) is Ok
                    && store::node_read(store@, all[k])->Ok_0.0.len() > 0,
        decreases group@.len() - i,
    {
        proof {
            assert(all.skip(i as int)[0] == group@[i as int]@);
            assert(all.skip(i as int).skip(1) =~= all.skip(i + 1));
        }
        match read_node(store, &group[i]) {
            Err(stop) => {
                return Err(stop);
            },
            Ok(node) => {
                let InternalNode { children: mut more, buffer: mut pending } = node;
                proof {
                    if let Ok((x, y)) = opened_all(store@, all.skip(i + 1)) {
                        let (a, b) = (views::all(children@), views::all(buffer@));
                        let (c, d) = (views::all(more@), views::all(pending@));
                        assert(a + (c + x) =~= (a + c) + x);
                        assert(b + (d + y) =~= (b + d) + y);
                    }
                    assert(all.take(i + 1).drop_last() =~= all.take(i as int));
                    assert(all.take(i + 1).last() == group@[i as int]@);
                }
                children.append(&mut more);
                buffer.append(&mut pending);
            },
        }
        i = i + 1;
    }
    proof {
        assert(all.take(all.len() as int) =~= all);
        assert(views::all(children@) + Seq::<ChildView>::empty() =~= views::all(children@));
        assert(views::all(buffer@) + Seq::<MutationView>::empty() =~= views::all(buffer@));
    }
    Ok(InternalNode { children, buffer })
}

/// Read a group of leaves, leaf after leaf.
fn collect(store: &NodeStore, group: &Vec<FragmentMetadataChild>) -> (r: Result<
    Vec<Fragment>,
    Stop,
>)
    ensures
        match r {
            Ok(records) => steps::collected(store@, views::all(group@)) == Some(
                views::all(records@),
            ),
            Err(stop) => store::honest(stop, store@) && !(stop is Collapsed),
        },
        records_of(store@, views::all(group@)) == match r {
            Ok(records) => Ok(views::all(records@)),
            Err(stop) => Err(stop.halt()),
        },
{
    let ghost all = views::all(group@);
    let mut records: Vec<Fragment> = Vec::new();
    let mut i: usize = 0;
    proof {
        assert(all.skip(0) =~= all);
        if let Ok(more) = records_of(store@, all) {
            assert(Seq::<FragmentView>::empty() + more =~= more);
        }
    }
    while i < group.len()
        invariant
            i <= group@.len(),
            all == views::all(group@),
            records_of(store@, all) == match records_of(store@, all.skip(i as int)) {
                Err(halt) => Err(halt),
                Ok(more) => Ok(views::all(records@) + more),
            },
            steps::collected(store@, all.take(i as int)) == Some(views::all(records@)),
        decreases group@.len() - i,
    {
        proof {
            assert(all.skip(i as int)[0] == group@[i as int]@);
            assert(all.skip(i as int).skip(1) =~= all.skip(i + 1));
        }
        match store.read_leaf(&group[i]) {
            Err(stop) => {
                return Err(stop);
            },
            Ok(mut more) => {
                proof {
                    if let Ok(x) = records_of(store@, all.skip(i + 1)) {
                        let (a, c) = (views::all(records@), views::all(more@));
                        assert(a + (c + x) =~= (a + c) + x);
                    }
                    assert(all.take(i + 1).drop_last() =~= all.take(i as int));
                    assert(all.take(i + 1).last() == group@[i as int]@);
                }
                records.append(&mut more);
            },
        }
        i = i + 1;
    }
    proof {
        assert(all.take(all.len() as int) =~= all);
        assert(views::all(records@) + Seq::<FragmentView>::empty() =~= views::all(records@));
    }
    Ok(records)
}

/// Write a level as one node.
pub fn write_node(
    store: &mut NodeStore,
    children: Vec<FragmentMetadataChild>,
    buffer: Vec<FragmentMetadataMutation>,
) -> (r: Result<(FragmentMetadataChild, u64), Stop>)
    ensures
        match r {
            Ok((child, bytes)) => {
                &&& steps::wrote_nodes(
                    old(store)@,
                    final(store)@,
                    seq![child@],
                    seq![views::all(children@)],
                    seq![views::all(buffer@)],
                )
                &&& store::booked(bytes, old(store)@, final(store)@)
            },
            Err(stop) => final(store)@ == old(store)@ && stop is Fail,
        },
        grown(old(store)@, final(store)@),
        forall|names: Names| #[trigger]
            names.fit(final(store)@) ==> store::put_node(
                old(store)@,
                names,
                views::all(children@),
                views::all(buffer@),
            ) == told_node(r, final(store)@),
{
    let ghost before = store@;
    let ghost kids = views::all(children@);
    let ghost pending = views::all(buffer@);
    proof {
        store::lemma_extends_self(before);
    }
    match store.write_internal(children, buffer) {
        Err(stop) => Err(stop),
        Ok(written) => {
            proof {
                let r = written.child_ref@;
                let n = store@.nodes.last();
                store::lemma_node_written(before, store@, n);
                store::lemma_drawn_node(before, store@);
                let refs = seq![r];
                assert(store@.nodes[before.nodes.len() + 0int] == n);
                assert(refs[0] == r);
                assert forall|names: Names| #[trigger] names.fit(store@) implies store::put_node(
                    before,
                    names,
                    kids,
                    pending,
                ) == Ok::<(StoreView, ChildView, u64), Halt>((store@, r, written.io_bytes)) by {
                    store::lemma_put_node(
                        before,
                        store@,
                        names,
                        kids,
                        pending,
                        r,
                        written.io_bytes,
                    );
                }
            }
            Ok((written.child_ref, written.io_bytes))
        },
    }
}

/// The children of some pieces.
pub open spec fn piece_children(
    pieces: Seq<(Vec<FragmentMetadataChild>, Vec<FragmentMetadataMutation>)>,
) -> Seq<Seq<ChildView>> {
    Seq::new(pieces.len(), |i: int| views::all(pieces[i].0@))
}

/// The buffers of some pieces.
pub open spec fn piece_buffers(
    pieces: Seq<(Vec<FragmentMetadataChild>, Vec<FragmentMetadataMutation>)>,
) -> Seq<Seq<MutationView>> {
    Seq::new(pieces.len(), |i: int| views::all(pieces[i].1@))
}

/// Write pieces as one node each.
pub fn write_pieces(
    store: &mut NodeStore,
    pieces: Vec<(Vec<FragmentMetadataChild>, Vec<FragmentMetadataMutation>)>,
) -> (r: Result<(Vec<FragmentMetadataChild>, u64), Stop>)
    ensures
        match r {
            Ok((refs, bytes)) => {
                &&& steps::wrote_nodes(
                    old(store)@,
                    final(store)@,
                    views::all(refs@),
                    piece_children(pieces@),
                    piece_buffers(pieces@),
                )
                &&& store::booked(bytes, old(store)@, final(store)@)
            },
            Err(stop) => stop is Fail,
        },
        grown(old(store)@, final(store)@),
        forall|names: Names| #[trigger]
            names.fit(final(store)@) ==> put_pieces(
                old(store)@,
                names,
                piece_children(pieces@),
                piece_buffers(pieces@),
                0,
                no_children(),
                0,
            ) == told_bytes(r, final(store)@),
{
    let ghost before = store@;
    let ghost kids = piece_children(pieces@);
    let ghost pending = piece_buffers(pieces@);
    let ghost known = before.nodes.len() as int;
    proof {
        store::lemma_extends_self(before);
    }
    let mut refs: Vec<FragmentMetadataChild> = Vec::new();
    let mut bytes: u64 = 0;
    assert(views::all(refs@) =~= no_children());
    for piece in iter: pieces
        invariant
            forall|names: Names| #[trigger]
                names.fit(store@) ==> put_pieces(
                    before,
                    names,
                    kids,
                    pending,
                    0,
                    no_children(),
                    0,
                ) == put_pieces(
                    store@,
                    names,
                    kids,
                    pending,
                    iter.index() as int,
                    views::all(refs@),
                    bytes,
                ),
            before == old(store)@,
            known == before.nodes.len(),
            iter.seq() == pieces@,
            kids == piece_children(pieces@),
            pending == piece_buffers(pieces@),
            steps::wrote_nodes(
                before,
                store@,
                views::all(refs@),
                kids.take(iter.index() as int),
                pending.take(iter.index() as int),
            ),
            store::booked(bytes, before, store@),
            grown(before, store@),
    {
        let ghost n = iter.index() as int;
        let ghost middle = store@;
        let ghost had = views::all(refs@);
        let (children, buffer) = piece;
        assert(kids[n] == views::all(children@) && pending[n] == views::all(buffer@));
        match write_node(store, children, buffer) {
            Err(stop) => {
                proof {
                    store::lemma_extends_transitive(before, middle, store@);
                }
                proof {
                    assert forall|names: Names| #[trigger] names.fit(store@) implies put_pieces(
                        before,
                        names,
                        kids,
                        pending,
                        0,
                        no_children(),
                        0,
                    )
                        == Err::<(StoreView, Seq<ChildView>, u64), Halt>(stop.halt()) by {
                        reveal(put_pieces);
                    }
                }
                return Err(stop);
            },
            Ok((child, more)) => {
                refs.push(child);
                proof {
                    let now = views::all(refs@);
                    store::lemma_extends_transitive(before, middle, store@);
                    store::lemma_booked_join(bytes, more, before, middle, store@);
                    assert forall|i: int| 0 <= i < now.len() implies {
                        let node = store@.nodes[known + i];
                        let part = kids.take(n + 1)[i];
                        &&& node.loc == (#[trigger] now[i]).loc()
                        &&& node.children == part
                        &&& node.buffer == pending.take(n + 1)[i]
                        &&& now[i].base_id is None
                        &&& now[i].num_children == part.len() as u32
                        &&& part.len() > 0 ==> now[i].min_key == part[0].min_key && now[i].height
                            == node::max_height(part) + 1
                    } by {
                        if i < n {
                            assert(now[i] == had[i]);
                            assert(store@.nodes.take(middle.nodes.len() as int)[known + i]
                                == middle.nodes[known + i]);
                            assert(kids.take(n + 1)[i] == kids.take(n)[i]);
                            assert(pending.take(n + 1)[i] == pending.take(n)[i]);
                        } else {
                            let one = seq![child@];
                            assert(one[0] == now[i]);
                            assert(store@.nodes[middle.nodes.len() + 0int].loc == one[0].loc());
                        }
                    }
                }
                proof {
                    assert forall|names: Names| #[trigger] names.fit(store@) implies put_pieces(
                        before,
                        names,
                        kids,
                        pending,
                        0,
                        no_children(),
                        0,
                    ) == put_pieces(
                        store@,
                        names,
                        kids,
                        pending,
                        n + 1,
                        views::all(refs@),
                        summed(bytes, more),
                    ) by {
                        reveal(put_pieces);
                        assert(views::all(refs@) == had.push(child@));
                    }
                }
                bytes = bytes.saturating_add(more);
            },
        }
    }
    assert(kids.take(kids.len() as int) =~= kids);
    assert(pending.take(pending.len() as int) =~= pending);
    proof {
        assert forall|names: Names| #[trigger] names.fit(store@) implies put_pieces(
            before,
            names,
            kids,
            pending,
            0,
            no_children(),
            0,
        ) == Ok::<(StoreView, Seq<ChildView>, u64), Halt>(
            (store@, views::all(refs@), bytes),
        ) by {
            reveal(put_pieces);
        }
    }
    Ok((refs, bytes))
}

/// Cut a level in pieces and write each as a node.
pub(crate) fn write_split(
    store: &mut NodeStore,
    pieces: Vec<(Vec<FragmentMetadataChild>, Vec<FragmentMetadataMutation>)>,
    Ghost(children): Ghost<Seq<ChildView>>,
    Ghost(buffer): Ghost<Seq<MutationView>>,
    Ghost(piece_bytes): Ghost<u64>,
    Ghost(most): Ghost<u32>,
    Ghost(height): Ghost<int>,
    Ghost(lower): Ghost<int>,
) -> (r: Result<(Vec<FragmentMetadataChild>, u64), Stop>)
    requires
        children.len() > 0,
        steps::shaped(children, height, lower),
        height >= 0,
        ({
            let c = split::cut(children, buffer, piece_bytes, most);
            &&& pieces@.len() == c.len()
            &&& forall|i: int|
                0 <= i < pieces@.len() ==> {
                    &&& views::all((#[trigger] pieces@[i]).0@) == children.subrange(
                        split::taken(c, i),
                        split::taken(c, i + 1),
                    )
                    &&& views::all(pieces@[i].1@) == split::joined(
                        children,
                        buffer,
                        split::taken(c, i),
                        split::taken(c, i + 1),
                    )
                }
        }),
    ensures
        match r {
            Ok((refs, bytes)) => {
                let out = views::all(refs@);
                &&& world::faithful(
                    old(store)@,
                    final(store)@,
                    children,
                    buffer,
                    out,
                    levels::no_mutations(),
                    -1,
                )
                &&& final(store)@.leaves == old(store)@.leaves
                &&& out.len() == pieces@.len()
                &&& out.len() > 0
                &&& steps::shaped(out, height + 1, lower)
                &&& out[0].min_key == children[0].min_key
                &&& store::booked(bytes, old(store)@, final(store)@)
                &&& forall|i: int|
                    0 <= i < out.len() ==> (#[trigger] out[i]).num_children
                        == pieces@[i].0@.len() as u32
            },
            Err(stop) => stop is Fail,
        },
        grown(old(store)@, final(store)@),
        forall|names: Names| #[trigger]
            names.fit(final(store)@) ==> put_split(
                old(store)@,
                names,
                children,
                buffer,
                piece_bytes,
                most,
            ) == told_bytes(r, final(store)@),
{
    let ghost before = store@;
    let ghost kids = piece_children(pieces@);
    let ghost pending = piece_buffers(pieces@);
    let ghost given = pieces@;
    proof {
        let c = split::cut(children, buffer, piece_bytes, most);
        assert forall|i: int| 0 <= i < c.len() implies kids[i] == #[trigger] cut_children(
            children,
            buffer,
            piece_bytes,
            most,
        )[i] && pending[i] == cut_buffers(children, buffer, piece_bytes, most)[i] by {
            assert(views::all(given[i].0@) == kids[i]);
        }
        assert(kids =~= cut_children(children, buffer, piece_bytes, most));
        assert(pending =~= cut_buffers(children, buffer, piece_bytes, most));
    }
    let (refs, bytes) = match write_pieces(store, pieces) {
        Err(stop) => {
            return Err(stop);
        },
        Ok(done) => done,
    };
    proof {
        let c = split::cut(children, buffer, piece_bytes, most);
        let out = views::all(refs@);
        split::lemma_cut(children, buffer, piece_bytes, most);
        assert(lifting::whole(children, c));
        assert forall|j: int| 0 <= j < c.len() implies #[trigger] pending[j] == split::joined(
            children,
            buffer,
            split::taken(c, j),
            split::taken(c, j + 1),
        ) by {
            assert(views::all(given[j].1@) == pending[j]);
        }
        steps::lemma_dealt(children, buffer, c, pending);
        assert forall|j: int| 0 <= j < c.len() implies #[trigger] kids[j] == lifting::piece(
            children,
            c,
            j,
        ) by {
            assert(views::all(given[j].0@) == kids[j]);
        }
        steps::step_lift(before, store@, children, buffer, c, kids, pending, out, height);
        assert forall|j: int| 0 <= j < out.len() implies (#[trigger] out[j]).height == height + 1
            && out[j].min_key >= lower && out[j].num_children == given[j].0@.len() as u32 by {
            let i = choose|i: int|
                0 <= i < children.len() && out[j].min_key == (#[trigger] children[i]).min_key;
            assert(children[i].min_key >= lower);
            assert(kids[j] == views::all(given[j].0@));
            assert(store@.nodes[before.nodes.len() + j].loc == out[j].loc());
        }
    }
    Ok((refs, bytes))
}

/// Write a level as one node, which keeps what it holds.
pub(crate) fn write_level(
    store: &mut NodeStore,
    children: Vec<FragmentMetadataChild>,
    buffer: Vec<FragmentMetadataMutation>,
    Ghost(height): Ghost<int>,
    Ghost(lower): Ghost<int>,
) -> (r: Result<(FragmentMetadataChild, u64), Stop>)
    requires
        children@.len() > 0,
        steps::shaped(views::all(children@), height, lower),
        height >= 0,
    ensures
        match r {
            Ok((child, bytes)) => {
                &&& world::faithful(
                    old(store)@,
                    final(store)@,
                    views::all(children@),
                    views::all(buffer@),
                    seq![child@],
                    levels::no_mutations(),
                    -1,
                )
                &&& child@.height == height + 1
                &&& child@.min_key == children@[0].min_key
                &&& child@.num_children == children@.len() as u32
                &&& steps::shaped(seq![child@], height + 1, lower)
                &&& store::booked(bytes, old(store)@, final(store)@)
            },
            Err(stop) => final(store)@ == old(store)@ && stop is Fail,
        },
        grown(old(store)@, final(store)@),
        forall|names: Names| #[trigger]
            names.fit(final(store)@) ==> store::put_node(
                old(store)@,
                names,
                views::all(children@),
                views::all(buffer@),
            ) == told_node(r, final(store)@),
{
    let ghost before = store@;
    let ghost kids = views::all(children@);
    let ghost pending = views::all(buffer@);
    assert(kids[0] == children@[0]@);
    let (child, bytes) = match write_node(store, children, buffer) {
        Err(stop) => {
            return Err(stop);
        },
        Ok(done) => done,
    };
    proof {
        let refs = seq![child@];
        assert(refs[0] == child@);
        assert(store@.nodes[before.nodes.len() + 0int].loc == refs[0].loc());
        steps::step_write(before, store@, kids, pending, child@, height);
        assert(kids[0].min_key >= lower);
    }
    Ok((child, bytes))
}

/// Fence `children` at `lower_bound`. A drain that empties leading children
/// lowers the first survivor's fence. A leaf may start below its first key,
/// but an interior node stores the fence on its own first child, so the left
/// edge is rewritten down to the leaf.
#[verifier::rlimit(60)]
pub(crate) fn fence_left_edge(
    store: &mut NodeStore,
    children: Vec<FragmentMetadataChild>,
    lower_bound: u64,
    Ghost(height): Ghost<int>,
) -> (r: Result<(Vec<FragmentMetadataChild>, u64), Stop>)
    requires
        steps::shaped(views::all(children@), height, lower_bound as int),
        height >= 0,
    ensures
        match r {
            Ok((fenced, bytes)) => {
                let given = views::all(children@);
                let out = views::all(fenced@);
                &&& world::faithful(
                    old(store)@,
                    final(store)@,
                    given,
                    levels::no_mutations(),
                    out,
                    levels::no_mutations(),
                    -1,
                )
                &&& out.len() == given.len()
                &&& steps::shaped(out, height, lower_bound as int)
                &&& out.len() > 0 ==> out[0].min_key == lower_bound
                &&& forall|i: int| 0 < i < out.len() ==> #[trigger] out[i] == given[i]
                &&& height == 0 ==> out == node::fenced(given, lower_bound)
                &&& store::booked(bytes, old(store)@, final(store)@)
            },
            Err(stop) => store::honest(stop, old(store)@) && !(stop is Collapsed),
        },
        grown(old(store)@, final(store)@),
        forall|names: Names| #[trigger]
            names.fit(final(store)@) ==> edge_fenced(
                old(store)@,
                names,
                views::all(children@),
                lower_bound,
                height as nat,
            ) == told_bytes(r, final(store)@),
    decreases height,
{
    let ghost before = store@;
    let ghost given = views::all(children@);
    let ghost none = levels::no_mutations();
    let mut children = children;
    proof {
        store::lemma_extends_self(before);
    }
    if children.is_empty() {
        proof {
            world::lemma_faithful_self(before, given, none);
        }
        proof {
            assert forall|names: Names| #[trigger] names.fit(store@) implies edge_fenced(
                before,
                names,
                given,
                lower_bound,
                height as nat,
            )
                == Ok::<(StoreView, Seq<ChildView>, u64), Halt>(
                    (store@, views::all(children@), 0u64),
                ) by {
                reveal(edge_fenced);
            }
        }
        return Ok((children, 0));
    }
    assert(given[0] == children@[0]@);
    if children[0].height == 0 || children[0].min_key == lower_bound {
        node::fence(&mut children, lower_bound);
        proof {
            steps::step_refence(before, given, none, lower_bound);
            let out = views::all(children@);
            assert forall|i: int| 0 <= i < out.len() implies (#[trigger] out[i]).height == height
                && out[i].min_key >= lower_bound && (height == 0 ==> out[i].num_keys > 0) by {
                assert(given[i].height == height);
            }
            if height > 0 {
                assert(out =~= given);
            }
        }
        proof {
            assert forall|names: Names| #[trigger] names.fit(store@) implies edge_fenced(
                before,
                names,
                given,
                lower_bound,
                height as nat,
            )
                == Ok::<(StoreView, Seq<ChildView>, u64), Halt>(
                    (store@, views::all(children@), 0u64),
                ) by {
                reveal(edge_fenced);
            }
        }
        return Ok((children, 0));
    }
    let node = match read_node(store, &children[0]) {
        Err(stop) => {
            proof {
                assert forall|names: Names| #[trigger] names.fit(store@) implies edge_fenced(
                    before,
                    names,
                    given,
                    lower_bound,
                    height as nat,
                )
                    == Err::<(StoreView, Seq<ChildView>, u64), Halt>(stop.halt()) by {
                    reveal(edge_fenced);
                }
            }
            return Err(stop);
        },
        Ok(node) => node,
    };
    let InternalNode { children: grandchildren, buffer } = node;
    let ghost first = given[0];
    let ghost kids = views::all(grandchildren@);
    let ghost pending = views::all(buffer@);
    proof {
        steps::lemma_node_shape(before, first);
        assert forall|i: int| 0 <= i < kids.len() implies (#[trigger] kids[i]).height == height - 1
            && kids[i].min_key >= lower_bound && (height - 1 == 0 ==> kids[i].num_keys > 0) by {
            assert(kids[i].min_key >= first.min_key);
        }
    }
    let (fenced, more) = match fence_left_edge(
        store,
        grandchildren,
        lower_bound,
        Ghost(height - 1),
    ) {
        Err(stop) => {
            proof {
                assert forall|names: Names| #[trigger] names.fit(store@) implies edge_fenced(
                    before,
                    names,
                    given,
                    lower_bound,
                    height as nat,
                )
                    == Err::<(StoreView, Seq<ChildView>, u64), Halt>(stop.halt()) by {
                    reveal(edge_fenced);
                }
            }
            return Err(stop);
        },
        Ok(done) => done,
    };
    let ghost middle = store@;
    let ghost kids2 = views::all(fenced@);
    let (written, bytes) = match write_level(
        store,
        fenced,
        buffer,
        Ghost(height - 1),
        Ghost(lower_bound as int),
    ) {
        Err(stop) => {
            proof {
                assert forall|names: Names| #[trigger] names.fit(store@) implies edge_fenced(
                    before,
                    names,
                    given,
                    lower_bound,
                    height as nat,
                )
                    == Err::<(StoreView, Seq<ChildView>, u64), Halt>(stop.halt()) by {
                    reveal(edge_fenced);
                }
            }
            return Err(stop);
        },
        Ok(done) => done,
    };
    proof {
        let after = store@;
        let group = seq![first];
        let x = no_children();
        let y = given.skip(1);
        // The node stands for its children and buffer.
        assert(steps::gathered(before, group) == Some((kids, pending))) by {
            reveal_with_fuel(steps::gathered, 2);
            assert(group.drop_last() =~= no_children());
            assert(group.last() == first);
            assert(no_children() + kids =~= kids);
            assert(Seq::<MutationView>::empty() + pending =~= pending);
        }
        assert(pending + none =~= pending);
        steps::step_unfold(before, group, none, pending);
        // Its children with a lowered fence, under its buffer.
        steps::step_splice(before, middle, x, kids, x, pending, kids2);
        assert(x + kids + x =~= kids);
        assert(x + kids2 + x =~= kids2);
        world::lemma_faithful_transitive(
            before,
            before,
            middle,
            group,
            none,
            kids,
            pending,
            kids2,
            pending,
            -1,
            -1,
        );
        store::lemma_extends_transitive(before, middle, after);
        world::lemma_faithful_transitive(
            before,
            middle,
            after,
            group,
            none,
            kids2,
            pending,
            seq![written@],
            none,
            -1,
            -1,
        );
        // In place of the node.
        let s2 = seq![written@];
        assert(s2[0] == written@);
        assert(kids2[0].min_key == lower_bound);
        assert(fenced@[0]@ == kids2[0]);
        steps::step_splice(before, after, x, group, y, none, s2);
        assert(x + group + y =~= given);
        assert(x + s2 + y =~= given.update(0, written@));
        store::lemma_booked_join(more, bytes, before, middle, after);
    }
    children.set(0, written);
    proof {
        let out = views::all(children@);
        assert(out =~= given.update(0, written@));
        assert forall|i: int| 0 <= i < out.len() implies (#[trigger] out[i]).height == height
            && out[i].min_key >= lower_bound && (height == 0 ==> out[i].num_keys > 0) by {
            if i > 0 {
                assert(out[i] == given[i]);
            }
        }
    }
    proof {
        assert forall|names: Names| #[trigger] names.fit(store@) implies edge_fenced(
            before,
            names,
            given,
            lower_bound,
            height as nat,
        )
            == Ok::<(StoreView, Seq<ChildView>, u64), Halt>(
                (store@, views::all(children@), summed(more, bytes)),
            ) by {
            reveal(edge_fenced);
        }
    }
    Ok((children, more.saturating_add(bytes)))
}

// Coalescing.

/// Whether one more child still fits a group.
pub open spec fn fits(
    config: FragmentMetadataTreeConfig,
    leaf: bool,
    bytes: int,
    fan: int,
    c: ChildView,
) -> bool {
    if leaf {
        bytes + c.object_size <= config.max_leaf_bytes * 3 / 5
    } else {
        &&& fan + c.num_children <= config.max_children_per_node
        &&& bytes + c.object_size <= config.max_node_bytes * 3 / 5
    }
}

/// Where a group ends that holds the children up to a position.
pub open spec fn group_end(
    children: Seq<ChildView>,
    config: FragmentMetadataTreeConfig,
    leaf: bool,
    bytes: int,
    fan: int,
    j: int,
) -> int
    decreases children.len() - j,
{
    if 0 <= j < children.len() && fits(config, leaf, bytes, fan, children[j]) {
        group_end(
            children,
            config,
            leaf,
            bytes + children[j].object_size,
            fan + children[j].num_children,
            j + 1,
        )
    } else {
        j
    }
}

/// Where the group that starts at a position ends: behind the child itself
/// where it is not small.
pub open spec fn run_end(
    children: Seq<ChildView>,
    config: FragmentMetadataTreeConfig,
    i: int,
) -> int {
    if node::underflows(children[i], config) {
        group_end(
            children,
            config,
            children[i].height == 0,
            children[i].object_size as int,
            children[i].num_children as int,
            i + 1,
        )
    } else {
        i + 1
    }
}

/// Whether no interior node among children has a single child, unless it is
/// the only one.
pub open spec fn populous(children: Seq<ChildView>) -> bool {
    children.len() <= 1 || forall|i: int|
        0 <= i < children.len() ==> (#[trigger] children[i]).height == 0
            || children[i].num_children != 1
}

/// What joining an adjacent group of children gives. Leaves are written anew
/// from their records; interior nodes become one, whose children are merged
/// first.
#[verifier::opaque]
pub open spec fn coalesced(
    store: StoreView,
    names: Names,
    group: Seq<ChildView>,
    config: FragmentMetadataTreeConfig,
    leaf: bool,
    below: spec_fn(StoreView, Seq<ChildView>) -> Result<
        (StoreView, Seq<ChildView>, WriteAcc),
        Halt,
    >,
) -> Result<(StoreView, Seq<ChildView>, WriteAcc), Halt> {
    if leaf {
        match records_of(store, group) {
            Err(halt) => Err(halt),
            Ok(records) => match store::put_leaves(
                store,
                names,
                leaves::by_id(records),
                steps::lowest_mark(group),
                config,
            ) {
                Err(halt) => Err(halt),
                Ok((after, refs)) => Ok(
                    (
                        after,
                        refs,
                        WriteAcc {
                            io_bytes: wire::capped(store::ref_bytes(refs)),
                            ..WriteAcc::nothing()
                        },
                    ),
                ),
            },
        }
    } else {
        match opened_all(store, group) {
            Err(halt) => Err(halt),
            Ok((children, buffer)) => match below(store, children) {
                Err(halt) => Err(halt),
                Ok((middle, repaired, acc)) => match store::put_node(
                    middle,
                    names,
                    repaired,
                    buffer,
                ) {
                    Err(halt) => Err(halt),
                    Ok((after, child, bytes)) => Ok(
                        (
                            after,
                            seq![child],
                            WriteAcc { io_bytes: summed(acc.io_bytes, bytes), ..acc },
                        ),
                    ),
                },
            },
        }
    }
}

/// What coalescing the groups from one of them on gives, behind those that are
/// done: a child that is a group of its own stays, another group is joined,
/// fenced where it started, and counts as one merge.
#[verifier::opaque]
pub open spec fn runs_coalesced(
    store: StoreView,
    names: Names,
    children: Seq<ChildView>,
    config: FragmentMetadataTreeConfig,
    leaf: bool,
    below: spec_fn(StoreView, Seq<ChildView>) -> Result<
        (StoreView, Seq<ChildView>, WriteAcc),
        Halt,
    >,
    i: int,
    out: Seq<ChildView>,
    acc: WriteAcc,
) -> Result<(StoreView, Seq<ChildView>, WriteAcc), Halt>
    decreases children.len() - i,
{
    let end = run_end(children, config, i);
    if i >= children.len() || end <= i || end > children.len() {
        Ok((store, out, acc))
    } else if end == i + 1 {
        runs_coalesced(
            store,
            names,
            children,
            config,
            leaf,
            below,
            end,
            out + children.subrange(i, end),
            acc,
        )
    } else {
        match coalesced(store, names, children.subrange(i, end), config, leaf, below) {
            Err(halt) => Err(halt),
            Ok((after, joined, more)) => if joined[0].min_key < children[i].min_key {
                Err(
                    Halt::Fail(
                        Error::CorruptFile {
                            reason: Reason::LeafFence {
                                fence: children[i].min_key,
                                first: joined[0].min_key,
                            },
                        },
                    ),
                )
            } else {
                let work = acc.with(more);
                runs_coalesced(
                    after,
                    names,
                    children,
                    config,
                    leaf,
                    below,
                    end,
                    out + node::fenced(joined, children[i].min_key),
                    WriteAcc { merges: summed(work.merges, 1), ..work },
                )
            },
        }
    }
}

/// Whether every piece of a level that is cut has at least two children.
pub open spec fn pairs_up(
    children: Seq<ChildView>,
    buffer: Seq<MutationView>,
    piece_bytes: u64,
    most: u32,
) -> bool {
    let pieces = cut_children(children, buffer, piece_bytes, most);
    forall|i: int| 0 <= i < pieces.len() ==> (#[trigger] pieces[i]).len() >= 2
}

/// The children and the buffers of two neighbours in one level, which is
/// merged and fenced where the first one starts.
#[verifier::opaque]
pub open spec fn joined_level(
    store: StoreView,
    names: Names,
    pair: Seq<ChildView>,
    below: spec_fn(StoreView, Seq<ChildView>) -> Result<
        (StoreView, Seq<ChildView>, WriteAcc),
        Halt,
    >,
) -> Result<(StoreView, Seq<ChildView>, Seq<MutationView>, WriteAcc), Halt> {
    match opened_all(store, pair) {
        Err(halt) => Err(halt),
        Ok((children, buffer)) => match below(store, children) {
            Err(halt) => Err(halt),
            Ok((middle, repaired, acc)) => Ok(
                (middle, node::fenced(repaired, pair[0].min_key), buffer, acc),
            ),
        },
    }
}

/// What joining two neighbours gives, one of which has a single child: pieces
/// where the joined node overflows and no piece gets a single child, else one
/// node, which counts as a merge.
#[verifier::opaque]
pub open spec fn rebalanced(
    store: StoreView,
    names: Names,
    pair: Seq<ChildView>,
    config: FragmentMetadataTreeConfig,
    below: spec_fn(StoreView, Seq<ChildView>) -> Result<
        (StoreView, Seq<ChildView>, WriteAcc),
        Halt,
    >,
) -> Result<(StoreView, Seq<ChildView>, WriteAcc, bool), Halt> {
    let budget = (config.max_node_bytes - 1) as u64;
    let most = config.max_children_per_node;
    match joined_level(store, names, pair, below) {
        Err(halt) => Err(halt),
        Ok((middle, kids, buffer, acc)) => if node::overflows(kids, buffer, config) && pairs_up(
            kids,
            buffer,
            budget,
            most,
        ) {
            match put_split(middle, names, kids, buffer, budget, most) {
                Err(halt) => Err(halt),
                Ok((after, refs, bytes)) => Ok(
                    (
                        after,
                        refs,
                        WriteAcc { io_bytes: summed(acc.io_bytes, bytes), ..acc },
                        true,
                    ),
                ),
            }
        } else {
            match store::put_node(middle, names, kids, buffer) {
                Err(halt) => Err(halt),
                Ok((after, child, bytes)) => Ok(
                    (
                        after,
                        seq![child],
                        WriteAcc {
                            io_bytes: summed(acc.io_bytes, bytes),
                            merges: summed(acc.merges, 1),
                            ..acc
                        },
                        false,
                    ),
                ),
            }
        },
    }
}

/// What pairing nodes with a single child gives: each joins the neighbour
/// behind it, the last one the neighbour before it, and again while what came
/// of it has a single child and a neighbour.
#[verifier::opaque]
pub open spec fn edges_repaired(
    store: StoreView,
    names: Names,
    todo: Seq<ChildView>,
    done: Seq<ChildView>,
    config: FragmentMetadataTreeConfig,
    below: spec_fn(StoreView, Seq<ChildView>) -> Result<
        (StoreView, Seq<ChildView>, WriteAcc),
        Halt,
    >,
    acc: WriteAcc,
) -> Result<(StoreView, Seq<ChildView>, WriteAcc), Halt>
    decreases todo.len(), done.len(),
{
    if todo.len() == 0 {
        Ok((store, done, acc))
    } else {
        let child = todo[0];
        if child.height == 0 || child.num_children > 1 {
            edges_repaired(store, names, todo.skip(1), done.push(child), config, below, acc)
        } else if todo.len() == 1 && done.len() == 0 {
            Ok((store, done.push(child), acc))
        } else {
            let ahead = todo.len() > 1;
            let pair = if ahead {
                todo.take(2)
            } else {
                seq![done.last(), child]
            };
            let kept = if ahead {
                done
            } else {
                done.drop_last()
            };
            let rest = if ahead {
                todo.skip(2)
            } else {
                Seq::empty()
            };
            match rebalanced(store, names, pair, config, below) {
                Err(halt) => Err(halt),
                Ok((after, refs, more, cut)) => if cut {
                    edges_repaired(
                        after,
                        names,
                        rest,
                        kept + refs,
                        config,
                        below,
                        acc.with(more),
                    )
                } else if refs[0].num_children == 1 && (rest.len() > 0 || kept.len() > 0) {
                    edges_repaired(
                        after,
                        names,
                        seq![refs[0]] + rest,
                        kept,
                        config,
                        below,
                        acc.with(more),
                    )
                } else {
                    edges_repaired(
                        after,
                        names,
                        rest,
                        kept.push(refs[0]),
                        config,
                        below,
                        acc.with(more),
                    )
                },
            }
        }
    }
}

/// What merging small children of one height gives: their groups coalesced,
/// and the nodes with a single child paired after that.
#[verifier::opaque]
pub open spec fn level_merged(
    store: StoreView,
    names: Names,
    children: Seq<ChildView>,
    config: FragmentMetadataTreeConfig,
    leaf: bool,
    below: spec_fn(StoreView, Seq<ChildView>) -> Result<
        (StoreView, Seq<ChildView>, WriteAcc),
        Halt,
    >,
) -> Result<(StoreView, Seq<ChildView>, WriteAcc), Halt> {
    if children.len() == 0 {
        Ok((store, children, WriteAcc::nothing()))
    } else {
        match runs_coalesced(
            store,
            names,
            children,
            config,
            leaf,
            below,
            0,
            no_children(),
            WriteAcc::nothing(),
        ) {
            Err(halt) => Err(halt),
            Ok((middle, list, acc)) => edges_repaired(
                middle,
                names,
                list,
                no_children(),
                config,
                below,
                acc,
            ),
        }
    }
}

/// Nothing is joined below leaves.
pub open spec fn no_level() -> spec_fn(StoreView, Seq<ChildView>) -> Result<
    (StoreView, Seq<ChildView>, WriteAcc),
    Halt,
> {
    |store: StoreView, children: Seq<ChildView>| Err(Halt::Need)
}

/// Merging small children of a height, where the children of nodes that are
/// joined are merged first.
pub open spec fn merging(
    names: Names,
    config: FragmentMetadataTreeConfig,
    height: nat,
) -> spec_fn(StoreView, Seq<ChildView>) -> Result<(StoreView, Seq<ChildView>, WriteAcc), Halt>
    decreases height,
{
    let below = if height == 0 {
        no_level()
    } else {
        merging(names, config, (height - 1) as nat)
    };
    |store: StoreView, children: Seq<ChildView>|
        level_merged(store, names, children, config, height == 0, below)
}

/// Merging the children of joined nodes of a height.
pub open spec fn merged_below(
    names: Names,
    config: FragmentMetadataTreeConfig,
    height: nat,
) -> spec_fn(StoreView, Seq<ChildView>) -> Result<(StoreView, Seq<ChildView>, WriteAcc), Halt> {
    if height == 0 {
        no_level()
    } else {
        merging(names, config, (height - 1) as nat)
    }
}

/// What merging small children gives.
#[verifier::opaque]
pub open spec fn merged(
    store: StoreView,
    names: Names,
    children: Seq<ChildView>,
    config: FragmentMetadataTreeConfig,
    height: nat,
) -> Result<(StoreView, Seq<ChildView>, WriteAcc), Halt> {
    merging(names, config, height)(store, children)
}

pub proof fn lemma_merged(
    store: StoreView,
    names: Names,
    children: Seq<ChildView>,
    config: FragmentMetadataTreeConfig,
    height: nat,
)
    ensures
        merged(store, names, children, config, height) == level_merged(
            store,
            names,
            children,
            config,
            height == 0,
            merged_below(names, config, height),
        ),
        height > 0 ==> merged_below(names, config, height)(store, children) == merged(
            store,
            names,
            children,
            config,
            (height - 1) as nat,
        ),
{
    reveal(merged);
}

/// The pair that a node with a single child in front is joined in.
pub open spec fn pair_of(todo: Seq<ChildView>, done: Seq<ChildView>) -> Seq<ChildView> {
    if todo.len() > 1 {
        todo.take(2)
    } else {
        seq![done.last(), todo[0]]
    }
}

/// What stays before that pair.
pub open spec fn kept_of(todo: Seq<ChildView>, done: Seq<ChildView>) -> Seq<ChildView> {
    if todo.len() > 1 {
        done
    } else {
        done.drop_last()
    }
}

/// What stays behind that pair.
pub open spec fn rest_of(todo: Seq<ChildView>) -> Seq<ChildView> {
    if todo.len() > 1 {
        todo.skip(2)
    } else {
        Seq::empty()
    }
}

proof fn lemma_repair_keeps(
    store: StoreView,
    names: Names,
    todo: Seq<ChildView>,
    done: Seq<ChildView>,
    config: FragmentMetadataTreeConfig,
    below: spec_fn(StoreView, Seq<ChildView>) -> Result<
        (StoreView, Seq<ChildView>, WriteAcc),
        Halt,
    >,
    acc: WriteAcc,
)
    requires
        todo.len() > 0,
        todo[0].height == 0 || todo[0].num_children > 1,
    ensures
        edges_repaired(store, names, todo, done, config, below, acc) == edges_repaired(
            store,
            names,
            todo.skip(1),
            done.push(todo[0]),
            config,
            below,
            acc,
        ),
{
    reveal_with_fuel(edges_repaired, 2);
}

proof fn lemma_repair_ends(
    store: StoreView,
    names: Names,
    done: Seq<ChildView>,
    config: FragmentMetadataTreeConfig,
    below: spec_fn(StoreView, Seq<ChildView>) -> Result<
        (StoreView, Seq<ChildView>, WriteAcc),
        Halt,
    >,
    acc: WriteAcc,
)
    ensures
        edges_repaired(store, names, no_children(), done, config, below, acc) == Ok::<
            (StoreView, Seq<ChildView>, WriteAcc),
            Halt,
        >((store, done, acc)),
        done.len() == 1 && done[0].height > 0 && done[0].num_children <= 1 ==> edges_repaired(
            store,
            names,
            done,
            no_children(),
            config,
            below,
            acc,
        ) == Ok::<(StoreView, Seq<ChildView>, WriteAcc), Halt>((store, done, acc)),
{
    reveal(edges_repaired);
    if done.len() == 1 {
        assert(no_children().push(done[0]) =~= done);
    }
}

proof fn lemma_repair_pairs(
    store: StoreView,
    names: Names,
    todo: Seq<ChildView>,
    done: Seq<ChildView>,
    config: FragmentMetadataTreeConfig,
    below: spec_fn(StoreView, Seq<ChildView>) -> Result<
        (StoreView, Seq<ChildView>, WriteAcc),
        Halt,
    >,
    acc: WriteAcc,
)
    requires
        todo.len() + done.len() > 1,
        todo.len() > 0,
        todo[0].height > 0,
        todo[0].num_children <= 1,
    ensures
        edges_repaired(store, names, todo, done, config, below, acc) == match rebalanced(
            store,
            names,
            pair_of(todo, done),
            config,
            below,
        ) {
            Err(halt) => Err(halt),
            Ok((after, refs, more, cut)) => if cut {
                edges_repaired(
                    after,
                    names,
                    rest_of(todo),
                    kept_of(todo, done) + refs,
                    config,
                    below,
                    acc.with(more),
                )
            } else if refs[0].num_children == 1 && (rest_of(todo).len() > 0 || kept_of(
                todo,
                done,
            ).len() > 0) {
                edges_repaired(
                    after,
                    names,
                    seq![refs[0]] + rest_of(todo),
                    kept_of(todo, done),
                    config,
                    below,
                    acc.with(more),
                )
            } else {
                edges_repaired(
                    after,
                    names,
                    rest_of(todo),
                    kept_of(todo, done).push(refs[0]),
                    config,
                    below,
                    acc.with(more),
                )
            },
        },
{
    reveal_with_fuel(edges_repaired, 2);
}

fn lowest(group: &Vec<FragmentMetadataChild>) -> (r: u64)
    ensures
        r == steps::lowest_mark(views::all(group@)),
{
    let ghost all = views::all(group@);
    if group.is_empty() {
        return 0;
    }
    let mut low: u64 = group[0].materialized_through_action_sequence;
    let mut i: usize = 1;
    assert(all.take(1)[0] == group@[0]@);
    while i < group.len()
        invariant
            1 <= i <= group@.len(),
            all == views::all(group@),
            low == steps::lowest_mark(all.take(i as int)),
        decreases group@.len() - i,
    {
        proof {
            assert(all.take(i + 1).drop_last() =~= all.take(i as int));
            assert(all.take(i + 1).last() == group@[i as int]@);
        }
        if group[i].materialized_through_action_sequence < low {
            low = group[i].materialized_through_action_sequence;
        }
        i = i + 1;
    }
    assert(all.take(all.len() as int) =~= all);
    low
}

/// The references of written leaves and the bytes they take.
pub(crate) fn take_refs(written: Vec<store::Written>) -> (r: (Vec<FragmentMetadataChild>, u64))
    requires
        store::measured(written@),
    ensures
        views::all(r.0@) == store::refs_of(written@),
        r.1 == wire::capped(store::ref_bytes(store::refs_of(written@))),
{
    let ghost all = store::refs_of(written@);
    let mut refs: Vec<FragmentMetadataChild> = Vec::new();
    let mut bytes: u64 = 0;
    for w in iter: written
        invariant
            store::measured(iter.seq()),
            iter.seq() == written@,
            all == store::refs_of(written@),
            views::all(refs@) == all.take(iter.index() as int),
            bytes == wire::capped(store::ref_bytes(all.take(iter.index() as int))),
    {
        proof {
            let n = iter.index() as int;
            assert(all.take(n + 1).drop_last() =~= all.take(n));
            assert(all.take(n + 1).last() == all[n]);
            assert(all.take(n + 1) =~= all.take(n).push(all[n]));
            assert(all[n] == w.child_ref@);
        }
        bytes = bytes.saturating_add(w.io_bytes);
        refs.push(w.child_ref);
    }
    assert(all.take(all.len() as int) =~= all);
    (refs, bytes)
}

/// Combine adjacent leaves: their records are written anew.
fn coalesce_leaves(
    store: &mut NodeStore,
    group: Vec<FragmentMetadataChild>,
    config: &FragmentMetadataTreeConfig,
    Ghost(height): Ghost<int>,
    Ghost(lower): Ghost<int>,
) -> (r: Result<(Vec<FragmentMetadataChild>, WriteAcc), Stop>)
    requires
        group@.len() > 0,
        config.valid(),
        steps::shaped(views::all(group@), height, lower),
        height == 0,
    ensures
        match r {
            Ok((merged, acc)) => {
                let out = views::all(merged@);
                &&& world::faithful(
                    old(store)@,
                    final(store)@,
                    views::all(group@),
                    levels::no_mutations(),
                    out,
                    levels::no_mutations(),
                    -1,
                )
                &&& out.len() > 0
                &&& steps::shaped(out, height, lower)
                &&& store::booked(acc.io_bytes, old(store)@, final(store)@)
            },
            Err(stop) => store::honest(stop, old(store)@) && !(stop is Collapsed),
        },
        grown(old(store)@, final(store)@),
        forall|names: Names| #[trigger]
            names.fit(final(store)@) ==> coalesced(
                old(store)@,
                names,
                views::all(group@),
                *config,
                height == 0,
                merged_below(names, *config, height as nat),
            ) == told(r, final(store)@),
{
    let ghost before = store@;
    let ghost all = views::all(group@);
    let ghost none = levels::no_mutations();
    let mut acc = WriteAcc::new();
    proof {
        store::lemma_extends_self(before);
    }
    assert(all[0] == group@[0]@);
    let records = match collect(store, &group) {
        Err(stop) => {
            proof {
                assert forall|names: Names| #[trigger] names.fit(store@) implies coalesced(
                    before,
                    names,
                    all,
                    *config,
                    height == 0,
                    merged_below(names, *config, height as nat),
                )
                    == Err::<(StoreView, Seq<ChildView>, WriteAcc), Halt>(stop.halt()) by {
                    reveal(coalesced);
            
                }
            }
            return Err(stop);
        },
        Ok(records) => records,
    };
    let ghost given = views::all(records@);
    let sorted = leaves::sort_by_id(records);
    let count: usize = sorted.len();
    let watermark: u64 = lowest(&group);
    let ghost ordered = views::all(sorted@);
    let ghost parts = store::halves(
        before,
        ordered,
        0,
        ordered.len() as int,
        config.max_leaf_bytes,
    );
    proof {
        steps::lemma_collected_from(before, all, lower);
        leaves::lemma_by_id_from(given, lower);
        store::lemma_halves(before, ordered, 0, ordered.len() as int, config.max_leaf_bytes);
    }
    let written = match store.write_leaves(&sorted, watermark, config) {
        Err(stop) => {
            proof {
                assert forall|names: Names| #[trigger] names.fit(store@) implies coalesced(
                    before,
                    names,
                    all,
                    *config,
                    height == 0,
                    merged_below(names, *config, height as nat),
                )
                    == Err::<(StoreView, Seq<ChildView>, WriteAcc), Halt>(stop.halt()) by {
                    reveal(coalesced);
            
                }
            }
            return Err(stop);
        },
        Ok(written) => written,
    };
    let ghost refs = store::refs_of(written@);
    let (out, bytes) = take_refs(written);
    acc.io_bytes = bytes;
    proof {
        store::lemma_leaves_written(before, store@, refs, ordered, parts, watermark);
        steps::lemma_leaf_refs_from(before, store@, refs, ordered, parts, watermark, lower);
        steps::step_coalesce(before, store@, all, parts, refs, ordered[0].id);
        assert(node::fenced(refs, ordered[0].id) =~= refs);
    }
    proof {
        assert forall|names: Names| #[trigger] names.fit(store@) implies coalesced(
            before,
            names,
            all,
            *config,
            height == 0,
            merged_below(names, *config, height as nat),
        )
            == Ok::<(StoreView, Seq<ChildView>, WriteAcc), Halt>(
                (store@, views::all(out@), acc),
            ) by {
            reveal(coalesced);
            
        }
    }
    Ok((out, acc))
}

/// Combine adjacent interior nodes in one.
fn coalesce_nodes(
    store: &mut NodeStore,
    group: Vec<FragmentMetadataChild>,
    config: &FragmentMetadataTreeConfig,
    Ghost(height): Ghost<int>,
    Ghost(lower): Ghost<int>,
) -> (r: Result<(Vec<FragmentMetadataChild>, WriteAcc), Stop>)
    requires
        group@.len() > 0,
        config.valid(),
        steps::shaped(views::all(group@), height, lower),
        height > 0,
    ensures
        match r {
            Ok((merged, acc)) => {
                let out = views::all(merged@);
                &&& world::faithful(
                    old(store)@,
                    final(store)@,
                    views::all(group@),
                    levels::no_mutations(),
                    out,
                    levels::no_mutations(),
                    -1,
                )
                &&& out.len() > 0
                &&& steps::shaped(out, height, lower)
                &&& store::booked(acc.io_bytes, old(store)@, final(store)@)
            },
            Err(stop) => store::honest(stop, old(store)@) && !(stop is Collapsed),
        },
        grown(old(store)@, final(store)@),
        forall|names: Names| #[trigger]
            names.fit(final(store)@) ==> coalesced(
                old(store)@,
                names,
                views::all(group@),
                *config,
                height == 0,
                merged_below(names, *config, height as nat),
            ) == told(r, final(store)@),
    decreases height, 0int,
{
    let ghost before = store@;
    let ghost all = views::all(group@);
    let ghost none = levels::no_mutations();
    let mut acc = WriteAcc::new();
    proof {
        store::lemma_extends_self(before);
    }
    assert(all[0] == group@[0]@);
    let node = match gather(store, &group) {
        Err(stop) => {
            proof {
                assert forall|names: Names| #[trigger] names.fit(store@) implies coalesced(
                    before,
                    names,
                    all,
                    *config,
                    height == 0,
                    merged_below(names, *config, height as nat),
                )
                    == Err::<(StoreView, Seq<ChildView>, WriteAcc), Halt>(stop.halt()) by {
                    reveal(coalesced);
                }
            }
            return Err(stop);
        },
        Ok(node) => node,
    };
    let InternalNode { children, buffer } = node;
    let ghost kids = views::all(children@);
    let ghost pending = views::all(buffer@);
    proof {
        steps::lemma_gathered_shape(before, all, height, lower);
        assert(pending + none =~= pending);
        steps::step_unfold(before, all, none, pending);
    }
    // Joining parents exposes siblings that previously belonged to
    // separate ranges; repair their occupancy before persisting them.
    let (repaired, more) = match merge_small_children(
        store,
        children,
        config,
        Ghost(height - 1),
        Ghost(lower),
    ) {
        Err(stop) => {
            proof {
                assert forall|names: Names| #[trigger] names.fit(store@) implies coalesced(
                    before,
                    names,
                    all,
                    *config,
                    height == 0,
                    merged_below(names, *config, height as nat),
                )
                    == Err::<(StoreView, Seq<ChildView>, WriteAcc), Halt>(stop.halt()) by {
                    reveal(coalesced);
            lemma_merged(before, names, kids, *config, height as nat);
                }
            }
            return Err(stop);
        },
        Ok(done) => done,
    };
    acc.add(more);
    let ghost middle = store@;
    let ghost kids2 = views::all(repaired@);
    let (written, bytes) = match write_level(
        store,
        repaired,
        buffer,
        Ghost(height - 1),
        Ghost(lower),
    ) {
        Err(stop) => {
            proof {
                assert forall|names: Names| #[trigger] names.fit(store@) implies coalesced(
                    before,
                    names,
                    all,
                    *config,
                    height == 0,
                    merged_below(names, *config, height as nat),
                )
                    == Err::<(StoreView, Seq<ChildView>, WriteAcc), Halt>(stop.halt()) by {
                    reveal(coalesced);
            lemma_merged(before, names, kids, *config, height as nat);
                }
            }
            return Err(stop);
        },
        Ok(done) => done,
    };
    proof {
        let after = store@;
        let x = no_children();
        steps::step_splice(before, middle, x, kids, x, pending, kids2);
        assert(x + kids + x =~= kids);
        assert(x + kids2 + x =~= kids2);
        world::lemma_faithful_transitive(
            before,
            before,
            middle,
            all,
            none,
            kids,
            pending,
            kids2,
            pending,
            -1,
            -1,
        );
        store::lemma_extends_transitive(before, middle, after);
        world::lemma_faithful_transitive(
            before,
            middle,
            after,
            all,
            none,
            kids2,
            pending,
            seq![written@],
            none,
            -1,
            -1,
        );
        store::lemma_booked_join(acc.io_bytes, bytes, before, middle, after);
    }
    acc.io_bytes = acc.io_bytes.saturating_add(bytes);
    let mut out: Vec<FragmentMetadataChild> = Vec::new();
    out.push(written);
    proof {
        assert(views::all(out@) =~= seq![written@]);
    }
    proof {
        assert forall|names: Names| #[trigger] names.fit(store@) implies coalesced(
            before,
            names,
            all,
            *config,
            height == 0,
            merged_below(names, *config, height as nat),
        )
            == Ok::<(StoreView, Seq<ChildView>, WriteAcc), Halt>(
                (store@, views::all(out@), acc),
            ) by {
            reveal(coalesced);
            lemma_merged(before, names, kids, *config, height as nat);
        }
    }
    Ok((out, acc))
}

/// Combine an adjacent group of same-height children.
fn coalesce(
    store: &mut NodeStore,
    group: Vec<FragmentMetadataChild>,
    config: &FragmentMetadataTreeConfig,
    Ghost(height): Ghost<int>,
    Ghost(lower): Ghost<int>,
) -> (r: Result<(Vec<FragmentMetadataChild>, WriteAcc), Stop>)
    requires
        group@.len() > 0,
        config.valid(),
        steps::shaped(views::all(group@), height, lower),
        height >= 0,
    ensures
        match r {
            Ok((merged, acc)) => {
                let out = views::all(merged@);
                &&& world::faithful(
                    old(store)@,
                    final(store)@,
                    views::all(group@),
                    levels::no_mutations(),
                    out,
                    levels::no_mutations(),
                    -1,
                )
                &&& out.len() > 0
                &&& steps::shaped(out, height, lower)
                &&& store::booked(acc.io_bytes, old(store)@, final(store)@)
            },
            Err(stop) => store::honest(stop, old(store)@) && !(stop is Collapsed),
        },
        grown(old(store)@, final(store)@),
        forall|names: Names| #[trigger]
            names.fit(final(store)@) ==> coalesced(
                old(store)@,
                names,
                views::all(group@),
                *config,
                height == 0,
                merged_below(names, *config, height as nat),
            ) == told(r, final(store)@),
    decreases height, 1int,
{
    assert(views::all(group@)[0] == group@[0]@);
    if group[0].height == 0 {
        coalesce_leaves(store, group, config, Ghost(height), Ghost(lower))
    } else {
        coalesce_nodes(store, group, config, Ghost(height), Ghost(lower))
    }
}

/// The children from a position on.
fn copy_run(children: &Vec<FragmentMetadataChild>, from: usize, to: usize) -> (r: Vec<
    FragmentMetadataChild,
>)
    requires
        from <= to <= children@.len(),
    ensures
        views::all(r@) == views::all(children@).subrange(from as int, to as int),
{
    let ghost all = views::all(children@);
    let mut out: Vec<FragmentMetadataChild> = Vec::new();
    let mut i: usize = from;
    while i < to
        invariant
            from <= i <= to <= children@.len(),
            all == views::all(children@),
            views::all(out@) == all.subrange(from as int, i as int),
        decreases to - i,
    {
        out.push(children[i].clone());
        proof {
            assert(all.subrange(from as int, i + 1) =~= all.subrange(from as int, i as int).push(
                all[i as int],
            ));
        }
        i = i + 1;
    }
    out
}

/// Where the group that starts at a position ends.
fn find_run(
    children: &Vec<FragmentMetadataChild>,
    config: &FragmentMetadataTreeConfig,
    i: usize,
) -> (r: usize)
    requires
        i < children@.len(),
        config.valid(),
    ensures
        r == run_end(views::all(children@), *config, i as int),
        i < r <= children@.len(),
{
    let ghost all = views::all(children@);
    let count: usize = children.len();
    assert(all[i as int] == children@[i as int]@);
    if !node::is_underflow(&children[i], config) {
        return i + 1;
    }
    let leaf: bool = children[i].height == 0;
    let mut bytes: u128 = children[i].object_size as u128;
    let mut fan: u128 = children[i].num_children as u128;
    let mut j: usize = i + 1;
    let ghost end = run_end(all, *config, i as int);
    let leaf_ceiling: u128 = config.leaf_coalesce_ceiling() as u128;
    let ceiling: u128 = config.coalesce_ceiling() as u128;
    loop
        invariant
            i < j <= children@.len(),
            all == views::all(children@),
            bytes <= u64::MAX * j,
            fan <= u32::MAX * j,
            leaf_ceiling == config.max_leaf_bytes * 3 / 5,
            ceiling == config.max_node_bytes * 3 / 5,
            end == group_end(all, *config, leaf, bytes as int, fan as int, j as int),
        ensures
            j == end,
            i < j <= children@.len(),
        decreases children@.len() - j,
    {
        if j >= children.len() {
            break;
        }
        assert(all[j as int] == children@[j as int]@);
        let size: u128 = children[j].object_size as u128;
        let more: u128 = children[j].num_children as u128;
        assert(bytes + size <= u64::MAX * (j + 1)) by (nonlinear_arith)
            requires
                bytes <= u64::MAX * j,
                size <= u64::MAX,
        ;
        assert(fan + more <= u32::MAX * (j + 1)) by (nonlinear_arith)
            requires
                fan <= u32::MAX * j,
                more <= u32::MAX,
        ;
        assert(u64::MAX * (j + 1) <= u128::MAX && u32::MAX * (j + 1) <= u128::MAX)
            by (nonlinear_arith)
            requires
                j < usize::MAX,
                usize::MAX <= u64::MAX,
        ;
        let fits: bool = if leaf {
            bytes + size <= leaf_ceiling
        } else {
            fan + more <= config.max_children_per_node as u128 && bytes + size <= ceiling
        };
        if !fits {
            break;
        }
        bytes = bytes + size;
        fan = fan + more;
        j = j + 1;
    }
    j
}

/// What has become of the first children when the rest is still as it was.
spec fn part_merged(
    before: StoreView,
    after: StoreView,
    children: Seq<ChildView>,
    out: Seq<ChildView>,
    rest: Seq<ChildView>,
    height: int,
    lower: int,
) -> bool {
    &&& world::faithful(
        before,
        after,
        children,
        levels::no_mutations(),
        out + rest,
        levels::no_mutations(),
        -1,
    )
    &&& steps::shaped(out, height, lower)
    &&& steps::shaped(rest, height, lower)
    &&& (out + rest).len() > 0
    &&& (out + rest)[0].min_key == children[0].min_key
}

proof fn lemma_shaped_join(a: Seq<ChildView>, b: Seq<ChildView>, height: int, lower: int)
    requires
        steps::shaped(a, height, lower),
        steps::shaped(b, height, lower),
    ensures
        steps::shaped(a + b, height, lower),
{
    let c = a + b;
    assert forall|i: int| 0 <= i < c.len() implies (#[trigger] c[i]).height == height
        && c[i].min_key >= lower && (height == 0 ==> c[i].num_keys > 0) by {
        if i < a.len() {
            assert(c[i] == a[i]);
        } else {
            assert(c[i] == b[i - a.len()]);
        }
    }
}

proof fn lemma_shaped_part(a: Seq<ChildView>, from: int, to: int, height: int, lower: int)
    requires
        steps::shaped(a, height, lower),
        0 <= from <= to <= a.len(),
    ensures
        steps::shaped(a.subrange(from, to), height, lower),
{
    let c = a.subrange(from, to);
    assert forall|i: int| 0 <= i < c.len() implies (#[trigger] c[i]).height == height
        && c[i].min_key >= lower && (height == 0 ==> c[i].num_keys > 0) by {
        assert(c[i] == a[from + i]);
    }
}

/// Replacing some of the children in the middle.
proof fn lemma_part_merged(
    s0: StoreView,
    s1: StoreView,
    s2: StoreView,
    children: Seq<ChildView>,
    x: Seq<ChildView>,
    group: Seq<ChildView>,
    y: Seq<ChildView>,
    merged: Seq<ChildView>,
    height: int,
    lower: int,
)
    requires
        world::faithful(
            s0,
            s1,
            children,
            levels::no_mutations(),
            x + group + y,
            levels::no_mutations(),
            -1,
        ),
        world::faithful(
            s1,
            s2,
            group,
            levels::no_mutations(),
            merged,
            levels::no_mutations(),
            -1,
        ),
        s2.extends(s1),
        group.len() > 0,
        merged.len() > 0,
        (x + group + y)[0].min_key == children[0].min_key,
        group[0].height == height,
        merged[0].height == height,
        merged[0].min_key == group[0].min_key,
    ensures
        world::faithful(
            s0,
            s2,
            children,
            levels::no_mutations(),
            x + merged + y,
            levels::no_mutations(),
            -1,
        ),
        (x + merged + y)[0].min_key == children[0].min_key,
{
    let none = levels::no_mutations();
    steps::step_splice(s1, s2, x, group, y, none, merged);
    world::lemma_faithful_transitive(
        s0,
        s1,
        s2,
        children,
        none,
        x + group + y,
        none,
        x + merged + y,
        none,
        -1,
        -1,
    );
    if x.len() > 0 {
        assert((x + merged + y)[0] == x[0] && (x + group + y)[0] == x[0]);
    } else {
        assert((x + merged + y)[0] == merged[0] && (x + group + y)[0] == group[0]);
    }
}

/// Coalesce runs of adjacent children when one underflows.
#[verifier::rlimit(60)]
fn coalesce_runs(
    store: &mut NodeStore,
    children: &Vec<FragmentMetadataChild>,
    config: &FragmentMetadataTreeConfig,
    Ghost(height): Ghost<int>,
    Ghost(lower): Ghost<int>,
) -> (r: Result<(Vec<FragmentMetadataChild>, WriteAcc), Stop>)
    requires
        children@.len() > 0,
        config.valid(),
        steps::shaped(views::all(children@), height, lower),
        height >= 0,
    ensures
        match r {
            Ok((merged, acc)) => {
                let out = views::all(merged@);
                &&& part_merged(
                    old(store)@,
                    final(store)@,
                    views::all(children@),
                    no_children(),
                    out,
                    height,
                    lower,
                )
                &&& store::booked(acc.io_bytes, old(store)@, final(store)@)
            },
            Err(stop) => store::honest(stop, old(store)@) && !(stop is Collapsed),
        },
        grown(old(store)@, final(store)@),
        forall|names: Names| #[trigger]
            names.fit(final(store)@) ==> runs_coalesced(
                old(store)@,
                names,
                views::all(children@),
                *config,
                height == 0, merged_below(names, *config, height as nat),
                0,
                no_children(),
                WriteAcc::nothing(),
            ) == told(r, final(store)@),
    decreases height, 2int,
{
    let ghost before = store@;
    let ghost all = views::all(children@);
    let ghost none = levels::no_mutations();
    let mut acc = WriteAcc::new();
    let mut out: Vec<FragmentMetadataChild> = Vec::new();
    let mut i: usize = 0;
    proof {
        store::lemma_extends_self(before);
        world::lemma_faithful_self(before, all, none);
        assert(no_children() + all.skip(0) =~= all);
        assert(all.skip(0) =~= all);
        assert(views::all(out@) =~= no_children());
    }
    while i < children.len()
        invariant
            i <= children@.len(),
            children@.len() > 0,
            config.valid(),
            height >= 0,
            before == old(store)@,
            all == views::all(children@),
            none == levels::no_mutations(),
            steps::shaped(all, height, lower),
            part_merged(
                before,
                store@,
                all,
                views::all(out@),
                all.skip(i as int),
                height,
                lower,
            ),
            forall|names: Names| #[trigger]
                names.fit(store@) ==> runs_coalesced(
                    before,
                    names,
                    all,
                    *config,
                    height == 0, merged_below(names, *config, height as nat),
                    0,
                    no_children(),
                    WriteAcc::nothing(),
                ) == runs_coalesced(
                    store@,
                    names,
                    all,
                    *config,
                    height == 0, merged_below(names, *config, height as nat),
                    i as int,
                    views::all(out@),
                    acc,
                ),
            store::booked(acc.io_bytes, before, store@),
            grown(before, store@),
        decreases children@.len() - i,
    {
        let ghost had = views::all(out@);
        let ghost middle = store@;
        let j: usize = find_run(children, config, i);
        let group = copy_run(children, i, j);
        let ghost group_given = group;
        let ghost run = all.subrange(i as int, j as int);
        let ghost rest = all.skip(j as int);
        proof {
            assert(had + all.skip(i as int) =~= had + run + rest);
            lemma_shaped_part(all, i as int, j as int, height, lower);
            lemma_shaped_part(all, j as int, all.len() as int, height, lower);
            assert(rest =~= all.subrange(j as int, all.len() as int));
            assert(run[0] == all[i as int]);
        }
        if group.len() == 1 {
            let mut group = group;
            out.append(&mut group);
            proof {
                let now = views::all(out@);
                assert(now =~= had + run);
                assert(now + rest =~= had + run + rest);
                lemma_shaped_join(had, run, height, lower);
                assert(run =~= seq![all[i as int]]);
            }
        } else {
            assert(group@[0]@ == run[0]);
            let lower_bound: u64 = group[0].min_key;
            let (mut merged, more) = match coalesce(
                store,
                group,
                config,
                Ghost(height),
                Ghost(lower),
            ) {
                Err(stop) => {
                    proof {
                        store::lemma_extends_lacks(before, middle, stop);
                        store::lemma_extends_transitive(before, middle, store@);
                    }
                    proof {
                        assert forall|names: Names| #[trigger] names.fit(store@) implies runs_coalesced(
                            before,
                            names,
                            all,
                            *config,
                            height == 0,
                            merged_below(names, *config, height as nat),
                            0,
                            no_children(),
                            WriteAcc::nothing(),
                        )
                            == Err::<(StoreView, Seq<ChildView>, WriteAcc), Halt>(stop.halt()) by {
                            reveal(runs_coalesced);
                        }
                    }
                    return Err(stop);
                },
                Ok(done) => done,
            };
            let ghost raw = views::all(merged@);
            assert(raw[0] == merged@[0]@);
            if merged[0].min_key < lower_bound {
                proof {
                    store::lemma_extends_transitive(before, middle, store@);
                }
                proof {
                    let why = Error::CorruptFile {
                        reason: Reason::LeafFence {
                            fence: lower_bound,
                            first: merged@[0].min_key,
                        },
                    };
                    assert forall|names: Names| #[trigger] names.fit(store@) implies runs_coalesced(
                        before,
                        names,
                        all,
                        *config,
                        height == 0,
                        merged_below(names, *config, height as nat),
                        0,
                        no_children(),
                        WriteAcc::nothing(),
                    )
                        == Err::<(StoreView, Seq<ChildView>, WriteAcc), Halt>(Halt::Fail(why)) by {
                        reveal(runs_coalesced);
                    }
                }
                return Err(
                    Stop::Fail(
                        Error::CorruptFile {
                            reason: Reason::LeafFence {
                                fence: lower_bound,
                                first: merged[0].min_key,
                            },
                        },
                    ),
                );
            }
            node::fence(&mut merged, lower_bound);
            let ghost fenced = views::all(merged@);
            let ghost spent = acc.io_bytes;
            acc.add(more);
            acc.merges = acc.merges.saturating_add(1);
            out.append(&mut merged);
            proof {
                let after = store@;
                let now = views::all(out@);
                store::lemma_extends_transitive(before, middle, after);
                steps::step_refence(after, raw, none, lower_bound);
                store::lemma_extends_self(after);
                world::lemma_faithful_transitive(
                    middle,
                    after,
                    after,
                    run,
                    none,
                    raw,
                    none,
                    fenced,
                    none,
                    -1,
                    -1,
                );
                lemma_part_merged(
                    before,
                    middle,
                    after,
                    all,
                    had,
                    run,
                    rest,
                    fenced,
                    height,
                    lower,
                );
                assert(now =~= had + fenced);
                assert(now + rest =~= had + fenced + rest);
                assert forall|k: int| 0 <= k < fenced.len() implies (#[trigger] fenced[k]).height
                    == height && fenced[k].min_key >= lower && (height == 0
                    ==> fenced[k].num_keys > 0) by {
                    assert(raw[k].height == height);
                }
                lemma_shaped_join(had, fenced, height, lower);
                store::lemma_booked_join(spent, more.io_bytes, before, middle, after);
            }
        }
        proof {
            assert forall|names: Names| #[trigger] names.fit(store@) implies runs_coalesced(
                before,
                names,
                all,
                *config,
                height == 0,
                merged_below(names, *config, height as nat),
                0,
                no_children(),
                WriteAcc::nothing(),
            ) == runs_coalesced(
                store@,
                names,
                all,
                *config,
                height == 0,
                merged_below(names, *config, height as nat),
                j as int,
                views::all(out@),
                acc,
            ) by {
                reveal(runs_coalesced);
                assert(all[i as int] == run[0]);
                assert(views::all(group_given@) == run);
            }
        }
        i = j;
    }
    proof {
        let done = views::all(out@);
        assert(all.skip(all.len() as int) =~= no_children());
        assert(done + no_children() =~= done);
        assert(no_children() + done =~= done);
    }
    proof {
        assert forall|names: Names| #[trigger] names.fit(store@) implies runs_coalesced(
            before,
            names,
            all,
            *config,
            height == 0,
            merged_below(names, *config, height as nat),
            0,
            no_children(),
            WriteAcc::nothing(),
        )
            == Ok::<(StoreView, Seq<ChildView>, WriteAcc), Halt>(
                (store@, views::all(out@), acc),
            ) by {
            reveal(runs_coalesced);
        }
    }
    Ok((out, acc))
}

/// Read two neighbours as one level and merge its small children.
fn join_pair(
    store: &mut NodeStore,
    pair: &Vec<FragmentMetadataChild>,
    config: &FragmentMetadataTreeConfig,
    Ghost(height): Ghost<int>,
    Ghost(lower): Ghost<int>,
) -> (r: Result<
    (Vec<FragmentMetadataChild>, Vec<FragmentMetadataMutation>, WriteAcc),
    Stop,
>)
    requires
        pair@.len() > 0,
        config.valid(),
        steps::shaped(views::all(pair@), height, lower),
        height > 0,
    ensures
        match r {
            Ok((kids, buffer, acc)) => {
                let given = views::all(pair@);
                let out = views::all(kids@);
                &&& world::faithful(
                    old(store)@,
                    final(store)@,
                    given,
                    levels::no_mutations(),
                    out,
                    views::all(buffer@),
                    -1,
                )
                &&& out.len() > 0
                &&& steps::shaped(out, height - 1, lower)
                &&& out[0].min_key == given[0].min_key
                &&& store::booked(acc.io_bytes, old(store)@, final(store)@)
            },
            Err(stop) => store::honest(stop, old(store)@) && !(stop is Collapsed),
        },
        grown(old(store)@, final(store)@),
        forall|names: Names| #[trigger]
            names.fit(final(store)@) ==> joined_level(
                old(store)@,
                names,
                views::all(pair@),
                merged_below(names, *config, height as nat),
            ) == match r {
                Ok((kids, buffer, acc)) => Ok(
                    (final(store)@, views::all(kids@), views::all(buffer@), acc),
                ),
                Err(stop) => Err(stop.halt()),
            },
    decreases height, 0int,
{
    let ghost before = store@;
    let ghost given = views::all(pair@);
    let ghost none = levels::no_mutations();
    proof {
        store::lemma_extends_self(before);
        assert(given[0] == pair@[0]@);
    }
    let lower_bound: u64 = pair[0].min_key;
    let node = match gather(store, pair) {
        Err(stop) => {
            proof {
                reveal(joined_level);
            }
            return Err(stop);
        },
        Ok(node) => node,
    };
    let InternalNode { children, buffer } = node;
    let ghost kids = views::all(children@);
    let ghost pending = views::all(buffer@);
    proof {
        steps::lemma_gathered_shape(before, given, height, lower);
        assert(pending + none =~= pending);
        steps::step_unfold(before, given, none, pending);
        steps::lemma_gathered_first(before, given);
    }
    // The repair must not flush. The caller still holds this range's
    // residual actions in its own buffer, so any leaf rewritten here at the
    // frontier watermark would claim changes it never applied. Merge and, if
    // needed, split; the parent's next pressured flush drains the range with
    // every buffered action on the path.
    let (mut repaired, acc) = match merge_small_children(
        store,
        children,
        config,
        Ghost(height - 1),
        Ghost(lower),
    ) {
        Err(stop) => {
            proof {
                reveal(joined_level);
                reveal(merged);
            }
            return Err(stop);
        },
        Ok(done) => done,
    };
    let ghost middle = store@;
    let ghost kids2 = views::all(repaired@);
    proof {
        assert(kids2[0] == repaired@[0]@);
        let x = no_children();
        steps::step_splice(before, middle, x, kids, x, pending, kids2);
        assert(x + kids + x =~= kids);
        assert(x + kids2 + x =~= kids2);
        world::lemma_faithful_transitive(
            before,
            before,
            middle,
            given,
            none,
            kids,
            pending,
            kids2,
            pending,
            -1,
            -1,
        );
    }
    node::fence(&mut repaired, lower_bound);
    proof {
        assert(node::fenced(kids2, lower_bound) =~= kids2);
        reveal(joined_level);
        reveal(merged);
    }
    Ok((repaired, buffer, acc))
}

/// Join two neighbours one of which has a single child, and split the joined
/// node where it overflows and no piece gets a single child.
#[verifier::rlimit(60)]
fn rebalance(
    store: &mut NodeStore,
    pair: Vec<FragmentMetadataChild>,
    config: &FragmentMetadataTreeConfig,
    Ghost(height): Ghost<int>,
    Ghost(lower): Ghost<int>,
) -> (r: Result<(Vec<FragmentMetadataChild>, WriteAcc, bool), Stop>)
    requires
        pair@.len() > 0,
        config.valid(),
        steps::shaped(views::all(pair@), height, lower),
        height > 0,
    ensures
        match r {
            Ok((joined, acc, cut)) => {
                let given = views::all(pair@);
                let out = views::all(joined@);
                &&& world::faithful(
                    old(store)@,
                    final(store)@,
                    given,
                    levels::no_mutations(),
                    out,
                    levels::no_mutations(),
                    -1,
                )
                &&& out.len() > 0
                &&& steps::shaped(out, height, lower)
                &&& out[0].min_key == given[0].min_key
                &&& forall|i: int|
                    0 <= i < out.len() ==> cut ==> (#[trigger] out[i]).num_children != 1
                &&& !cut ==> out.len() == 1
                &&& store::booked(acc.io_bytes, old(store)@, final(store)@)
            },
            Err(stop) => store::honest(stop, old(store)@) && !(stop is Collapsed),
        },
        grown(old(store)@, final(store)@),
        forall|names: Names| #[trigger]
            names.fit(final(store)@) ==> rebalanced(
                old(store)@,
                names,
                views::all(pair@),
                *config,
                merged_below(names, *config, height as nat),
            ) == match r {
                Ok((joined, acc, cut)) => Ok((final(store)@, views::all(joined@), acc, cut)),
                Err(stop) => Err(stop.halt()),
            },
    decreases height, 1int,
{
    let ghost before = store@;
    let ghost given = views::all(pair@);
    let ghost none = levels::no_mutations();
    let mut acc = WriteAcc::new();
    proof {
        store::lemma_extends_self(before);
        assert(given[0] == pair@[0]@);
    }
    let (repaired, buffer, more) = match join_pair(
        store,
        &pair,
        config,
        Ghost(height),
        Ghost(lower),
    ) {
        Err(stop) => {
            proof {
                assert forall|names: Names| #[trigger] names.fit(store@) implies rebalanced(
                    before,
                    names,
                    given,
                    *config,
                    merged_below(names, *config, height as nat),
                ) == Err::<(StoreView, Seq<ChildView>, WriteAcc, bool), Halt>(stop.halt()) by {
                    reveal(rebalanced);
                }
            }
            return Err(stop);
        },
        Ok(done) => done,
    };
    acc.add(more);
    let ghost middle = store@;
    let ghost kids2 = views::all(repaired@);
    let ghost pending = views::all(buffer@);
    if node::internal_overflows(&repaired, &buffer, config) {
        let pieces = split::split_internal(
            clone_children(&repaired),
            clone_mutations(&buffer),
            config.max_node_bytes - 1,
            config.max_children_per_node,
        );
        proof {
            let budget = (config.max_node_bytes - 1) as u64;
            let most = config.max_children_per_node;
            let cuts = cut_children(kids2, pending, budget, most);
            assert forall|i: int| 0 <= i < cuts.len() implies (#[trigger] cuts[i]).len()
                == pieces@[i].0@.len() by {
                assert(views::all(pieces@[i].0@) == cuts[i]);
            }
            if pairs_up(kids2, pending, budget, most) {
                assert forall|i: int| 0 <= i < pieces@.len() implies (
                #[trigger] pieces@[i]).0@.len() >= 2 by {
                    assert(cuts[i].len() >= 2);
                }
            } else {
                let i = choose|i: int| 0 <= i < cuts.len() && (#[trigger] cuts[i]).len() < 2;
                assert(pieces@[i].0@.len() < 2);
            }
        }
        if no_single(&pieces) {
            let ghost given_pieces = pieces@;
            let (refs, bytes) = match write_split(
                store,
                pieces,
                Ghost(kids2),
                Ghost(pending),
                Ghost((config.max_node_bytes - 1) as u64),
                Ghost(config.max_children_per_node),
                Ghost(height - 1),
                Ghost(lower),
            ) {
                Err(stop) => {
                    proof {
                        store::lemma_extends_transitive(before, middle, store@);
                    }
                    proof {
                        assert forall|names: Names| #[trigger] names.fit(store@) implies rebalanced(
                            before,
                            names,
                            given,
                            *config,
                            merged_below(names, *config, height as nat),
                        )
                            == Err::<(StoreView, Seq<ChildView>, WriteAcc, bool), Halt>(stop.halt()) by {
                            reveal(rebalanced);
                        }
                    }
                    return Err(stop);
                },
                Ok(done) => done,
            };
            proof {
                let after = store@;
                let out = views::all(refs@);
                store::lemma_extends_transitive(before, middle, after);
                world::lemma_faithful_transitive(
                    before,
                    middle,
                    after,
                    given,
                    none,
                    kids2,
                    pending,
                    out,
                    none,
                    -1,
                    -1,
                );
                store::lemma_booked_join(acc.io_bytes, bytes, before, middle, after);
                split::lemma_cut(
                    kids2,
                    pending,
                    (config.max_node_bytes - 1) as u64,
                    config.max_children_per_node,
                );
                let c = split::cut(
                    kids2,
                    pending,
                    (config.max_node_bytes - 1) as u64,
                    config.max_children_per_node,
                );
                assert forall|i: int| 0 <= i < out.len() implies (
                #[trigger] out[i]).num_children != 1 by {
                    lifting::lemma_piece(kids2, c, i);
                    assert(views::all(given_pieces[i].0@).len() == c[i]);
                    assert(given_pieces[i].0@.len() >= 2);
                }
            }
            acc.io_bytes = acc.io_bytes.saturating_add(bytes);
            proof {
                assert forall|names: Names| #[trigger] names.fit(store@) implies rebalanced(
                    before,
                    names,
                    given,
                    *config,
                    merged_below(names, *config, height as nat),
                )
                    == Ok::<(StoreView, Seq<ChildView>, WriteAcc, bool), Halt>(
                        (store@, views::all(refs@), acc, true),
                    ) by {
                    reveal(rebalanced);
                }
            }
            return Ok((refs, acc, true));
        }
        // Two singletons whose buffers overflow together stay one oversized
        // node until the parent drains it under pressure.
    }
    let (written, bytes) = match write_level(
        store,
        repaired,
        buffer,
        Ghost(height - 1),
        Ghost(lower),
    ) {
        Err(stop) => {
            proof {
                store::lemma_extends_transitive(before, middle, store@);
            }
            proof {
                assert forall|names: Names| #[trigger] names.fit(store@) implies rebalanced(
                    before,
                    names,
                    given,
                    *config,
                    merged_below(names, *config, height as nat),
                )
                    == Err::<(StoreView, Seq<ChildView>, WriteAcc, bool), Halt>(stop.halt()) by {
                    reveal(rebalanced);
                }
            }
            return Err(stop);
        },
        Ok(done) => done,
    };
    proof {
        let after = store@;
        store::lemma_extends_transitive(before, middle, after);
        world::lemma_faithful_transitive(
            before,
            middle,
            after,
            given,
            none,
            kids2,
            pending,
            seq![written@],
            none,
            -1,
            -1,
        );
        store::lemma_booked_join(acc.io_bytes, bytes, before, middle, after);
        assert(repaired@[0]@ == kids2[0]);
    }
    acc.io_bytes = acc.io_bytes.saturating_add(bytes);
    acc.merges = acc.merges.saturating_add(1);
    let mut out: Vec<FragmentMetadataChild> = Vec::new();
    out.push(written);
    assert(views::all(out@) =~= seq![written@]);
    proof {
        assert forall|names: Names| #[trigger] names.fit(store@) implies rebalanced(
            before,
            names,
            given,
            *config,
            merged_below(names, *config, height as nat),
        )
            == Ok::<(StoreView, Seq<ChildView>, WriteAcc, bool), Halt>(
                (store@, views::all(out@), acc, false),
            ) by {
            reveal(rebalanced);
        }
    }
    Ok((out, acc, false))
}

/// Whether no piece has a single child.
pub(crate) fn no_single(
    pieces: &Vec<(Vec<FragmentMetadataChild>, Vec<FragmentMetadataMutation>)>,
) -> (r: bool)
    ensures
        r == forall|i: int| 0 <= i < pieces@.len() ==> (#[trigger] pieces@[i]).0@.len() >= 2,
{
    let mut i: usize = 0;
    while i < pieces.len()
        invariant
            i <= pieces@.len(),
            forall|k: int| 0 <= k < i ==> (#[trigger] pieces@[k]).0@.len() >= 2,
        decreases pieces@.len() - i,
    {
        if pieces[i].0.len() < 2 {
            return false;
        }
        i = i + 1;
    }
    true
}

/// The children still to be looked at: one that was put back, and the rest.
pub open spec fn remaining(
    held: Option<FragmentMetadataChild>,
    list: Seq<ChildView>,
    k: int,
) -> Seq<ChildView> {
    match held {
        Some(c) => seq![c@] + list.skip(k),
        None => list.skip(k),
    }
}

/// Coalesce runs of adjacent children when one underflows (leaf at most a
/// quarter of its budget; internal below a quarter of the fanout), bounded so
/// the merged node stays valid (leaves at most 0.6 of the budget; internal at
/// most the fanout). Leaves concatenate their records; internal nodes their
/// children and buffers.
///
/// A singleton at either edge then joins its neighbor even when the soft
/// coalesce ceiling would leave it alone: the combined range is rebalanced
/// under the hard node budget, keeping messages with their fences.
#[verifier::rlimit(80)]
pub(crate) fn merge_small_children(
    store: &mut NodeStore,
    children: Vec<FragmentMetadataChild>,
    config: &FragmentMetadataTreeConfig,
    Ghost(height): Ghost<int>,
    Ghost(lower): Ghost<int>,
) -> (r: Result<(Vec<FragmentMetadataChild>, WriteAcc), Stop>)
    requires
        config.valid(),
        steps::shaped(views::all(children@), height, lower),
        height >= 0,
    ensures
        match r {
            Ok((merged, acc)) => {
                let given = views::all(children@);
                let out = views::all(merged@);
                &&& world::faithful(
                    old(store)@,
                    final(store)@,
                    given,
                    levels::no_mutations(),
                    out,
                    levels::no_mutations(),
                    -1,
                )
                &&& steps::shaped(out, height, lower)
                &&& (out.len() == 0) == (given.len() == 0)
                &&& given.len() > 0 ==> out[0].min_key == given[0].min_key
                &&& populous(out)
                &&& store::booked(acc.io_bytes, old(store)@, final(store)@)
            },
            Err(stop) => store::honest(stop, old(store)@) && !(stop is Collapsed),
        },
        grown(old(store)@, final(store)@),
        forall|names: Names| #[trigger]
            names.fit(final(store)@) ==> merged(
                old(store)@,
                names,
                views::all(children@),
                *config,
                height as nat,
            ) == told(r, final(store)@),
    decreases height, 3int,
{
    let ghost before = store@;
    let ghost given = views::all(children@);
    let ghost none = levels::no_mutations();
    proof {
        store::lemma_extends_self(before);
    }
    if children.is_empty() {
        proof {
            world::lemma_faithful_self(before, given, none);
        }
        proof {
            assert forall|names: Names| #[trigger] names.fit(store@) implies merged(
                before,
                names,
                given,
                *config,
                height as nat,
            )
                == Ok::<(StoreView, Seq<ChildView>, WriteAcc), Halt>(
                    (store@, given, WriteAcc::nothing()),
                ) by {
                lemma_merged(before, names, given, *config, height as nat);
            reveal(level_merged);
            }
        }
        return Ok((children, WriteAcc::new()));
    }
    let (list, mut acc) = match coalesce_runs(
        store,
        &children,
        config,
        Ghost(height),
        Ghost(lower),
    ) {
        Err(stop) => {
            proof {
                assert forall|names: Names| #[trigger] names.fit(store@) implies merged(
                    before,
                    names,
                    given,
                    *config,
                    height as nat,
                )
                    == Err::<(StoreView, Seq<ChildView>, WriteAcc), Halt>(stop.halt()) by {
                    lemma_merged(before, names, given, *config, height as nat);
            reveal(level_merged);
                }
            }
            return Err(stop);
        },
        Ok(done) => done,
    };
    let ghost out = views::all(list@);
    let mut repaired: Vec<FragmentMetadataChild> = Vec::new();
    let mut held: Option<FragmentMetadataChild> = None;
    let mut k: usize = 0;
    proof {
        assert(out.skip(0) =~= out);
        assert(no_children() =~= views::all(repaired@));
        assert forall|names: Names| #[trigger] names.fit(store@) implies merged(
            before,
            names,
            given,
            *config,
            height as nat,
        ) == edges_repaired(
            store@,
            names,
            out,
            no_children(),
            *config,
            merged_below(names, *config, height as nat),
            acc,
        ) by {
            lemma_merged(before, names, given, *config, height as nat);
            reveal(level_merged);
        }
    }
    loop
        invariant
            k <= list@.len(),
            config.valid(),
            height >= 0,
            before == old(store)@,
            given == views::all(children@),
            given.len() > 0,
            none == levels::no_mutations(),
            out == views::all(list@),
            forall|names: Names| #[trigger]
                names.fit(store@) ==> merged(before, names, given, *config, height as nat)
                    == edges_repaired(
                    store@,
                    names,
                    remaining(held, out, k as int),
                    views::all(repaired@),
                    *config,
                    merged_below(names, *config, height as nat),
                    acc,
                ),
            part_merged(
                before,
                store@,
                given,
                views::all(repaired@),
                remaining(held, out, k as int),
                height,
                lower,
            ),
            forall|i: int|
                0 <= i < repaired@.len() ==> (#[trigger] views::all(repaired@)[i]).height == 0
                    || views::all(repaired@)[i].num_children != 1 || (repaired@.len() == 1
                    && remaining(held, out, k as int).len() == 0),
            held is Some ==> repaired@.len() + remaining(held, out, k as int).len() >= 2,
            store::booked(acc.io_bytes, before, store@),
            grown(before, store@),
        ensures
            remaining(held, out, k as int).len() == 0,
        decreases remaining(held, out, k as int).len(), repaired@.len(),
    {
        let ghost had = views::all(repaired@);
        let ghost todo = remaining(held, out, k as int);
        let ghost middle = store@;
        let child = match held {
            Some(c) => {
                held = None;
                c
            },
            None => {
                if k >= list.len() {
                    break;
                }
                k = k + 1;
                list[k - 1].clone()
            },
        };
        let ghost rest = remaining(held, out, k as int);
        let ghost child_v = child@;
        proof {
            assert(todo =~= seq![child@] + rest);
            assert(todo[0] == child@);
            assert(rest =~= todo.subrange(1, todo.len() as int));
            lemma_shaped_part(todo, 1, todo.len() as int, height, lower);
        }
        if child.height == 0 || child.num_children > 1 {
            repaired.push(child);
            proof {
                let now = views::all(repaired@);
                assert(now =~= had.push(child@));
                assert(now + rest =~= had + todo);
                assert(now =~= had + seq![child@]);
                lemma_shaped_part(todo, 0, 1, height, lower);
                assert(todo.subrange(0, 1) =~= seq![child@]);
                lemma_shaped_join(had, seq![child@], height, lower);
                assert forall|i: int| 0 <= i < now.len() implies (#[trigger] now[i]).height == 0
                    || now[i].num_children != 1 by {
                    if i < had.len() {
                        assert(now[i] == had[i]);
                    }
                }
                assert forall|names: Names| #[trigger] names.fit(store@) implies merged(
                    before,
                    names,
                    given,
                    *config,
                    height as nat,
                ) == edges_repaired(
                    store@,
                    names,
                    rest,
                    now,
                    *config,
                    merged_below(names, *config, height as nat),
                    acc,
                ) by {
                    assert(todo.skip(1) =~= rest);
                    lemma_repair_keeps(
                        middle,
                        names,
                        todo,
                        had,
                        *config,
                        merged_below(names, *config, height as nat),
                        acc,
                    );
                }
            }
            continue;
        }
        let mut pair: Vec<FragmentMetadataChild> = Vec::new();
        if k < list.len() {
            pair.push(child);
            pair.push(list[k].clone());
            k = k + 1;
            proof {
                let x = had;
                let y = remaining(held, out, k as int);
                assert(rest =~= seq![out[k - 1]] + y);
                assert(views::all(pair@) =~= todo.subrange(0, 2));
                lemma_shaped_part(todo, 0, 2, height, lower);
                assert(had + todo =~= x + views::all(pair@) + y);
                assert(y =~= todo.subrange(2, todo.len() as int));
                lemma_shaped_part(todo, 2, todo.len() as int, height, lower);
            }
        } else if repaired.len() > 0 {
            let left = repaired.pop().unwrap();
            pair.push(left);
            pair.push(child);
            proof {
                let x = views::all(repaired@);
                assert(x =~= had.drop_last());
                assert(left@ == had.last());
                assert(rest =~= no_children());
                assert(had + todo =~= x + views::all(pair@) + no_children());
                lemma_shaped_part(had, 0, had.len() - 1, height, lower);
                assert(x =~= had.subrange(0, had.len() - 1));
                lemma_shaped_part(had, had.len() - 1, had.len() as int, height, lower);
                assert(had.subrange(had.len() - 1, had.len() as int) =~= seq![left@]);
                lemma_shaped_part(todo, 0, 1, height, lower);
                assert(todo.subrange(0, 1) =~= seq![child@]);
                lemma_shaped_join(seq![left@], seq![child@], height, lower);
                assert(views::all(pair@) =~= seq![left@] + seq![child@]);
            }
        } else {
            // Its parent must provide a sibling or shrink this root.
            repaired.push(child);
            proof {
                let now = views::all(repaired@);
                assert(had =~= no_children());
                assert(rest =~= no_children());
                assert(now =~= seq![child@]);
                assert(now + rest =~= had + todo);
                lemma_shaped_part(todo, 0, 1, height, lower);
                assert(todo.subrange(0, 1) =~= seq![child@]);
                assert(now =~= had.push(child@));
                assert forall|names: Names| #[trigger] names.fit(store@) implies merged(
                    before,
                    names,
                    given,
                    *config,
                    height as nat,
                ) == edges_repaired(
                    store@,
                    names,
                    rest,
                    now,
                    *config,
                    merged_below(names, *config, height as nat),
                    acc,
                ) by {
                    assert(todo =~= now);
                    lemma_repair_ends(
                        middle,
                        names,
                        now,
                        *config,
                        merged_below(names, *config, height as nat),
                        acc,
                    );
                }
            }
            break;
        }
        let ghost x = views::all(repaired@);
        let ghost y = remaining(held, out, k as int);
        let ghost joining = views::all(pair@);
        proof {
            assert(had + todo == x + joining + y);
            assert(joining =~= pair_of(todo, had));
            assert(x =~= kept_of(todo, had));
            assert(y =~= rest_of(todo));
            assert(height > 0) by {
                assert(todo[0].height == height);
            }
        }
        let (mut joined, more, cut) = match rebalance(
            store,
            pair,
            config,
            Ghost(height),
            Ghost(lower),
        ) {
            Err(stop) => {
                proof {
                    store::lemma_extends_lacks(before, middle, stop);
                    store::lemma_extends_transitive(before, middle, store@);
                }
                proof {
                    assert forall|names: Names| #[trigger] names.fit(store@) implies merged(
                        before,
                        names,
                        given,
                        *config,
                        height as nat,
                    )
                        == Err::<(StoreView, Seq<ChildView>, WriteAcc), Halt>(stop.halt()) by {
                        lemma_repair_pairs(
                            middle,
                            names,
                            todo,
                            had,
                            *config,
                            merged_below(names, *config, height as nat),
                            acc,
                        );
                    }
                }
                return Err(stop);
            },
            Ok(done) => done,
        };
        let ghost after = store@;
        let ghost refs = views::all(joined@);
        let ghost spent = acc.io_bytes;
        let ghost acc0 = acc;
        acc.add(more);
        proof {
            store::lemma_extends_transitive(before, middle, after);
            store::lemma_booked_join(spent, more.io_bytes, before, middle, after);
            assert(joining[0].height == height);
            lemma_part_merged(
                before,
                middle,
                after,
                given,
                x,
                joining,
                y,
                refs,
                height,
                lower,
            );
            assert forall|i: int| 0 <= i < x.len() implies (#[trigger] x[i]).height == 0
                || x[i].num_children != 1 by {
                assert(x[i] == had[i]);
            }
        }
        if cut {
            repaired.append(&mut joined);
            proof {
                let now = views::all(repaired@);
                assert(now =~= x + refs);
                assert(now + y =~= x + refs + y);
                lemma_shaped_join(x, refs, height, lower);
                assert forall|i: int| 0 <= i < now.len() implies (#[trigger] now[i]).height == 0
                    || now[i].num_children != 1 by {
                    if i < x.len() {
                        assert(now[i] == x[i]);
                    } else {
                        assert(now[i] == refs[i - x.len()]);
                    }
                }
                assert forall|names: Names| #[trigger] names.fit(store@) implies merged(
                    before,
                    names,
                    given,
                    *config,
                    height as nat,
                ) == edges_repaired(
                    store@,
                    names,
                    y,
                    now,
                    *config,
                    merged_below(names, *config, height as nat),
                    acc,
                ) by {
                    lemma_repair_pairs(
                        middle,
                        names,
                        todo,
                        had,
                        *config,
                        merged_below(names, *config, height as nat),
                        acc0,
                    );
                }
            }
            continue;
        }
        let written = joined.pop().unwrap();
        proof {
            assert(refs =~= seq![written@]);
        }
        // A pair that coalesced to one child is a singleton again; while
        // siblings remain it pairs once more, shrinking the list each time.
        if written.num_children == 1 && !(k >= list.len() && repaired.is_empty()) {
            held = Some(written);
            proof {
                let now = remaining(held, out, k as int);
                assert(now =~= seq![written@] + y);
                assert(x + now =~= x + refs + y);
                lemma_shaped_join(refs, y, height, lower);
                assert(now =~= refs + y);
                assert forall|names: Names| #[trigger] names.fit(store@) implies merged(
                    before,
                    names,
                    given,
                    *config,
                    height as nat,
                ) == edges_repaired(
                    store@,
                    names,
                    now,
                    x,
                    *config,
                    merged_below(names, *config, height as nat),
                    acc,
                ) by {
                    lemma_repair_pairs(
                        middle,
                        names,
                        todo,
                        had,
                        *config,
                        merged_below(names, *config, height as nat),
                        acc0,
                    );
                }
            }
        } else {
            repaired.push(written);
            proof {
                let now = views::all(repaired@);
                assert(now =~= x + refs);
                assert(now + y =~= x + refs + y);
                lemma_shaped_join(x, refs, height, lower);
                assert forall|i: int| 0 <= i < now.len() implies (#[trigger] now[i]).height == 0
                    || now[i].num_children != 1 || (now.len() == 1 && y.len() == 0) by {
                    if i < x.len() {
                        assert(now[i] == x[i]);
                    } else {
                        assert(now[i] == written@);
                    }
                }
                assert forall|names: Names| #[trigger] names.fit(store@) implies merged(
                    before,
                    names,
                    given,
                    *config,
                    height as nat,
                ) == edges_repaired(
                    store@,
                    names,
                    y,
                    now,
                    *config,
                    merged_below(names, *config, height as nat),
                    acc,
                ) by {
                    lemma_repair_pairs(
                        middle,
                        names,
                        todo,
                        had,
                        *config,
                        merged_below(names, *config, height as nat),
                        acc0,
                    );
                    assert(now =~= x.push(refs[0]));
                }
            }
        }
    }
    proof {
        let done = views::all(repaired@);
        assert(remaining(held, out, k as int) =~= no_children());
        assert(done + no_children() =~= done);
    }
    proof {
        assert forall|names: Names| #[trigger] names.fit(store@) implies merged(
            before,
            names,
            given,
            *config,
            height as nat,
        )
            == Ok::<(StoreView, Seq<ChildView>, WriteAcc), Halt>(
                (store@, views::all(repaired@), acc),
            ) by {
            lemma_repair_ends(
                store@,
                names,
                views::all(repaired@),
                *config,
                merged_below(names, *config, height as nat),
                acc,
            );
        }
    }
    Ok((repaired, acc))
}

} // verus!
