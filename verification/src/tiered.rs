//! A tiered layout in memory: sealed runs of fragments and a bounded buffer.

use vstd::prelude::*;

use crate::fragment_catalog;
use crate::fragment_catalog::{child_path, fragment_at_local_row, locate_row, run_rows, seal_run,
    FragmentManifestRef, RefView, RowLocation};
use crate::reading_laws;
use crate::record::{clone_fragments, Fragment, FragmentView};
use crate::rows;
use crate::views;

verus! {

broadcast use crate::views::group_views;

/// A sealed run of fragments and the reference to it.
#[derive(Debug)]
pub struct SealedChild {
    pub reference: FragmentManifestRef,
    pub fragments: Vec<Fragment>,
}

pub struct SealedView {
    pub reference: RefView,
    pub fragments: Seq<FragmentView>,
}

impl View for SealedChild {
    type V = SealedView;

    open spec fn view(&self) -> SealedView {
        SealedView { reference: self.reference@, fragments: views::all(self.fragments@) }
    }
}

/// Fragments appended in order: full runs are sealed, what is left is
/// buffered.
#[derive(Debug)]
pub struct TieredLayout {
    buffer_cap: usize,
    version: u64,
    children: Vec<SealedChild>,
    buffer: Vec<Fragment>,
    spilled_rows: u64,
}

pub struct LayoutView {
    pub buffer_cap: usize,
    pub version: u64,
    pub children: Seq<SealedView>,
    pub buffer: Seq<FragmentView>,
    pub spilled_rows: u64,
}

impl View for TieredLayout {
    type V = LayoutView;

    closed spec fn view(&self) -> LayoutView {
        LayoutView {
            buffer_cap: self.buffer_cap,
            version: self.version,
            children: views::all(self.children@),
            buffer: views::all(self.buffer@),
            spilled_rows: self.spilled_rows,
        }
    }
}

/// The fragments of sealed runs, run after run.
pub open spec fn flattened(children: Seq<SealedView>) -> Seq<FragmentView>
    decreases children.len(),
{
    if children.len() == 0 {
        Seq::empty()
    } else {
        flattened(children.drop_last()) + children.last().fragments
    }
}

/// The references to sealed runs.
pub open spec fn references(children: Seq<SealedView>) -> Seq<RefView> {
    Seq::new(children.len(), |i: int| children[i].reference)
}

/// Whether a sealed run is one a layout may hold behind the runs before it.
pub open spec fn well_sealed(
    child: SealedView,
    before: Seq<SealedView>,
    buffer_cap: usize,
    version: u64,
) -> bool {
    &&& child.fragments.len() == buffer_cap
    &&& child.reference == fragment_catalog::sealed(
        child.fragments,
        child.reference.path,
        rows::total(flattened(before)) as u64,
    )
    &&& fragment_catalog::child_named(
        child.reference.path,
        version,
        child.fragments[0].id,
        child.fragments.last().id,
    )
}

impl LayoutView {
    /// Every fragment of the layout in the order it was appended.
    pub open spec fn fragments(self) -> Seq<FragmentView> {
        flattened(self.children) + self.buffer
    }

    pub open spec fn wf(self) -> bool {
        &&& self.buffer_cap >= 1
        &&& self.buffer.len() <= self.buffer_cap
        &&& self.children.len() > 0 ==> self.buffer.len() > 0
        &&& forall|i: int|
            0 <= i < self.children.len() ==> well_sealed(
                #[trigger] self.children[i],
                self.children.take(i),
                self.buffer_cap,
                self.version,
            )
        &&& self.spilled_rows == rows::total(flattened(self.children))
        &&& rows::total(self.fragments()) <= u64::MAX
    }
}

proof fn lemma_flattened_push(children: Seq<SealedView>, child: SealedView)
    ensures
        flattened(children.push(child)) == flattened(children) + child.fragments,
{
    assert(children.push(child).drop_last() =~= children);
}

/// Where a run lies among the fragments of all runs.
proof fn lemma_flattened_take(children: Seq<SealedView>, i: int)
    requires
        0 <= i < children.len(),
    ensures
        flattened(children.take(i + 1)) == flattened(children.take(i)) + children[i].fragments,
        exists|rest: Seq<FragmentView>|
            flattened(children) == #[trigger] (flattened(children.take(i + 1)) + rest),
    decreases children.len(),
{
    assert(children.take(i + 1).drop_last() =~= children.take(i));
    assert(children.take(i + 1).last() == children[i]);
    if i == children.len() - 1 {
        assert(children.take(i + 1) =~= children);
        let none = Seq::<FragmentView>::empty();
        assert(flattened(children) =~= flattened(children.take(i + 1)) + none);
    } else {
        let before = children.drop_last();
        lemma_flattened_take(before, i);
        assert(before.take(i + 1) =~= children.take(i + 1));
        let rest = choose|rest: Seq<FragmentView>|
            flattened(before) == #[trigger] (flattened(before.take(i + 1)) + rest);
        let more = rest + children.last().fragments;
        assert(flattened(children) =~= flattened(children.take(i + 1)) + more);
    }
}

/// Where the rows of the runs of a layout start and end.
proof fn lemma_run_rows(t: LayoutView, i: int)
    requires
        t.wf(),
        0 <= i < t.children.len(),
    ensures
        t.children[i].reference.row_offset_start == rows::total(flattened(t.children.take(i))),
        t.children[i].reference.total_rows == rows::total(t.children[i].fragments),
        rows::total(flattened(t.children.take(i + 1))) == t.children[i].reference.row_offset_start
            + t.children[i].reference.total_rows,
        rows::total(flattened(t.children.take(i + 1))) <= t.spilled_rows,
{
    lemma_flattened_take(t.children, i);
    let rest = choose|rest: Seq<FragmentView>|
        flattened(t.children) == #[trigger] (flattened(t.children.take(i + 1)) + rest);
    rows::lemma_total_join(flattened(t.children.take(i + 1)), rest);
    rows::lemma_total_join(flattened(t.children.take(i)), t.children[i].fragments);
    assert(well_sealed(t.children[i], t.children.take(i), t.buffer_cap, t.version));
}

/// Runs further on start no earlier.
proof fn lemma_rows_grow(children: Seq<SealedView>, i: int, j: int)
    requires
        0 <= i <= j <= children.len(),
    ensures
        rows::total(flattened(children.take(i))) <= rows::total(flattened(children.take(j))),
    decreases j - i,
{
    if i < j {
        lemma_rows_grow(children, i, j - 1);
        lemma_flattened_take(children, j - 1);
        rows::lemma_total_join(flattened(children.take(j - 1)), children[j - 1].fragments);
    }
}

proof fn lemma_row_order(t: LayoutView)
    requires
        t.wf(),
    ensures
        fragment_catalog::in_row_order(references(t.children)),
        fragment_catalog::spilled(references(t.children)) == t.spilled_rows,
        t.children.len() > 0 ==> references(t.children)[0].row_offset_start == 0,
{
    let refs = references(t.children);
    assert forall|i: int, j: int| 0 <= i <= j < refs.len() implies (
    #[trigger] refs[i]).row_offset_start <= (#[trigger] refs[j]).row_offset_start by {
        lemma_run_rows(t, i);
        lemma_run_rows(t, j);
        lemma_rows_grow(t.children, i, j);
    }
    if t.children.len() > 0 {
        let n = t.children.len() - 1;
        lemma_run_rows(t, n);
        assert(t.children.take(n + 1) =~= t.children);
        assert(refs.last() == t.children[n].reference);
        lemma_run_rows(t, 0);
        assert(t.children.take(0) =~= Seq::<SealedView>::empty());
        assert(flattened(t.children.take(0)) =~= Seq::<FragmentView>::empty());
    } else {
        assert(rows::total(Seq::<FragmentView>::empty()) == 0);
    }
}

/// What appending a fragment makes of a layout: a full buffer is sealed, and
/// the fragment stands behind it.
pub open spec fn pushed(before: LayoutView, fragment: FragmentView, after: LayoutView) -> bool {
    &&& after.buffer_cap == before.buffer_cap
    &&& after.version == before.version
    &&& if before.buffer.len() < before.buffer_cap {
        after.children == before.children && after.buffer == before.buffer.push(fragment)
    } else {
        &&& after.children.len() == before.children.len() + 1
        &&& after.children.drop_last() == before.children
        &&& after.children.last().fragments == before.buffer
        &&& after.buffer == seq![fragment]
    }
}

proof fn lemma_pushed(before: LayoutView, fragment: FragmentView, after: LayoutView)
    requires
        pushed(before, fragment, after),
    ensures
        after.fragments() == before.fragments().push(fragment),
{
    if before.buffer.len() < before.buffer_cap {
        assert(after.fragments() =~= before.fragments().push(fragment));
    } else {
        assert(flattened(after.children) == flattened(before.children) + before.buffer);
        assert(after.fragments() =~= before.fragments().push(fragment));
    }
}

impl TieredLayout {
    /// An empty layout. The buffer holds at least one fragment.
    pub fn new(buffer_cap: usize, version: u64) -> (r: Self)
        requires
            buffer_cap >= 1,
        ensures
            r@.wf(),
            r@.buffer_cap == buffer_cap,
            r@.version == version,
            r@.children.len() == 0,
            r@.buffer.len() == 0,
    {
        let r = TieredLayout {
            buffer_cap,
            version,
            children: Vec::new(),
            buffer: Vec::new(),
            spilled_rows: 0,
        };
        proof {
            assert(r@.children =~= Seq::<SealedView>::empty());
            assert(r@.fragments() =~= Seq::<FragmentView>::empty());
            assert(flattened(r@.children) =~= Seq::<FragmentView>::empty());
            assert(rows::total(Seq::<FragmentView>::empty()) == 0);
        }
        r
    }

    /// The layout of fragments appended one after another.
    pub fn seal(fragments: Vec<Fragment>, buffer_cap: usize, version: u64) -> (r: Self)
        requires
            buffer_cap >= 1,
            rows::total(views::all(fragments@)) <= u64::MAX,
        ensures
            r@.wf(),
            r@.buffer_cap == buffer_cap,
            r@.version == version,
            r@.fragments() == views::all(fragments@),
    {
        let ghost all = views::all(fragments@);
        let mut layout = Self::new(buffer_cap, version);
        let mut i: usize = 0;
        assert(layout@.fragments() =~= all.take(0));
        while i < fragments.len()
            invariant
                i <= fragments@.len(),
                all == views::all(fragments@),
                rows::total(all) <= u64::MAX,
                layout@.wf(),
                layout@.buffer_cap == buffer_cap,
                layout@.version == version,
                layout@.fragments() == all.take(i as int),
            decreases fragments@.len() - i,
        {
            proof {
                let taken = all.take(i + 1);
                assert(taken =~= all.take(i as int).push(fragments@[i as int]@));
                assert(all =~= taken + all.skip(i + 1));
                rows::lemma_total_join(taken, all.skip(i + 1));
            }
            layout.push(fragments[i].clone());
            i = i + 1;
        }
        assert(all.take(all.len() as int) =~= all);
        layout
    }

    /// Append a fragment, sealing the buffer where it is full.
    pub fn push(&mut self, fragment: Fragment)
        requires
            old(self)@.wf(),
            rows::total(old(self)@.fragments().push(fragment@)) <= u64::MAX,
        ensures
            final(self)@.wf(),
            pushed(old(self)@, fragment@, final(self)@),
            final(self)@.fragments() == old(self)@.fragments().push(fragment@),
    {
        let ghost before = self@;
        let ghost given = fragment@;
        if self.buffer.len() >= self.buffer_cap {
            self.flush();
        }
        self.buffer.push(fragment);
        proof {
            lemma_pushed(before, given, self@);
            assert forall|i: int| 0 <= i < self@.children.len() implies well_sealed(
                #[trigger] self@.children[i],
                self@.children.take(i),
                self@.buffer_cap,
                self@.version,
            ) by {
                if before.buffer.len() >= before.buffer_cap && i == before.children.len() {
                    assert(self@.children.take(i) =~= before.children);
                } else {
                    assert(self@.children[i] == before.children[i]);
                    assert(self@.children.take(i) =~= before.children.take(i));
                    assert(well_sealed(
                        before.children[i],
                        before.children.take(i),
                        before.buffer_cap,
                        before.version,
                    ));
                }
            }
        }
    }

    /// Seal the buffer.
    fn flush(&mut self)
        requires
            old(self)@.wf(),
            old(self)@.buffer.len() == old(self)@.buffer_cap,
        ensures
            final(self)@.buffer_cap == old(self)@.buffer_cap,
            final(self)@.version == old(self)@.version,
            final(self)@.buffer.len() == 0,
            final(self)@.children.len() == old(self)@.children.len() + 1,
            final(self)@.children.drop_last() == old(self)@.children,
            final(self)@.children.last().fragments == old(self)@.buffer,
            well_sealed(
                final(self)@.children.last(),
                old(self)@.children,
                old(self)@.buffer_cap,
                old(self)@.version,
            ),
            final(self)@.spilled_rows == rows::total(flattened(final(self)@.children)),
    {
        let ghost before = self@;
        let mut run: Vec<Fragment> = Vec::new();
        core::mem::swap(&mut run, &mut self.buffer);
        let n: usize = run.len();
        proof {
            rows::lemma_total_join(flattened(before.children), before.buffer);
            assert(before.buffer[0] == run@[0]@);
            assert(before.buffer.last() == run@[n - 1]@);
        }
        let path = child_path(self.version, run[0].id, run[n - 1].id);
        let reference = seal_run(&run, path, self.spilled_rows);
        self.spilled_rows = self.spilled_rows + reference.total_rows;
        self.children.push(SealedChild { reference, fragments: run });
        proof {
            lemma_flattened_push(before.children, self@.children.last());
            assert(self@.children =~= before.children.push(self@.children.last()));
            assert(self@.children.drop_last() =~= before.children);
        }
    }

    /// The sealed runs.
    pub fn children(&self) -> (r: &Vec<SealedChild>)
        ensures
            views::all(r@) == self@.children,
    {
        &self.children
    }

    /// The fragments behind the sealed runs.
    pub fn buffer(&self) -> (r: &Vec<Fragment>)
        ensures
            views::all(r@) == self@.buffer,
    {
        &self.buffer
    }

    /// The rows of the sealed runs.
    pub fn spilled_rows(&self) -> (r: u64)
        ensures
            r == self@.spilled_rows,
    {
        self.spilled_rows
    }

    /// The references to the sealed runs.
    pub fn child_refs(&self) -> (r: Vec<FragmentManifestRef>)
        ensures
            views::all(r@) == references(self@.children),
    {
        let ghost all = references(self@.children);
        let mut out: Vec<FragmentManifestRef> = Vec::new();
        let mut i: usize = 0;
        while i < self.children.len()
            invariant
                i <= self.children@.len(),
                all == references(self@.children),
                views::all(out@) == all.take(i as int),
            decreases self.children@.len() - i,
        {
            out.push(self.children[i].reference.clone());
            assert(all.take(i + 1) =~= all.take(i as int).push(self.children@[i as int].reference@));
            i = i + 1;
        }
        assert(all.take(all.len() as int) =~= all);
        out
    }

    /// Every fragment in the order it was appended.
    pub fn enumerate(&self) -> (r: Vec<Fragment>)
        ensures
            views::all(r@) == self@.fragments(),
    {
        let ghost kids = self@.children;
        let mut all: Vec<Fragment> = Vec::new();
        let mut i: usize = 0;
        assert(flattened(kids.take(0)) =~= Seq::<FragmentView>::empty());
        while i < self.children.len()
            invariant
                i <= self.children@.len(),
                kids == self@.children,
                views::all(all@) == flattened(kids.take(i as int)),
            decreases self.children@.len() - i,
        {
            let mut run = clone_fragments(&self.children[i].fragments);
            proof {
                assert(kids.take(i + 1).drop_last() =~= kids.take(i as int));
                assert(kids.take(i + 1).last() == self.children@[i as int]@);
            }
            all.append(&mut run);
            i = i + 1;
        }
        assert(kids.take(kids.len() as int) =~= kids);
        let mut tail = clone_fragments(&self.buffer);
        all.append(&mut tail);
        all
    }

    /// The fragment that holds a row of the table. It is the one that counting
    /// rows through every fragment finds.
    pub fn resolve_fragment(&self, row: u64) -> (r: Option<u64>)
        requires
            self@.wf(),
        ensures
            r == fragment_catalog::holder(rows::at_offset(self@.fragments(), row)),
    {
        let ghost kids = self@.children;
        let ghost sealed = flattened(kids);
        proof {
            rows::lemma_total_join(sealed, self@.buffer);
            rows::lemma_offset_join(sealed, self@.buffer, row);
            rows::law_offset_counts_visible_rows(self@.fragments(), row);
            lemma_row_order(self@);
        }
        let buffer_rows = run_rows(&self.buffer);
        let refs = self.child_refs();
        match locate_row(&refs, buffer_rows, row) {
            None => None,
            Some(RowLocation::Buffer { local_row }) => fragment_at_local_row(
                &self.buffer,
                local_row,
            ),
            Some(RowLocation::Child { index, local_row }) => {
                proof {
                    lemma_child_holds(self@, row);
                    assert(kids[index as int] == self.children@[index as int]@);
                }
                fragment_at_local_row(&self.children[index].fragments, local_row)
            },
        }
    }
}

/// Counting rows through the sealed runs finds the row in the run that is
/// located for it.
proof fn lemma_child_holds(t: LayoutView, row: u64)
    requires
        t.wf(),
        row < t.spilled_rows,
    ensures
        ({
            let refs = references(t.children);
            let index = fragment_catalog::started(refs, row) - 1;
            &&& 0 <= index < t.children.len()
            &&& refs[index].row_offset_start <= row
            &&& rows::at_offset(flattened(t.children), row) == rows::at_offset(
                t.children[index].fragments,
                (row - refs[index].row_offset_start) as u64,
            )
        }),
{
    let refs = references(t.children);
    lemma_row_order(t);
    fragment_catalog::lemma_started(refs, row);
    let index = fragment_catalog::started(refs, row) - 1;
    if t.children.len() == 0 {
        assert(rows::total(Seq::<FragmentView>::empty()) == 0);
    }
    if index < 0 {
        assert(refs[0].row_offset_start > row);
    }
    lemma_run_rows(t, index);
    lemma_flattened_take(t.children, index);
    let before = flattened(t.children.take(index));
    let own = t.children[index].fragments;
    let rest = choose|rest: Seq<FragmentView>|
        flattened(t.children) == #[trigger] (flattened(t.children.take(index + 1)) + rest);
    if index + 1 < t.children.len() {
        lemma_run_rows(t, index + 1);
        assert(refs[index + 1].row_offset_start > row);
    } else {
        assert(t.children.take(index + 1) =~= t.children);
    }
    rows::lemma_total_join(before, own);
    rows::lemma_offset_join(before + own, rest, row);
    rows::lemma_offset_join(before, own, row);
}

/// The fragments of full runs.
proof fn lemma_full_runs(children: Seq<SealedView>, cap: nat)
    requires
        forall|i: int|
            0 <= i < children.len() ==> (#[trigger] children[i]).fragments.len() == cap,
    ensures
        flattened(children).len() == children.len() * cap,
        forall|i: int|
            0 <= i < children.len() ==> (#[trigger] children[i]).fragments
                == flattened(children).subrange(i * cap, (i + 1) * cap),
    decreases children.len(),
{
    if children.len() > 0 {
        let n = children.len() - 1;
        let rest = children.drop_last();
        assert forall|i: int| 0 <= i < rest.len() implies (
        #[trigger] rest[i]).fragments.len() == cap by {
            assert(rest[i] == children[i]);
        }
        lemma_full_runs(rest, cap);
        assert(children.len() * cap == n * cap + cap) by (nonlinear_arith)
            requires
                children.len() == n + 1,
        ;
        assert forall|i: int| 0 <= i < children.len() implies (#[trigger] children[i]).fragments
            == flattened(children).subrange(i * cap, (i + 1) * cap) by {
            assert((i + 1) * cap == i * cap + cap) by (nonlinear_arith);
            assert(0 <= i * cap) by (nonlinear_arith)
                requires
                    i >= 0,
            ;
            if i < n {
                assert(rest[i] == children[i]);
                assert((i + 1) * cap <= n * cap) by (nonlinear_arith)
                    requires
                        i + 1 <= n,
                ;
                assert(flattened(children).subrange(i * cap, (i + 1) * cap) =~= flattened(
                    rest,
                ).subrange(i * cap, (i + 1) * cap));
            } else {
                assert(flattened(children).subrange(i * cap, (i + 1) * cap)
                    =~= children[i].fragments);
            }
        }
    } else {
        assert(flattened(children) =~= Seq::<FragmentView>::empty());
        assert(0 * cap == 0) by (nonlinear_arith);
    }
}

/// How fragments are laid out depends on nothing but the fragments and the
/// size of the buffer: layouts that hold the same fragments agree in their
/// sealed runs, in what is buffered, and in everything the references say but
/// the paths. Sealing a list is therefore the same as appending it.
pub proof fn law_layout_depends_on_fragments_alone(a: LayoutView, b: LayoutView)
    requires
        a.wf(),
        b.wf(),
        a.buffer_cap == b.buffer_cap,
        a.fragments() == b.fragments(),
    ensures
        a.children.len() == b.children.len(),
        a.buffer == b.buffer,
        a.spilled_rows == b.spilled_rows,
        forall|i: int|
            0 <= i < a.children.len() ==> (#[trigger] a.children[i]).fragments
                == b.children[i].fragments && a.children[i].reference == (RefView {
                path: a.children[i].reference.path,
                ..b.children[i].reference
            }),
{
    let cap = a.buffer_cap as nat;
    let m = a.children.len();
    let n = b.children.len();
    assert forall|i: int| 0 <= i < m implies (#[trigger] a.children[i]).fragments.len()
        == cap by {
        assert(well_sealed(a.children[i], a.children.take(i), a.buffer_cap, a.version));
    }
    assert forall|i: int| 0 <= i < n implies (#[trigger] b.children[i]).fragments.len()
        == cap by {
        assert(well_sealed(b.children[i], b.children.take(i), b.buffer_cap, b.version));
    }
    lemma_full_runs(a.children, cap);
    lemma_full_runs(b.children, cap);
    let all = a.fragments();
    assert(m * cap + a.buffer.len() == all.len());
    assert(n * cap + b.buffer.len() == all.len());
    if m < n {
        assert(n * cap >= m * cap + cap) by (nonlinear_arith)
            requires
                m + 1 <= n,
        ;
    }
    if n < m {
        assert(m * cap >= n * cap + cap) by (nonlinear_arith)
            requires
                n + 1 <= m,
        ;
    }
    let x = flattened(a.children);
    let y = flattened(b.children);
    assert(x =~= all.take((m * cap) as int));
    assert(y =~= all.take((n * cap) as int));
    assert(a.buffer =~= all.skip((m * cap) as int));
    assert(b.buffer =~= all.skip((n * cap) as int));
    assert forall|i: int| 0 <= i < m implies (#[trigger] a.children[i]).fragments
        == b.children[i].fragments && a.children[i].reference == (RefView {
        path: a.children[i].reference.path,
        ..b.children[i].reference
    }) by {
        assert(b.children[i].fragments == y.subrange(i * cap, (i + 1) * cap));
        lemma_same_prefix(a.children, b.children, cap, i);
        lemma_run_rows(a, i);
        lemma_run_rows(b, i);
        assert(well_sealed(a.children[i], a.children.take(i), a.buffer_cap, a.version));
        assert(well_sealed(b.children[i], b.children.take(i), b.buffer_cap, b.version));
    }
}

/// Runs that agree one by one hold the same fragments.
proof fn lemma_same_prefix(a: Seq<SealedView>, b: Seq<SealedView>, cap: nat, i: int)
    requires
        0 <= i <= a.len() == b.len(),
        forall|k: int| 0 <= k < a.len() ==> (#[trigger] a[k]).fragments.len() == cap,
        forall|k: int| 0 <= k < b.len() ==> (#[trigger] b[k]).fragments.len() == cap,
        flattened(a) == flattened(b),
    ensures
        flattened(a.take(i)) == flattened(b.take(i)),
    decreases i,
{
    if i == 0 {
        assert(a.take(0) =~= b.take(0));
    } else {
        lemma_same_prefix(a, b, cap, i - 1);
        lemma_full_runs(a, cap);
        lemma_full_runs(b, cap);
        lemma_flattened_take(a, i - 1);
        lemma_flattened_take(b, i - 1);
        assert(a[i - 1].fragments == b[i - 1].fragments);
    }
}

/// A layout cuts its fragments into full runs and keeps the rest: each run
/// holds as many fragments as the buffer, the first run starts with the first
/// fragment, and something is left in the buffer where anything was sealed. A
/// run's reference names its first and last fragment, how many there are, how
/// many rows they show and how many are shown before them.
pub proof fn law_runs_tile_the_fragments(t: LayoutView, i: int)
    requires
        t.wf(),
        0 <= i < t.children.len(),
        t.buffer_cap <= u32::MAX,
    ensures
        ({
            let all = t.fragments();
            let cap = t.buffer_cap as int;
            let run = t.children[i];
            &&& (i + 1) * cap <= all.len()
            &&& run.fragments == all.subrange(i * cap, (i + 1) * cap)
            &&& 0 < t.buffer.len() <= cap
            &&& t.buffer == all.skip(t.children.len() * cap)
            &&& run.reference.min_fragment_id == all[i * cap].id
            &&& run.reference.max_fragment_id == all[(i + 1) * cap - 1].id
            &&& run.reference.fragment_count == cap
            &&& run.reference.row_offset_start == reading_laws::rows_left_of(all.take(i * cap))
            &&& run.reference.total_rows == reading_laws::rows_left_of(run.fragments)
        }),
{
    let cap = t.buffer_cap as nat;
    let kids = t.children;
    let all = t.fragments();
    assert forall|k: int| 0 <= k < kids.len() implies (#[trigger] kids[k]).fragments.len()
        == cap by {
        assert(well_sealed(kids[k], kids.take(k), t.buffer_cap, t.version));
    }
    lemma_full_runs(kids, cap);
    lemma_run_rows(t, i);
    let before = kids.take(i);
    assert forall|k: int| 0 <= k < before.len() implies (#[trigger] before[k]).fragments.len()
        == cap by {
        assert(before[k] == kids[k]);
    }
    lemma_full_runs(before, cap);
    lemma_flattened_take(kids, i);
    let rest = choose|rest: Seq<FragmentView>|
        flattened(kids) == #[trigger] (flattened(kids.take(i + 1)) + rest);
    assert((i + 1) * cap == i * cap + cap) by (nonlinear_arith);
    assert(0 <= i * cap) by (nonlinear_arith)
        requires
            i >= 0,
    ;
    assert((i + 1) * cap <= kids.len() * cap) by (nonlinear_arith)
        requires
            i + 1 <= kids.len(),
    ;
    assert(flattened(before) =~= all.take(i * cap));
    assert(kids[i].fragments =~= all.subrange(i * cap, (i + 1) * cap));
    assert(t.buffer =~= all.skip((kids.len() * cap) as int));
    rows::law_total_counts_the_rows_left(all.take(i * cap));
    rows::law_total_counts_the_rows_left(kids[i].fragments);
    assert(well_sealed(kids[i], before, t.buffer_cap, t.version));
    assert(kids[i].fragments[0] == all[i * cap]);
    assert(kids[i].fragments.last() == all[(i + 1) * cap - 1]);
}

} // verus!
