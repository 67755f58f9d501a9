//! Reading a leaf in part: the headers of all its records, and one row.
//!
//! Resolving one fragment decodes only its record, and a leaf whose records
//! are all removed or replaced is checked by its headers. Every count that the
//! reference to the leaf declares is checked all the same.

use vstd::prelude::*;

use crate::error::{Aggregate, Error, Reason};
use crate::leaf;
use crate::leaf::{HeaderView, HeadersView};
use crate::leaf_reads;
use crate::leaf_reads::{BatchView, HeaderBatch};
use crate::leaves;
use crate::node;
use crate::pb;
use crate::pb::{ChildView, DataFragmentView, FragmentMetadataChild};
use crate::record::{Fragment, FragmentView};
use crate::same;
use crate::steps;
use crate::store;
use crate::store::{LeafView, Loc, NodeStore, Request, Stop, StoreView};
use crate::views;
use crate::world;
use crate::world::World;

verus! {

broadcast use crate::views::group_views;

/// The id and header columns of a leaf as stored.
pub struct StoredHeaders {
    pub path: String,
    pub base_id: Option<u32>,
    pub object_size: u64,
    pub num_rows: u64,
    pub batches: Vec<HeaderBatch>,
}

pub struct HeadersPart {
    pub loc: Loc,
    pub object_size: u64,
    pub num_rows: u64,
    pub batches: Seq<BatchView>,
}

impl View for StoredHeaders {
    type V = HeadersPart;

    open spec fn view(&self) -> HeadersPart {
        HeadersPart {
            loc: Loc { path: self.path@, base_id: self.base_id },
            object_size: self.object_size,
            num_rows: self.num_rows,
            batches: views::all(self.batches@),
        }
    }
}

/// What one row of a leaf decodes to.
pub struct StoredRow {
    pub path: String,
    pub base_id: Option<u32>,
    pub row: u64,
    pub fragments: Vec<Fragment>,
}

pub struct RowPart {
    pub loc: Loc,
    pub row: u64,
    pub fragments: Seq<FragmentView>,
}

impl View for StoredRow {
    type V = RowPart;

    open spec fn view(&self) -> RowPart {
        RowPart {
            loc: Loc { path: self.path@, base_id: self.base_id },
            row: self.row,
            fragments: views::all(self.fragments@),
        }
    }
}

/// The position of the first headers of a leaf; the length where there are
/// none.
pub open spec fn headers_index(parts: Seq<HeadersPart>, loc: Loc) -> int
    decreases parts.len(),
{
    if parts.len() == 0 {
        0
    } else {
        let rest = headers_index(parts.drop_last(), loc);
        if rest < parts.len() - 1 || parts.last().loc == loc {
            rest
        } else {
            parts.len() as int
        }
    }
}

/// The position of the first copy of a row of a leaf; the length where there
/// is none.
pub open spec fn row_index(parts: Seq<RowPart>, loc: Loc, row: u64) -> int
    decreases parts.len(),
{
    if parts.len() == 0 {
        0
    } else {
        let rest = row_index(parts.drop_last(), loc, row);
        if rest < parts.len() - 1 || (parts.last().loc == loc && parts.last().row == row) {
            rest
        } else {
            parts.len() as int
        }
    }
}

pub proof fn lemma_headers_index(parts: Seq<HeadersPart>, loc: Loc)
    ensures
        0 <= headers_index(parts, loc) <= parts.len(),
        forall|i: int| 0 <= i < headers_index(parts, loc) ==> (#[trigger] parts[i]).loc != loc,
        headers_index(parts, loc) < parts.len() ==> parts[headers_index(parts, loc)].loc == loc,
    decreases parts.len(),
{
    if parts.len() > 0 {
        let rest = parts.drop_last();
        lemma_headers_index(rest, loc);
        assert forall|i: int| 0 <= i < headers_index(parts, loc) implies (#[trigger] parts[i]).loc
            != loc by {
            if i < rest.len() {
                assert(rest[i] == parts[i]);
            }
        }
        if headers_index(rest, loc) < rest.len() {
            assert(rest[headers_index(rest, loc)] == parts[headers_index(rest, loc)]);
        }
    }
}

pub proof fn lemma_row_index(parts: Seq<RowPart>, loc: Loc, row: u64)
    ensures
        0 <= row_index(parts, loc, row) <= parts.len(),
        forall|i: int|
            0 <= i < row_index(parts, loc, row) ==> (#[trigger] parts[i]).loc != loc
                || parts[i].row != row,
        row_index(parts, loc, row) < parts.len() ==> parts[row_index(parts, loc, row)].loc == loc
            && parts[row_index(parts, loc, row)].row == row,
    decreases parts.len(),
{
    if parts.len() > 0 {
        let rest = parts.drop_last();
        lemma_row_index(rest, loc, row);
        assert forall|i: int| 0 <= i < row_index(parts, loc, row) implies (#[trigger] parts[i]).loc
            != loc || parts[i].row != row by {
            if i < rest.len() {
                assert(rest[i] == parts[i]);
            }
        }
        if row_index(rest, loc, row) < rest.len() {
            assert(rest[row_index(rest, loc, row)] == parts[row_index(rest, loc, row)]);
        }
    }
}

impl StoreView {
    pub open spec fn knows_headers(self, loc: Loc) -> bool {
        headers_index(self.headers, loc) < self.headers.len()
    }

    pub open spec fn knows_row(self, loc: Loc, row: u64) -> bool {
        row_index(self.rows, loc, row) < self.rows.len()
    }
}

/// What reading the headers of a leaf gives: its records, without files and
/// overlays unless the whole leaf is known, the refusal, or nothing where the
/// headers are not known.
pub open spec fn headers_read(store: StoreView, child: ChildView) -> Result<
    Seq<FragmentView>,
    Option<Error>,
> {
    let at = headers_index(store.headers, child.loc());
    if child.object_size > usize::MAX || store.knows_leaf(child.loc()) {
        store::leaf_read(store, child)
    } else if at >= store.headers.len() {
        Err(None)
    } else if store.headers[at].object_size != child.object_size {
        Err(
            Some(
                Error::CorruptFile {
                    reason: Reason::LeafSize {
                        declared: child.object_size,
                        found: store.headers[at].object_size,
                    },
                },
            ),
        )
    } else {
        match leaf_reads::checked_headers(
            child,
            store.headers[at].num_rows,
            store.headers[at].batches,
        ) {
            Ok(records) => Ok(records),
            Err(error) => Err(Some(error)),
        }
    }
}

/// The row of a fragment among records that hold it.
pub open spec fn row_of_key(records: Seq<FragmentView>, key: u64) -> int {
    choose|i: int| 0 <= i < records.len() && (#[trigger] records[i]).id == key
}

/// What reading one record of a leaf gives: nothing where the leaf does not
/// hold the fragment, its record, the refusal, or nothing known where the
/// headers or the row are not. No other record is decoded in full, unless the
/// whole leaf is known.
pub open spec fn point_read(store: StoreView, child: ChildView, key: u64) -> Result<
    Option<FragmentView>,
    Option<Error>,
> {
    match headers_read(store, child) {
        Err(why) => Err(why),
        Ok(records) => if store.knows_leaf(child.loc()) || world::found(records, key) is None {
            Ok(world::found(records, key))
        } else {
            let row = row_of_key(records, key) as u64;
            let at = row_index(store.rows, child.loc(), row);
            if at >= store.rows.len() {
                Err(None)
            } else {
                match leaf_reads::row_fragment(store.rows[at].fragments, row, key, child.base_id) {
                    Ok(record) => Ok(Some(record)),
                    Err(error) => Err(Some(error)),
                }
            }
        },
    }
}

// What headers hold.

/// Whether headers hold records in order, with the first and last id known.
pub open spec fn orderly(headers: HeadersView) -> bool {
    let kept = headers.kept;
    &&& store::ascending(kept)
    &&& kept.len() == 0 ==> headers.first_id is None && headers.last_id is None
    &&& kept.len() > 0 ==> headers.first_id == Some(kept[0].id) && headers.last_id == Some(
        kept.last().id,
    )
}

proof fn lemma_header_orderly(headers: HeadersView, id: u64, cell: HeaderView)
    requires
        orderly(headers),
    ensures
        orderly(leaf::header_added(headers, id, cell).0),
{
    let after = leaf::header_added(headers, id, cell).0;
    if after.kept.len() > headers.kept.len() {
        let kept = after.kept;
        let before = headers.kept;
        assert forall|i: int, j: int| 0 <= i < j < kept.len() implies (#[trigger] kept[i]).id < (
        #[trigger] kept[j]).id by {
            assert(before[i] == kept[i]);
            if j < before.len() {
                assert(before[j] == kept[j]);
            } else if i < before.len() - 1 {
                assert(before[i].id < before[before.len() - 1].id);
            }
        }
    }
}

proof fn lemma_rows_orderly(
    headers: HeadersView,
    ids: Seq<Option<u64>>,
    cells: Seq<Option<HeaderView>>,
    rows: int,
)
    requires
        orderly(headers),
    ensures
        orderly(leaf::headers_added(headers, ids, cells, rows).0),
    decreases rows,
{
    if rows > 0 {
        lemma_rows_orderly(headers, ids, cells, rows - 1);
        let (before, error) = leaf::headers_added(headers, ids, cells, rows - 1);
        if error is None {
            lemma_header_orderly(before, ids[rows - 1]->0, cells[rows - 1]->0);
        }
    }
}

proof fn lemma_batches_orderly(batches: Seq<BatchView>, n: int)
    ensures
        orderly(leaf_reads::batches_added(leaf_reads::no_headers(), batches, n).0),
    decreases n,
{
    if n > 0 {
        lemma_batches_orderly(batches, n - 1);
        let (before, error) = leaf_reads::batches_added(leaf_reads::no_headers(), batches, n - 1);
        let batch = batches[n - 1];
        lemma_rows_orderly(before, batch.ids, batch.headers, batch.ids.len() as int);
    }
}

/// Headers that were read hold records in order, from the leaf's fence on.
pub proof fn lemma_headers_shape(store: StoreView, child: ChildView)
    requires
        headers_read(store, child) is Ok,
    ensures
        ({
            let records = headers_read(store, child)->Ok_0;
            &&& store::ascending(records)
            &&& forall|i: int|
                0 <= i < records.len() ==> (#[trigger] records[i]).id >= child.min_key
        }),
{
    let records = headers_read(store, child)->Ok_0;
    if child.object_size > usize::MAX || store.knows_leaf(child.loc()) {
        steps::lemma_leaf_shape(store, child);
    } else {
        let at = headers_index(store.headers, child.loc());
        let batches = store.headers[at].batches;
        lemma_batches_orderly(batches, batches.len() as int);
        assert forall|i: int| 0 <= i < records.len() implies (#[trigger] records[i]).id
            >= child.min_key by {
            if i > 0 {
                assert(records[0].id < records[i].id);
            }
        }
    }
}

/// Whether a world agrees with what the headers of a leaf say: they name the
/// fragments the leaf holds.
pub open spec fn headers_agree(w: World, part: HeadersPart) -> bool {
    let (headers, error) = leaf_reads::batches_added(
        leaf_reads::no_headers(),
        part.batches,
        part.batches.len() as int,
    );
    error is None ==> forall|key: u64| #[trigger]
        (w.record)(part.loc, key) is Some == world::found(headers.kept, key) is Some
}

/// Whether a world agrees with what one row of a leaf decodes to.
pub open spec fn row_agrees(w: World, part: RowPart) -> bool {
    part.fragments.len() == 1 ==> (w.record)(part.loc, part.fragments[0].id) == Some(
        part.fragments[0].inherited(part.loc.base_id),
    )
}

/// Headers that were read name the fragments the leaf stands for.
pub proof fn lemma_reads_headers(w: World, store: StoreView, child: ChildView)
    requires
        world::agrees(w, store),
        headers_read(store, child) is Ok,
    ensures
        forall|key: u64| #[trigger]
            (w.record)(child.loc(), key) is Some == world::found(
                headers_read(store, child)->Ok_0,
                key,
            ) is Some,
        store.knows_leaf(child.loc()) ==> world::leaf_agrees(
            w,
            child.loc(),
            headers_read(store, child)->Ok_0,
        ),
{
    if child.object_size > usize::MAX || store.knows_leaf(child.loc()) {
        steps::lemma_reads_leaf(w, store, child);
    } else {
        reveal(world::agrees);
        let at = headers_index(store.headers, child.loc());
        lemma_headers_index(store.headers, child.loc());
        assert(store.headers[at].loc == child.loc());
    }
}

/// A record that was read is the one the leaf stands for.
pub proof fn lemma_reads_point(w: World, store: StoreView, child: ChildView, key: u64)
    requires
        world::agrees(w, store),
        point_read(store, child, key) is Ok,
    ensures
        (w.record)(child.loc(), key) == point_read(store, child, key)->Ok_0,
        point_read(store, child, key)->Ok_0 matches Some(record) ==> record.id == key,
{
    let records = headers_read(store, child)->Ok_0;
    lemma_reads_headers(w, store, child);
    lemma_headers_shape(store, child);
    if store.knows_leaf(child.loc()) {
        if world::found(records, key) is Some {
            let k = leaves::lemma_found_some(records, key);
        }
    } else if world::found(records, key) is Some {
        reveal(world::agrees);
        let row = row_of_key(records, key) as u64;
        let at = row_index(store.rows, child.loc(), row);
        lemma_row_index(store.rows, child.loc(), row);
        let part = store.rows[at];
        assert(row_agrees(w, part));
    }
}

// Reading in part and reading whole.

/// Records without their files and overlays.
pub open spec fn bare(records: Seq<FragmentView>) -> Seq<FragmentView> {
    records.map_values(
        |record: FragmentView|
            FragmentView { files: Seq::empty(), overlays: Seq::empty(), ..record },
    )
}

/// Whether headers count the rows of the records they hold.
spec fn tallied(headers: HeadersView) -> bool {
    &&& node::summed(node::row_counts(headers.kept), Aggregate::TotalRows) == Ok::<u64, Error>(
        headers.total_rows,
    )
    &&& node::summed(node::visible_counts(headers.kept), Aggregate::VisibleRows) == Ok::<
        u64,
        Error,
    >(headers.visible_rows)
}

proof fn lemma_header_tallied(headers: HeadersView, id: u64, cell: HeaderView)
    requires
        tallied(headers),
        leaf::header_added(headers, id, cell).1 is None,
    ensures
        tallied(leaf::header_added(headers, id, cell).0),
{
    let after = leaf::header_added(headers, id, cell).0;
    let rows = node::row_counts(after.kept);
    let visible = node::visible_counts(after.kept);
    assert(rows.drop_last() =~= node::row_counts(headers.kept));
    assert(visible.drop_last() =~= node::visible_counts(headers.kept));
}

proof fn lemma_rows_tallied(
    headers: HeadersView,
    ids: Seq<Option<u64>>,
    cells: Seq<Option<HeaderView>>,
    rows: int,
)
    requires
        tallied(headers),
        leaf::headers_added(headers, ids, cells, rows).1 is None,
    ensures
        tallied(leaf::headers_added(headers, ids, cells, rows).0),
    decreases rows,
{
    if rows > 0 {
        lemma_rows_tallied(headers, ids, cells, rows - 1);
        let before = leaf::headers_added(headers, ids, cells, rows - 1).0;
        lemma_header_tallied(before, ids[rows - 1]->0, cells[rows - 1]->0);
    }
}

proof fn lemma_batches_tallied(batches: Seq<BatchView>, n: int)
    requires
        leaf_reads::batches_added(leaf_reads::no_headers(), batches, n).1 is None,
    ensures
        tallied(leaf_reads::batches_added(leaf_reads::no_headers(), batches, n).0),
    decreases n,
{
    if n > 0 {
        lemma_batches_tallied(batches, n - 1);
        let before = leaf_reads::batches_added(leaf_reads::no_headers(), batches, n - 1).0;
        let batch = batches[n - 1];
        lemma_rows_tallied(before, batch.ids, batch.headers, batch.ids.len() as int);
    } else {
        let none = leaf_reads::no_headers();
        assert(node::row_counts(none.kept) =~= Seq::<u64>::empty());
        assert(node::visible_counts(none.kept) =~= Seq::<u64>::empty());
    }
}

/// Whether headers are those of the records of a leaf.
pub open spec fn heads(part: HeadersPart, stored: LeafView) -> bool {
    let (headers, error) = leaf_reads::batches_added(
        leaf_reads::no_headers(),
        part.batches,
        part.batches.len() as int,
    );
    &&& part.object_size == stored.object_size
    &&& part.num_rows == stored.fragments.len()
    &&& error is None
    &&& headers.kept == bare(stored.fragments)
}

/// Headers are refused where the whole leaf is, whatever a reference says.
proof fn lemma_headers_refuse(whole: StoreView, part: StoreView, child: ChildView)
    requires
        whole.knows_leaf(child.loc()),
        !part.knows_leaf(child.loc()),
        part.knows_headers(child.loc()),
        ({
            let stored = whole.leaves[store::leaf_index(whole.leaves, child.loc())];
            &&& heads(part.headers[headers_index(part.headers, child.loc())], stored)
            &&& stored.fragments.len() > 0
        }),
    ensures
        headers_read(part, child) is Ok == store::leaf_read(whole, child) is Ok,
        headers_read(part, child) matches Err(why) ==> why is Some,
        headers_read(part, child) matches Ok(records) ==> records == bare(
            whole.leaves[store::leaf_index(whole.leaves, child.loc())].fragments,
        ),
{
    let stored = whole.leaves[store::leaf_index(whole.leaves, child.loc())];
    let known = part.headers[headers_index(part.headers, child.loc())];
    let n = known.batches.len() as int;
    let headers = leaf_reads::batches_added(leaf_reads::no_headers(), known.batches, n).0;
    let fragments = stored.fragments;
    lemma_batches_tallied(known.batches, n);
    lemma_batches_orderly(known.batches, n);
    assert(node::row_counts(headers.kept) =~= node::row_counts(fragments));
    assert(node::visible_counts(headers.kept) =~= node::visible_counts(fragments));
    assert(headers.kept[0].id == fragments[0].id);
    assert(store::misordered(fragments, fragments.len() as int) is None) by {
        lemma_ordered(fragments, headers.kept, fragments.len() as int);
    }
}

proof fn lemma_ordered(fragments: Seq<FragmentView>, kept: Seq<FragmentView>, n: int)
    requires
        kept == bare(fragments),
        store::ascending(kept),
        n <= fragments.len(),
    ensures
        store::misordered(fragments, n) is None,
    decreases n,
{
    if n > 1 {
        lemma_ordered(fragments, kept, n - 1);
        assert(kept[n - 2].id == fragments[n - 2].id);
        assert(kept[n - 1].id == fragments[n - 1].id);
    }
}

/// A point read of a leaf gives what a whole read of it holds, and is refused
/// where a whole read is, whatever a reference says of the leaf.
pub proof fn law_point_reads_match_whole_reads(
    whole: StoreView,
    part: StoreView,
    child: ChildView,
    key: u64,
)
    requires
        whole.knows_leaf(child.loc()),
        !part.knows_leaf(child.loc()),
        part.knows_headers(child.loc()),
        ({
            let stored = whole.leaves[store::leaf_index(whole.leaves, child.loc())];
            &&& heads(part.headers[headers_index(part.headers, child.loc())], stored)
            &&& 0 < stored.fragments.len() <= u64::MAX
            &&& forall|row: u64|
                row < stored.fragments.len() ==> #[trigger] part.knows_row(child.loc(), row)
                    && part.rows[row_index(part.rows, child.loc(), row)].fragments
                    == seq![stored.fragments[row as int]]
        }),
    ensures
        match store::leaf_read(whole, child) {
            Ok(records) => point_read(part, child, key) == Ok::<
                Option<FragmentView>,
                Option<Error>,
            >(world::found(records, key)),
            Err(_) => point_read(part, child, key) matches Err(Some(_)),
        },
{
    lemma_headers_refuse(whole, part, child);
    let stored = whole.leaves[store::leaf_index(whole.leaves, child.loc())];
    if store::leaf_read(whole, child) is Ok {
        let records = store::leaf_read(whole, child)->Ok_0;
        let headers = headers_read(part, child)->Ok_0;
        steps::lemma_leaf_shape(whole, child);
        if world::found(headers, key) is Some {
            let k = leaves::lemma_found_some(headers, key);
            let row = row_of_key(headers, key);
            assert(headers[row].id == key);
            assert(headers[row].id == stored.fragments[row].id);
            assert(part.knows_row(child.loc(), row as u64));
            assert(records[row].id == key);
            leaves::lemma_found(records, row);
        } else if world::found(records, key) is Some {
            let k = leaves::lemma_found_some(records, key);
            assert(headers[k].id == key);
        }
    }
}

/// The id and header columns of some records.
pub open spec fn header_columns(fragments: Seq<FragmentView>) -> BatchView {
    let columns = leaf::leaf_columns(fragments);
    BatchView { ids: columns.ids, headers: columns.headers }
}

/// A sum that can be had can be had of the first values.
proof fn lemma_summed_prefix(values: Seq<u64>, name: Aggregate, n: int)
    requires
        0 <= n <= values.len(),
        node::summed(values, name) is Ok,
    ensures
        node::summed(values.take(n), name) is Ok,
    decreases values.len(),
{
    if n == values.len() {
        assert(values.take(n) =~= values);
    } else {
        lemma_summed_prefix(values.drop_last(), name, n);
        assert(values.drop_last().take(n) =~= values.take(n));
    }
}

proof fn lemma_headers_added(fragments: Seq<FragmentView>, n: int)
    requires
        0 <= n <= fragments.len(),
        forall|i: int| 0 <= i < fragments.len() ==> (#[trigger] fragments[i]).storable(),
        store::ascending(fragments),
        node::summed(node::row_counts(fragments), Aggregate::TotalRows) is Ok,
        node::summed(node::visible_counts(fragments), Aggregate::VisibleRows) is Ok,
    ensures
        ({
            let columns = header_columns(fragments);
            let (headers, error) = leaf::headers_added(
                leaf_reads::no_headers(),
                columns.ids,
                columns.headers,
                n,
            );
            &&& error is None
            &&& headers.kept == bare(fragments.take(n))
            &&& orderly(headers)
            &&& tallied(headers)
        }),
    decreases n,
{
    let columns = header_columns(fragments);
    let none = leaf_reads::no_headers();
    lemma_batches_tallied(Seq::empty(), 0);
    if n == 0 {
        assert(bare(fragments.take(0)) =~= Seq::<FragmentView>::empty());
    } else {
        lemma_headers_added(fragments, n - 1);
        let before = leaf::headers_added(none, columns.ids, columns.headers, n - 1).0;
        let fragment = fragments[n - 1];
        let plain = FragmentView { files: Seq::empty(), overlays: Seq::empty(), ..fragment };
        let header = leaf::shell(fragment);
        assert(plain.storable());
        pb::law_stored_record_reads_back(plain);
        assert(plain.encoded() == (DataFragmentView { id: fragment.id, ..header }));
        let rows = node::row_counts(fragments);
        let visible = node::visible_counts(fragments);
        lemma_summed_prefix(rows, Aggregate::TotalRows, n);
        lemma_summed_prefix(visible, Aggregate::VisibleRows, n);
        assert(rows.take(n).drop_last() =~= node::row_counts(before.kept));
        assert(visible.take(n).drop_last() =~= node::visible_counts(before.kept));
        assert(fragments.take(n) =~= fragments.take(n - 1).push(fragment));
        if n > 1 {
            assert(before.kept.last().id == fragments[n - 2].id);
            assert(fragments[n - 2].id < fragments[n - 1].id);
        }
        assert(before.kept.push(plain) =~= bare(fragments.take(n)));
        lemma_header_orderly(before, fragment.id, HeaderView::Record(header));
        lemma_header_tallied(before, fragment.id, HeaderView::Record(header));
    }
}

/// The id and header columns of a leaf give its records back without their
/// files and overlays, where the records can be stored in one leaf.
pub proof fn law_headers_of_a_leaf_read_back(
    fragments: Seq<FragmentView>,
    loc: Loc,
    object_size: u64,
)
    requires
        forall|i: int| 0 <= i < fragments.len() ==> (#[trigger] fragments[i]).storable(),
        store::ascending(fragments),
        fragments.len() <= u64::MAX,
        node::leaf_summary(loc.path, fragments, object_size, 0) is Ok,
    ensures
        heads(
            HeadersPart {
                loc,
                object_size,
                num_rows: fragments.len() as u64,
                batches: seq![header_columns(fragments)],
            },
            LeafView { loc, object_size, fragments },
        ),
{
    let columns = header_columns(fragments);
    let batches = seq![columns];
    let none = leaf_reads::no_headers();
    lemma_headers_added(fragments, fragments.len() as int);
    assert(fragments.take(fragments.len() as int) =~= fragments);
    assert(leaf_reads::batches_added(none, batches, 0) == (none, None::<Error>));
    assert(leaf_reads::batches_added(none, batches, 1) == leaf::headers_extended(
        none,
        columns.ids,
        columns.headers,
    ));
}

// Reading.

impl NodeStore {
    fn find_headers(&self, path: &String, base_id: Option<u32>) -> (r: usize)
        ensures
            r == headers_index(self@.headers, (Loc { path: path@, base_id })),
            r <= self.headers@.len(),
    {
        let ghost loc = Loc { path: path@, base_id };
        let ghost all = self@.headers;
        let mut i: usize = 0;
        proof {
            lemma_headers_index(all, loc);
        }
        while i < self.headers.len() && !same::place(
            &self.headers[i].path,
            self.headers[i].base_id,
            path,
            base_id,
        )
            invariant
                i <= self.headers@.len(),
                all == self@.headers,
                loc == (Loc { path: path@, base_id }),
                forall|k: int| 0 <= k < i ==> (#[trigger] all[k]).loc != loc,
            decreases self.headers@.len() - i,
        {
            assert(all[i as int] == self.headers@[i as int]@);
            i = i + 1;
        }
        proof {
            let at = headers_index(all, loc);
            if i < all.len() {
                assert(all[i as int] == self.headers@[i as int]@);
            }
            if at < i {
                assert(all[at].loc != loc);
            }
            if i < at {
                assert(all[i as int].loc != loc);
            }
        }
        i
    }

    fn find_row(&self, path: &String, base_id: Option<u32>, row: u64) -> (r: usize)
        ensures
            r == row_index(self@.rows, (Loc { path: path@, base_id }), row),
            r <= self.rows@.len(),
    {
        let ghost loc = Loc { path: path@, base_id };
        let ghost all = self@.rows;
        let mut i: usize = 0;
        proof {
            lemma_row_index(all, loc, row);
        }
        while i < self.rows.len() && !(self.rows[i].row == row && same::place(
            &self.rows[i].path,
            self.rows[i].base_id,
            path,
            base_id,
        ))
            invariant
                i <= self.rows@.len(),
                all == self@.rows,
                loc == (Loc { path: path@, base_id }),
                forall|k: int|
                    0 <= k < i ==> (#[trigger] all[k]).loc != loc || all[k].row != row,
            decreases self.rows@.len() - i,
        {
            assert(all[i as int] == self.rows@[i as int]@);
            i = i + 1;
        }
        proof {
            let at = row_index(all, loc, row);
            if i < all.len() {
                assert(all[i as int] == self.rows@[i as int]@);
            }
            if at < i {
                assert(all[at].loc != loc || all[at].row != row);
            }
            if i < at {
                assert(all[i as int].loc != loc || all[i as int].row != row);
            }
        }
        i
    }

    /// Hand over the headers of a leaf. Headers that are already known are
    /// ignored.
    pub fn load_headers(&mut self, stored: StoredHeaders)
        ensures
            final(self)@ == (if old(self)@.knows_headers(stored@.loc) {
                old(self)@
            } else {
                StoreView { headers: old(self)@.headers.push(stored@), ..old(self)@ }
            }),
    {
        let at: usize = self.find_headers(&stored.path, stored.base_id);
        if at == self.headers.len() {
            self.headers.push(stored);
        }
    }

    /// Hand over one row of a leaf. A row that is already known is ignored.
    pub fn load_row(&mut self, stored: StoredRow)
        ensures
            final(self)@ == (if old(self)@.knows_row(stored@.loc, stored@.row) {
                old(self)@
            } else {
                StoreView { rows: old(self)@.rows.push(stored@), ..old(self)@ }
            }),
    {
        let at: usize = self.find_row(&stored.path, stored.base_id, stored.row);
        if at == self.rows.len() {
            self.rows.push(stored);
        }
    }

    /// A leaf's records without their files and overlays, checked against the
    /// reference as a whole read is. They carry every count a buffered action
    /// changes.
    pub fn read_leaf_headers(&self, child: &FragmentMetadataChild) -> (r: Result<
        Vec<Fragment>,
        Stop,
    >)
        ensures
            match headers_read(self@, child@) {
                Ok(fragments) => r is Ok && views::all(r->Ok_0@) == fragments,
                Err(Some(error)) => r == Err::<Vec<Fragment>, Stop>(Stop::Fail(error)),
                Err(None) => r matches Err(Stop::Need(Request::Headers(wanted))) && wanted@
                    == child@,
            },
            r matches Err(stop) ==> store::honest(stop, self@),
    {
        if child.object_size > usize::MAX as u64 || self.holds_leaf(&child.path, child.base_id) {
            return self.read_leaf(child);
        }
        let at: usize = self.find_headers(&child.path, child.base_id);
        if at == self.headers.len() {
            return Err(Stop::Need(Request::Headers(child.clone())));
        }
        let stored = &self.headers[at];
        assert(self@.headers[at as int] == stored@);
        if stored.object_size != child.object_size {
            return Err(
                Stop::Fail(
                    Error::CorruptFile {
                        reason: Reason::LeafSize {
                            declared: child.object_size,
                            found: stored.object_size,
                        },
                    },
                ),
            );
        }
        match leaf_reads::headers_of(child, stored.num_rows, &stored.batches) {
            Ok(records) => Ok(records),
            Err(error) => Err(Stop::Fail(error)),
        }
    }

    /// One record of a leaf. Every check of the reference still holds, but only
    /// the returned record is decoded and validated in full; corruption
    /// confined to other records surfaces when the leaf is read whole.
    pub fn read_leaf_fragment(&self, child: &FragmentMetadataChild, fragment_id: u64) -> (r: Result<
        Option<Fragment>,
        Stop,
    >)
        ensures
            match point_read(self@, child@, fragment_id) {
                Ok(record) => r is Ok && views::opt(r->Ok_0) == record,
                Err(Some(error)) => r == Err::<Option<Fragment>, Stop>(Stop::Fail(error)),
                Err(None) => r matches Err(Stop::Need(_)),
            },
            r matches Err(stop) ==> store::honest(stop, self@),
    {
        let mut records = match self.read_leaf_headers(child) {
            Ok(records) => records,
            Err(stop) => {
                return Err(stop);
            },
        };
        let ghost all = views::all(records@);
        proof {
            lemma_headers_shape(self@, child@);
        }
        let row: usize = match leaf_reads::row_of(&records, fragment_id) {
            None => {
                proof {
                    if world::found(all, fragment_id) is Some {
                        let k = leaves::lemma_found_some(all, fragment_id);
                        assert(all[k] == records@[k]@);
                    }
                }
                return Ok(None);
            },
            Some(row) => row,
        };
        proof {
            assert(all[row as int] == records@[row as int]@);
            leaves::lemma_found(all, row as int);
            let other = row_of_key(all, fragment_id);
            assert(all[other].id == fragment_id);
            assert(other == row) by {
                if other < row {
                    assert(all[other].id < all[row as int].id);
                } else if other > row {
                    assert(all[row as int].id < all[other].id);
                }
            }
        }
        if self.holds_leaf(&child.path, child.base_id) {
            return Ok(Some(records[row].clone()));
        }
        let at: usize = self.find_row(&child.path, child.base_id, row as u64);
        if at == self.rows.len() {
            return Err(Stop::Need(Request::Row(child.clone(), row as u64)));
        }
        assert(self@.rows[at as int] == self.rows@[at as int]@);
        match leaf_reads::checked_row(
            &self.rows[at].fragments,
            row as u64,
            fragment_id,
            child.base_id,
        ) {
            Ok(fragment) => Ok(Some(fragment)),
            Err(error) => Err(Stop::Fail(error)),
        }
    }
}

} // verus!
