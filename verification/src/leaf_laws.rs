//! What the columns of a leaf read as, and what they are refused for.

use vstd::prelude::*;

use crate::error::{Error, Reason};
use crate::le;
use crate::leaf;
use crate::leaf::{FilesView, HeaderView, HeadersView, LeafColumnsView, MappingView,
    OverlayCellView};
use crate::leaf_reads;
use crate::leaf_reads::BatchView;
use crate::partial;
use crate::pb::{ChildView, DataFragmentView};
use crate::reading_laws;
use crate::record::{FileView, FragmentView, OverlayView};
use crate::store;
use crate::store::StoreView;

verus! {

/// Whether the mapping of a data file is whole: in files of the first format,
/// up to version 0.2, the field ids strictly increase; in later ones every field
/// has a column index.
pub open spec fn whole_mapping(file: FileView) -> bool {
    if file.file_major_version == 0 && file.file_minor_version <= 2 {
        forall|i: int, j: int| 0 <= i < j < file.fields.len() ==> file.fields[i] < file.fields[j]
    } else {
        file.fields.len() <= file.column_indices.len()
    }
}

/// A data file is refused exactly where its mapping is not whole, by what its
/// format asks for.
pub proof fn law_file_is_refused_without_its_mapping(file: FileView)
    ensures
        leaf::file_fault(file) is None == whole_mapping(file),
        leaf::file_fault(file) matches Some(reason) ==> if file.file_major_version == 0
            && file.file_minor_version <= 2 {
            reason == Reason::UnsortedFieldIds
        } else {
            reason == Reason::FewerColumnIndices
        },
{
    if file.file_major_version == 0 && file.file_minor_version <= 2 {
        if leaf::file_fault(file) is None {
            assert forall|i: int, j: int| 0 <= i < j < file.fields.len() implies file.fields[i]
                < file.fields[j] by {
                lemma_increases(file.fields, i, j);
            }
        }
    }
}

proof fn lemma_increases(fields: Seq<i32>, i: int, j: int)
    requires
        0 <= i < j < fields.len(),
        forall|k: int| 0 < k < fields.len() ==> fields[k - 1] < #[trigger] fields[k],
    ensures
        fields[i] < fields[j],
    decreases j - i,
{
    assert(fields[j - 1] < fields[j]);
    if i < j - 1 {
        lemma_increases(fields, i, j - 1);
    }
}

proof fn lemma_no_file_fault(files: Seq<FileView>)
    ensures
        leaf::first_file_fault(files) is None == forall|i: int|
            0 <= i < files.len() ==> whole_mapping(#[trigger] files[i]),
    decreases files.len(),
{
    if files.len() > 0 {
        let rest = files.drop_last();
        lemma_no_file_fault(rest);
        law_file_is_refused_without_its_mapping(files.last());
        if leaf::first_file_fault(files) is None {
            assert forall|i: int| 0 <= i < files.len() implies whole_mapping(
                #[trigger] files[i],
            ) by {
                if i < rest.len() {
                    assert(rest[i] == files[i]);
                }
            }
        } else if forall|i: int| 0 <= i < files.len() ==> whole_mapping(#[trigger] files[i]) {
            assert forall|i: int| 0 <= i < rest.len() implies whole_mapping(#[trigger] rest[i]) by {
                assert(rest[i] == files[i]);
            }
            assert(whole_mapping(files[files.len() - 1]));
        }
    }
}

/// How many items the rows before a row have.
pub open spec fn items_before(lengths: Seq<Option<usize>>, row: int) -> int
    decreases row,
{
    if row <= 0 {
        0
    } else {
        items_before(lengths, row - 1) + lengths[row - 1]->0
    }
}

proof fn lemma_items_before(lengths: Seq<Option<usize>>, row: int)
    requires
        0 <= row <= lengths.len(),
        forall|i: int| 0 <= i < lengths.len() ==> (#[trigger] lengths[i]) is Some,
    ensures
        items_before(lengths, row) == leaf::start_of(lengths, row),
    decreases row,
{
    if row > 0 {
        lemma_items_before(lengths, row - 1);
        assert(lengths[row - 1] is Some);
    }
}

/// Whether a row of a column names a stored list, and which numbers it holds.
pub open spec fn spells_list(column: MappingView, row: int, list: Seq<i32>) -> bool {
    &&& column.keys[row] matches Some(key)
    &&& 0 <= key < column.values.len()
    &&& column.values[key as int] matches Some(bytes)
    &&& bytes.len() % 4 == 0
    &&& le::i32_values(bytes) == list
}

/// Whether a row of some columns describes a data file.
pub open spec fn describes_file(columns: FilesView, row: int, file: FileView) -> bool {
    &&& columns.valid[row]
    &&& columns.path[row] == Some(file.path)
    &&& spells_list(columns.field_ids, row, file.fields)
    &&& spells_list(columns.column_indices, row, file.column_indices)
    &&& columns.major_version[row] == Some(file.file_major_version)
    &&& columns.minor_version[row] == Some(file.file_minor_version)
    &&& columns.file_size_bytes[row] == Some(file.file_size_bytes)
    &&& columns.base_id[row] == file.base_id
    &&& whole_mapping(file)
}

/// Whether a row of a leaf describes an overlay.
pub open spec fn describes_overlay(leaf: LeafColumnsView, row: int, overlay: OverlayView) -> bool {
    &&& leaf.overlay_valid[row]
    &&& describes_file(leaf.overlay_files, row, overlay.data_file)
    &&& leaf.overlay_meta[row] == Some(OverlayCellView::Meta(overlay.overlay_meta))
}

/// Whether a row of a leaf describes a record: its id, which fits 32 bits and
/// is above that of the row before, its own files and overlays, and what its
/// header says besides.
pub open spec fn describes_record(leaf: LeafColumnsView, row: int, record: FragmentView) -> bool {
    let files_from = items_before(leaf.file_lengths, row);
    let overlays_from = items_before(leaf.overlay_lengths, row);
    &&& leaf.ids[row] == Some(record.id)
    &&& record.id <= u32::MAX
    &&& row > 0 ==> (leaf.ids[row - 1] matches Some(previous) && previous < record.id)
    &&& leaf.file_lengths[row] matches Some(n) && n == record.files.len()
    &&& leaf.overlay_lengths[row] matches Some(n) && n == record.overlays.len()
    &&& forall|k: int|
        0 <= k < record.files.len() ==> describes_file(
            leaf.files,
            files_from + k,
            #[trigger] record.files[k],
        )
    &&& forall|k: int|
        0 <= k < record.overlays.len() ==> describes_overlay(
            leaf,
            overlays_from + k,
            #[trigger] record.overlays[k],
        )
    &&& leaf.headers[row] matches Some(HeaderView::Record(header)) && header.id == 0
        && header.files.len() == 0 && header.overlays.len() == 0 && (DataFragmentView {
        id: record.id,
        overlays: record.overlays,
        ..header
    }).decoded() == Ok::<FragmentView, Error>(FragmentView { files: Seq::empty(), ..record })
}

proof fn lemma_rows(leaf: LeafColumnsView, rows: int, i: int)
    requires
        leaf::row_records(leaf, rows) is Ok,
        0 <= i < rows,
    ensures
        leaf::row_records(leaf, rows)->Ok_0.len() == rows,
        leaf::row_record(leaf, i) == Ok::<FragmentView, Error>(
            leaf::row_records(leaf, rows)->Ok_0[i],
        ),
    decreases rows,
{
    reveal_with_fuel(leaf::row_records, 2);
    if rows > 1 {
        lemma_rows(leaf, rows - 1, if i < rows - 1 {
            i
        } else {
            0
        });
    }
}

proof fn lemma_spelled(column: MappingView, field: crate::error::LeafField, row: int)
    requires
        leaf::mapping_fault(column, field) is None,
        0 <= row < column.keys.len(),
    ensures
        spells_list(column, row, leaf::mapped(column, row)),
{
    assert(column.keys[row] is Some);
    leaf::lemma_no_stray_key(
        column.keys,
        column.values.len(),
        column.keys.len() as int,
        row,
    );
    let key = column.keys[row]->0 as int;
    assert(column.values[key] is Some);
    leaf::lemma_no_odd_width(column.values, column.values.len() as int, key);
}

proof fn lemma_described_file(
    columns: FilesView,
    field: crate::error::LeafField,
    rows: nat,
    row: int,
)
    requires
        leaf::files_fault(columns, field) is None,
        leaf::even(columns, rows),
        0 <= row < rows,
        whole_mapping(leaf::file_at(columns, row)),
    ensures
        describes_file(columns, row, leaf::file_at(columns, row)),
{
    lemma_spelled(columns.field_ids, crate::error::LeafField::FieldIds, row);
    lemma_spelled(columns.column_indices, crate::error::LeafField::ColumnIndices, row);
    if !columns.valid[row] {
        assert(columns.valid.contains(false));
    }
    assert(columns.path[row] is Some);
    assert(columns.major_version[row] is Some);
    assert(columns.minor_version[row] is Some);
    assert(columns.file_size_bytes[row] is Some);
}

proof fn lemma_overlay_cells(cells: Seq<Option<OverlayCellView>>, from: int, to: int, i: int)
    requires
        leaf::overlay_fault(cells, from, to) is None,
        from <= i < to,
    ensures
        cells[i]->0 is Meta,
    decreases to - from,
{
    if i < to - 1 {
        lemma_overlay_cells(cells, from, to - 1, i);
    }
}

/// A leaf that is read gives one record for each row, in increasing order of
/// their ids, and every record is what the columns say of its row. No row lacks
/// a value that it must have.
pub proof fn law_leaf_reads_as_its_columns(leaf: LeafColumnsView, records: Seq<FragmentView>)
    requires
        leaf.shaped(),
        leaf::leaf_records(leaf) == Ok::<Seq<FragmentView>, Error>(records),
    ensures
        records.len() == leaf.ids.len(),
        forall|i: int|
            0 <= i < records.len() ==> describes_record(leaf, i, #[trigger] records[i]),
{
    let rows = leaf.ids.len() as int;
    if rows > 0 {
        lemma_rows(leaf, rows, 0);
    }
    assert forall|i: int| 0 <= i < records.len() implies describes_record(
        leaf,
        i,
        #[trigger] records[i],
    ) by {
        lemma_rows(leaf, rows, i);
        lemma_described_record(leaf, i, records[i]);
    }
}

proof fn lemma_described_record(leaf: LeafColumnsView, row: int, record: FragmentView)
    requires
        leaf.shaped(),
        leaf::columns_fault(leaf) is None,
        0 <= row < leaf.ids.len(),
        leaf::row_record(leaf, row) == Ok::<FragmentView, Error>(record),
    ensures
        describes_record(leaf, row, record),
{
    let bare = leaf::bare_record(leaf, row)->Ok_0;
    let header = leaf.headers[row]->0->Record_0;
    let ff = leaf::start_of(leaf.file_lengths, row) as int;
    let ft = leaf::start_of(leaf.file_lengths, row + 1) as int;
    let of = leaf::start_of(leaf.overlay_lengths, row) as int;
    let ot = leaf::start_of(leaf.overlay_lengths, row + 1) as int;
    assert(leaf.ids[row] is Some);
    assert(leaf.headers[row] is Some);
    assert(leaf.file_lengths[row] is Some);
    assert(leaf.overlay_lengths[row] is Some);
    lemma_items_before(leaf.file_lengths, row);
    lemma_items_before(leaf.overlay_lengths, row);
    leaf::lemma_starts(leaf.file_lengths, row + 1, leaf.ids.len() as int);
    leaf::lemma_starts(leaf.overlay_lengths, row + 1, leaf.ids.len() as int);
    if row > 0 {
        assert(leaf.ids[row - 1] is Some);
    }
    let filled = DataFragmentView {
        id: leaf.ids[row]->0,
        overlays: leaf::overlays_at(leaf, of, ot),
        ..header
    };
    assert(filled.decoded() == Ok::<FragmentView, Error>(bare));
    assert(bare.files =~= Seq::<FileView>::empty());
    assert((FragmentView { files: Seq::empty(), ..record }) == bare);
    lemma_no_file_fault(record.files);
    lemma_no_file_fault(leaf::overlay_data_files(record.overlays));
    assert forall|k: int| 0 <= k < record.files.len() implies describes_file(
        leaf.files,
        ff + k,
        #[trigger] record.files[k],
    ) by {
        assert(whole_mapping(record.files[k]));
        lemma_described_file(
            leaf.files,
            crate::error::LeafField::Item,
            leaf.files.valid.len(),
            ff + k,
        );
    }
    assert forall|k: int| 0 <= k < record.overlays.len() implies describes_overlay(
        leaf,
        of + k,
        #[trigger] record.overlays[k],
    ) by {
        assert(leaf::overlay_data_files(record.overlays)[k] == record.overlays[k].data_file);
        assert(whole_mapping(leaf::overlay_data_files(record.overlays)[k]));
        lemma_described_file(
            leaf.overlay_files,
            crate::error::LeafField::DataFile,
            leaf.overlay_files.valid.len(),
            of + k,
        );
        if !leaf.overlay_valid[of + k] {
            assert(leaf.overlay_valid.contains(false));
        }
        assert(leaf.overlay_meta[of + k] is Some);
        lemma_overlay_cells(leaf.overlay_meta, of, ot, of + k);
    }
}

/// Whether headers hold the records of some ids, with their counts summed.
pub open spec fn tallied(headers: HeadersView) -> bool {
    let kept = headers.kept;
    &&& headers.total_rows == reading_laws::rows_of(kept)
    &&& headers.visible_rows == reading_laws::rows_left_of(kept)
    &&& kept.len() > 0 ==> headers.first_id == Some(kept[0].id) && headers.last_id == Some(
        kept.last().id,
    )
    &&& kept.len() == 0 ==> headers.first_id is None && headers.last_id is None
    &&& forall|i: int, j: int|
        0 <= i < j < kept.len() ==> (#[trigger] kept[i]).id < (#[trigger] kept[j]).id
    &&& forall|i: int|
        0 <= i < kept.len() ==> (#[trigger] kept[i]).id <= u32::MAX && kept[i].files.len() == 0
            && kept[i].overlays.len() == 0
}

proof fn lemma_rows_push(kept: Seq<FragmentView>, record: FragmentView)
    ensures
        reading_laws::rows_of(kept.push(record)) == reading_laws::rows_of(kept)
            + reading_laws::rows_in(record),
        reading_laws::rows_left_of(kept.push(record)) == reading_laws::rows_left_of(kept)
            + reading_laws::rows_left(record),
{
    let more = kept.push(record);
    let rows = Seq::new(more.len(), |i: int| reading_laws::rows_in(more[i]));
    let left = Seq::new(more.len(), |i: int| reading_laws::rows_left(more[i]));
    assert(rows.drop_last() =~= Seq::new(kept.len(), |i: int| reading_laws::rows_in(kept[i])));
    assert(left.drop_last() =~= Seq::new(kept.len(), |i: int| reading_laws::rows_left(kept[i])));
}

proof fn lemma_header_tallied(headers: HeadersView, id: u64, cell: HeaderView)
    requires
        tallied(headers),
        leaf::header_added(headers, id, cell).1 is None,
    ensures
        tallied(leaf::header_added(headers, id, cell).0),
        ({
            let kept = leaf::header_added(headers, id, cell).0.kept;
            kept.len() == headers.kept.len() + 1 && kept.last().id == id
        }),
{
    let header = cell->Record_0;
    let record = (DataFragmentView { id, ..header }).decoded()->Ok_0;
    lemma_rows_push(headers.kept, record);
    assert(record.files =~= Seq::<FileView>::empty());
    assert(record.overlays =~= Seq::<OverlayView>::empty());
    assert(record.id == id);
    let kept = headers.kept.push(record);
    assert forall|i: int, j: int| 0 <= i < j < kept.len() implies (#[trigger] kept[i]).id < (
    #[trigger] kept[j]).id by {
        if j == headers.kept.len() {
            let last = headers.kept.len() - 1;
            if i < last {
                assert(headers.kept[i].id < headers.kept[last].id);
            }
        }
    }
}

proof fn lemma_headers_tallied(
    headers: HeadersView,
    ids: Seq<Option<u64>>,
    cells: Seq<Option<HeaderView>>,
    rows: int,
)
    requires
        tallied(headers),
        rows >= 0,
        leaf::headers_added(headers, ids, cells, rows).1 is None,
    ensures
        tallied(leaf::headers_added(headers, ids, cells, rows).0),
        leaf::headers_added(headers, ids, cells, rows).0.kept.len() == headers.kept.len() + rows,
    decreases rows,
{
    if rows > 0 {
        lemma_headers_tallied(headers, ids, cells, rows - 1);
        let before = leaf::headers_added(headers, ids, cells, rows - 1).0;
        lemma_header_tallied(before, ids[rows - 1]->0, cells[rows - 1]->0);
    }
}

/// Headers that take in rows count every one of them, in increasing order of
/// their ids, with neither files nor overlays. A row without an id or a header
/// is refused.
pub proof fn law_headers_count_their_rows(
    headers: HeadersView,
    ids: Seq<Option<u64>>,
    cells: Seq<Option<HeaderView>>,
)
    requires
        tallied(headers),
    ensures
        leaf::headers_extended(headers, ids, cells).1 is None ==> {
            let after = leaf::headers_extended(headers, ids, cells).0;
            &&& tallied(after)
            &&& after.kept.len() == headers.kept.len() + ids.len()
            &&& forall|i: int| 0 <= i < ids.len() ==> (#[trigger] ids[i]) is Some
            &&& forall|i: int| 0 <= i < cells.len() ==> (#[trigger] cells[i]) is Some
        },
{
    if leaf::headers_extended(headers, ids, cells).1 is None {
        lemma_headers_tallied(headers, ids, cells, ids.len() as int);
    }
}

proof fn lemma_batches_tallied(headers: HeadersView, batches: Seq<BatchView>, n: int)
    requires
        tallied(headers),
        n >= 0,
        leaf_reads::batches_added(headers, batches, n).1 is None,
    ensures
        tallied(leaf_reads::batches_added(headers, batches, n).0),
    decreases n,
{
    if n > 0 {
        lemma_batches_tallied(headers, batches, n - 1);
        law_headers_count_their_rows(
            leaf_reads::batches_added(headers, batches, n - 1).0,
            batches[n - 1].ids,
            batches[n - 1].headers,
        );
    }
}

/// The headers of a leaf are read only where they are what its reference says:
/// as many records as keys, none below where the leaf starts, and with as many
/// rows, before and after deletion.
pub proof fn law_read_headers_agree_with_their_reference(
    child: ChildView,
    num_rows: u64,
    batches: Seq<BatchView>,
    records: Seq<FragmentView>,
)
    requires
        leaf_reads::checked_headers(child, num_rows, batches) == Ok::<Seq<FragmentView>, Error>(
            records,
        ),
    ensures
        num_rows == child.num_keys,
        records.len() == child.num_keys,
        reading_laws::rows_of(records) == child.total_rows,
        reading_laws::rows_left_of(records) == child.visible_rows,
        forall|i: int| 0 <= i < records.len() ==> child.min_key <= (#[trigger] records[i]).id,
        forall|i: int, j: int|
            0 <= i < j < records.len() ==> (#[trigger] records[i]).id < (#[trigger] records[j]).id,
{
    let none = leaf_reads::no_headers();
    assert(reading_laws::rows_of(none.kept) == 0);
    assert(reading_laws::rows_left_of(none.kept) == 0);
    lemma_batches_tallied(none, batches, batches.len() as int);
    assert forall|i: int| 0 <= i < records.len() implies child.min_key <= (
    #[trigger] records[i]).id by {
        if i > 0 {
            assert(records[0].id < records[i].id);
        }
    }
}

/// Reading one row of a leaf gives a record only where the row holds exactly
/// that of the fragment, which is the record given where the leaf is the
/// dataset's own, and is refused with the row and the fragment otherwise.
pub proof fn law_read_row_is_the_fragments(
    decoded: Seq<FragmentView>,
    row: u64,
    id: u64,
    base_id: Option<u32>,
)
    ensures
        match leaf_reads::row_fragment(decoded, row, id, base_id) {
            Ok(record) => {
                &&& decoded.len() == 1
                &&& decoded[0].id == id
                &&& record.id == id
                &&& record.physical_rows == decoded[0].physical_rows
                &&& base_id is None ==> record == decoded[0]
            },
            Err(error) => {
                &&& decoded.len() != 1 || decoded[0].id != id
                &&& error == (Error::CorruptFile { reason: Reason::LeafRow { row, id } })
            },
        },
{
}

/// The headers of a leaf that is not known as a whole are read from those known
/// for its place: of the size and with as many rows as the reference says. They
/// are asked for where none are known, and refused where their size differs.
pub proof fn law_headers_are_read_for_their_reference(
    known: StoreView,
    child: ChildView,
    at: int,
)
    requires
        child.object_size <= usize::MAX,
        forall|i: int|
            0 <= i < known.leaves.len() ==> !reading_laws::at_place(
                (#[trigger] known.leaves[i]).loc.path,
                known.leaves[i].loc.base_id,
                child,
            ),
        0 <= at <= known.headers.len(),
        forall|i: int|
            0 <= i < at ==> !reading_laws::at_place(
                (#[trigger] known.headers[i]).loc.path,
                known.headers[i].loc.base_id,
                child,
            ),
        at < known.headers.len() ==> reading_laws::at_place(
            known.headers[at].loc.path,
            known.headers[at].loc.base_id,
            child,
        ),
    ensures
        at == known.headers.len() ==> partial::headers_read(known, child) == Err::<
            Seq<FragmentView>,
            Option<Error>,
        >(None),
        at < known.headers.len() && known.headers[at].object_size != child.object_size
            ==> partial::headers_read(known, child) == Err::<Seq<FragmentView>, Option<Error>>(
            Some(
                Error::CorruptFile {
                    reason: Reason::LeafSize {
                        declared: child.object_size,
                        found: known.headers[at].object_size,
                    },
                },
            ),
        ),
        partial::headers_read(known, child) matches Ok(records) ==> {
            &&& at < known.headers.len()
            &&& known.headers[at].object_size == child.object_size
            &&& known.headers[at].num_rows == child.num_keys
            &&& records.len() == child.num_keys
            &&& reading_laws::rows_of(records) == child.total_rows
            &&& reading_laws::rows_left_of(records) == child.visible_rows
        },
{
    partial::lemma_headers_index(known.headers, child.loc());
    store::lemma_leaf_index(known.leaves, child.loc());
    let leaf = store::leaf_index(known.leaves, child.loc());
    if leaf < known.leaves.len() {
        assert(reading_laws::at_place(
            known.leaves[leaf].loc.path,
            known.leaves[leaf].loc.base_id,
            child,
        ));
    }
    let found = partial::headers_index(known.headers, child.loc());
    if found < at {
        assert(reading_laws::at_place(
            known.headers[found].loc.path,
            known.headers[found].loc.base_id,
            child,
        ));
    }
    if found > at {
        assert(known.headers[at].loc == child.loc());
    }
    if let Ok(records) = partial::headers_read(known, child) {
        law_read_headers_agree_with_their_reference(
            child,
            known.headers[at].num_rows,
            known.headers[at].batches,
            records,
        );
    }
}

} // verus!
