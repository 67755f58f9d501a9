//! One fragment per row, with ordered files and overlays and
//! dictionary-coded mappings.

use vstd::prelude::*;

use crate::error::{Error, LeafField, Reason};
use crate::le;
use crate::pb;
use crate::pb::{DataFragment, DataFragmentView};
use crate::record::{clone_files, clone_overlays, DataFile, DataOverlayFile, FileView, Fragment,
    FragmentView, LineageMeta, OverlayView};
use crate::validation;
use crate::views;

verus! {

broadcast use crate::views::group_views;

/// A column of lists of numbers: each row names one of the lists. The lists
/// are stored as bytes, four to a number.
pub struct MappingColumn {
    pub keys: Vec<Option<i32>>,
    pub values: Vec<Option<Vec<u8>>>,
}

pub struct MappingView {
    pub keys: Seq<Option<i32>>,
    pub values: Seq<Option<Seq<u8>>>,
}

impl View for MappingColumn {
    type V = MappingView;

    open spec fn view(&self) -> MappingView {
        MappingView { keys: self.keys@, values: views::opts(self.values@) }
    }
}

/// Data files as columns. A row that is not present at all is not valid.
pub struct FileColumns {
    pub valid: Vec<bool>,
    pub path: Vec<Option<String>>,
    pub field_ids: MappingColumn,
    pub column_indices: MappingColumn,
    pub major_version: Vec<Option<u32>>,
    pub minor_version: Vec<Option<u32>>,
    pub file_size_bytes: Vec<Option<u64>>,
    pub base_id: Vec<Option<u32>>,
}

pub struct FilesView {
    pub valid: Seq<bool>,
    pub path: Seq<Option<Seq<char>>>,
    pub field_ids: MappingView,
    pub column_indices: MappingView,
    pub major_version: Seq<Option<u32>>,
    pub minor_version: Seq<Option<u32>>,
    pub file_size_bytes: Seq<Option<u64>>,
    pub base_id: Seq<Option<u32>>,
}

impl View for FileColumns {
    type V = FilesView;

    open spec fn view(&self) -> FilesView {
        FilesView {
            valid: self.valid@,
            path: views::opts(self.path@),
            field_ids: self.field_ids@,
            column_indices: self.column_indices@,
            major_version: self.major_version@,
            minor_version: self.minor_version@,
            file_size_bytes: self.file_size_bytes@,
            base_id: self.base_id@,
        }
    }
}

/// The record of a row without what its other columns hold.
pub enum HeaderCell {
    /// Bytes that are no record.
    Invalid,
    Record(DataFragment),
}

pub enum HeaderView {
    Invalid,
    Record(DataFragmentView),
}

impl View for HeaderCell {
    type V = HeaderView;

    open spec fn view(&self) -> HeaderView {
        match self {
            HeaderCell::Invalid => HeaderView::Invalid,
            HeaderCell::Record(record) => HeaderView::Record(record@),
        }
    }
}

/// An overlay without the data file that its other columns hold.
pub enum OverlayCell {
    /// Bytes that are no overlay.
    Invalid,
    /// An overlay that carries a data file of its own.
    WithDataFile,
    Meta(Vec<u8>),
}

pub enum OverlayCellView {
    Invalid,
    WithDataFile,
    Meta(Seq<u8>),
}

impl View for OverlayCell {
    type V = OverlayCellView;

    open spec fn view(&self) -> OverlayCellView {
        match self {
            OverlayCell::Invalid => OverlayCellView::Invalid,
            OverlayCell::WithDataFile => OverlayCellView::WithDataFile,
            OverlayCell::Meta(bytes) => OverlayCellView::Meta(bytes@),
        }
    }
}

/// The columns of a leaf. The files and the overlays of all rows stand one
/// after another; each row says how many are its own.
pub struct LeafColumns {
    pub ids: Vec<Option<u64>>,
    pub headers: Vec<Option<HeaderCell>>,
    pub file_lengths: Vec<Option<usize>>,
    pub files: FileColumns,
    pub overlay_lengths: Vec<Option<usize>>,
    pub overlay_valid: Vec<bool>,
    pub overlay_files: FileColumns,
    pub overlay_meta: Vec<Option<OverlayCell>>,
}

pub struct LeafColumnsView {
    pub ids: Seq<Option<u64>>,
    pub headers: Seq<Option<HeaderView>>,
    pub file_lengths: Seq<Option<usize>>,
    pub files: FilesView,
    pub overlay_lengths: Seq<Option<usize>>,
    pub overlay_valid: Seq<bool>,
    pub overlay_files: FilesView,
    pub overlay_meta: Seq<Option<OverlayCellView>>,
}

impl View for LeafColumns {
    type V = LeafColumnsView;

    open spec fn view(&self) -> LeafColumnsView {
        LeafColumnsView {
            ids: self.ids@,
            headers: views::opts(self.headers@),
            file_lengths: self.file_lengths@,
            files: self.files@,
            overlay_lengths: self.overlay_lengths@,
            overlay_valid: self.overlay_valid@,
            overlay_files: self.overlay_files@,
            overlay_meta: views::opts(self.overlay_meta@),
        }
    }
}

// Writing.

/// Lists in the order they first appear, and for each of the given lists which
/// of them it is.
pub open spec fn coded(lists: Seq<Seq<i32>>) -> (Seq<int>, Seq<Seq<i32>>)
    decreases lists.len(),
{
    if lists.len() == 0 {
        (Seq::empty(), Seq::empty())
    } else {
        let (keys, values) = coded(lists.drop_last());
        let list = lists.last();
        if values.contains(list) {
            (keys.push(values.index_of(list)), values)
        } else {
            (keys.push(values.len() as int), values.push(list))
        }
    }
}

/// Every list is the one its key names, and no list is there twice.
pub proof fn lemma_coded(lists: Seq<Seq<i32>>)
    ensures
        ({
            let (keys, values) = coded(lists);
            &&& keys.len() == lists.len()
            &&& values.len() <= lists.len()
            &&& values.no_duplicates()
            &&& forall|i: int|
                0 <= i < lists.len() ==> 0 <= #[trigger] keys[i] < values.len()
                    && values[keys[i]] == lists[i]
        }),
    decreases lists.len(),
{
    if lists.len() > 0 {
        let rest = lists.drop_last();
        lemma_coded(rest);
        let (keys, values) = coded(rest);
        let list = lists.last();
        if values.contains(list) {
            let at = values.index_of(list);
            assert(0 <= at < values.len() && values[at] == list);
        }
        let (all, held) = coded(lists);
        assert forall|i: int| 0 <= i < lists.len() implies 0 <= #[trigger] all[i] < held.len()
            && held[all[i]] == lists[i] by {
            if i < rest.len() {
                assert(all[i] == keys[i]);
                assert(rest[i] == lists[i]);
            }
        }
    }
}

/// Lists as a column.
pub open spec fn mapping_column(lists: Seq<Seq<i32>>) -> MappingView {
    let (keys, values) = coded(lists);
    MappingView {
        keys: Seq::new(keys.len(), |i: int| Some(keys[i] as i32)),
        values: Seq::new(values.len(), |i: int| Some(le::i32_bytes(values[i]))),
    }
}

/// Whether some lists have few enough different ones to be coded.
pub open spec fn codable(lists: Seq<Seq<i32>>) -> bool {
    coded(lists).1.len() <= 0x8000_0000
}

fn same_list(a: &Vec<i32>, b: &Vec<i32>) -> (r: bool)
    ensures
        r == (a@ == b@),
{
    if a.len() != b.len() {
        return false;
    }
    let mut i: usize = 0;
    while i < a.len()
        invariant
            i <= a@.len() == b@.len(),
            forall|k: int| 0 <= k < i ==> a@[k] == b@[k],
        decreases a@.len() - i,
    {
        if a[i] != b[i] {
            return false;
        }
        i = i + 1;
    }
    assert(a@ =~= b@);
    true
}

proof fn lemma_coded_grows(lists: Seq<Seq<i32>>, n: int)
    requires
        0 <= n <= lists.len(),
    ensures
        coded(lists.take(n)).1.len() <= coded(lists).1.len(),
    decreases lists.len() - n,
{
    if n < lists.len() {
        lemma_coded_grows(lists, n + 1);
        assert(lists.take(n + 1).drop_last() =~= lists.take(n));
    } else {
        assert(lists.take(n) =~= lists);
    }
}

fn clone_list(list: &Vec<i32>) -> (r: Vec<i32>)
    ensures
        r@ == list@,
{
    let mut out: Vec<i32> = Vec::new();
    let mut i: usize = 0;
    while i < list.len()
        invariant
            i <= list@.len(),
            out@ == list@.take(i as int),
        decreases list@.len() - i,
    {
        out.push(list[i]);
        assert(list@.take(i + 1) =~= list@.take(i as int).push(list@[i as int]));
        i = i + 1;
    }
    assert(list@.take(list@.len() as int) =~= list@);
    out
}

/// Dictionary-code field-id or column-index lists in order of first
/// appearance.
fn mappings(lists: Vec<Vec<i32>>) -> (r: Result<MappingColumn, Error>)
    ensures
        match r {
            Ok(column) => codable(views::all(lists@)) && column@ == mapping_column(
                views::all(lists@),
            ),
            Err(error) => !codable(views::all(lists@)) && error == (Error::CorruptFile {
                reason: Reason::TooManyMappings,
            }),
        },
{
    let ghost all = views::all(lists@);
    let mut keys: Vec<Option<i32>> = Vec::new();
    let mut values: Vec<Vec<i32>> = Vec::new();
    let mut i: usize = 0;
    while i < lists.len()
        invariant
            i <= lists@.len(),
            all == views::all(lists@),
            keys@.len() == i,
            forall|k: int|
                0 <= k < i ==> #[trigger] keys@[k] == Some(coded(all.take(i as int)).0[k] as i32),
            views::all(values@) == coded(all.take(i as int)).1,
            values@.len() <= 0x8000_0000,
        decreases lists@.len() - i,
    {
        let ghost before = all.take(i as int);
        let ghost after = all.take(i + 1);
        let ghost held = views::all(values@);
        proof {
            assert(after.drop_last() =~= before);
            assert(after.last() == lists@[i as int]@);
            lemma_coded(before);
            lemma_coded(after);
        }
        let mut at: usize = 0;
        while at < values.len() && !same_list(&values[at], &lists[i])
            invariant
                i < lists@.len(),
                at <= values@.len(),
                held == views::all(values@),
                forall|k: int| 0 <= k < at ==> #[trigger] held[k] != lists@[i as int]@,
            decreases values@.len() - at,
        {
            assert(held[at as int] == values@[at as int]@);
            at = at + 1;
        }
        if at < values.len() {
            proof {
                assert(held[at as int] == lists@[i as int]@);
                assert(held.contains(lists@[i as int]@));
                let place = held.index_of(lists@[i as int]@);
                assert(held[place] == lists@[i as int]@);
                assert(place == at);
            }
        } else {
            proof {
                assert(!held.contains(lists@[i as int]@));
            }
            if values.len() > 0x7fff_ffff {
                proof {
                    lemma_coded_grows(all, i + 1);
                }
                return Err(Error::CorruptFile { reason: Reason::TooManyMappings });
            }
            values.push(clone_list(&lists[i]));
        }
        keys.push(Some(at as i32));
        proof {
            assert forall|k: int| 0 <= k < i + 1 implies #[trigger] keys@[k] == Some(
                coded(after).0[k] as i32,
            ) by {}
        }
        i = i + 1;
    }
    assert(all.take(all.len() as int) =~= all);
    let mut stored: Vec<Option<Vec<u8>>> = Vec::new();
    let mut j: usize = 0;
    let ghost distinct = views::all(values@);
    while j < values.len()
        invariant
            j <= values@.len(),
            distinct == views::all(values@),
            stored@.len() == j,
            forall|k: int|
                0 <= k < j ==> views::opt(#[trigger] stored@[k]) == Some(
                    le::i32_bytes(distinct[k]),
                ),
        decreases values@.len() - j,
    {
        let mut bytes: Vec<u8> = Vec::new();
        le::push_i32s(&mut bytes, &values[j]);
        assert(bytes@ =~= le::i32_bytes(distinct[j as int]));
        stored.push(Some(bytes));
        j = j + 1;
    }
    let column = MappingColumn { keys, values: stored };
    proof {
        lemma_coded(all);
        assert(column@.keys =~= mapping_column(all).keys);
        assert(column@.values =~= mapping_column(all).values);
    }
    Ok(column)
}

pub open spec fn field_lists(files: Seq<FileView>) -> Seq<Seq<i32>> {
    Seq::new(files.len(), |i: int| files[i].fields)
}

pub open spec fn index_lists(files: Seq<FileView>) -> Seq<Seq<i32>> {
    Seq::new(files.len(), |i: int| files[i].column_indices)
}

/// Data files as columns.
pub open spec fn file_columns(files: Seq<FileView>) -> FilesView {
    FilesView {
        valid: Seq::new(files.len(), |i: int| true),
        path: Seq::new(files.len(), |i: int| Some(files[i].path)),
        field_ids: mapping_column(field_lists(files)),
        column_indices: mapping_column(index_lists(files)),
        major_version: Seq::new(files.len(), |i: int| Some(files[i].file_major_version)),
        minor_version: Seq::new(files.len(), |i: int| Some(files[i].file_minor_version)),
        file_size_bytes: Seq::new(files.len(), |i: int| Some(files[i].file_size_bytes)),
        base_id: Seq::new(files.len(), |i: int| files[i].base_id),
    }
}

pub open spec fn files_codable(files: Seq<FileView>) -> bool {
    codable(field_lists(files)) && codable(index_lists(files))
}

fn files_array(files: &Vec<DataFile>) -> (r: Result<FileColumns, Error>)
    ensures
        match r {
            Ok(columns) => files_codable(views::all(files@)) && columns@ == file_columns(
                views::all(files@),
            ),
            Err(error) => !files_codable(views::all(files@)) && error == (Error::CorruptFile {
                reason: Reason::TooManyMappings,
            }),
        },
{
    let ghost all = views::all(files@);
    let mut valid: Vec<bool> = Vec::new();
    let mut path: Vec<Option<String>> = Vec::new();
    let mut fields: Vec<Vec<i32>> = Vec::new();
    let mut indices: Vec<Vec<i32>> = Vec::new();
    let mut major_version: Vec<Option<u32>> = Vec::new();
    let mut minor_version: Vec<Option<u32>> = Vec::new();
    let mut file_size_bytes: Vec<Option<u64>> = Vec::new();
    let mut base_id: Vec<Option<u32>> = Vec::new();
    let mut i: usize = 0;
    while i < files.len()
        invariant
            i <= files@.len(),
            all == views::all(files@),
            valid@ == file_columns(all).valid.take(i as int),
            views::opts(path@) == file_columns(all).path.take(i as int),
            views::all(fields@) == field_lists(all).take(i as int),
            views::all(indices@) == index_lists(all).take(i as int),
            major_version@ == file_columns(all).major_version.take(i as int),
            minor_version@ == file_columns(all).minor_version.take(i as int),
            file_size_bytes@ == file_columns(all).file_size_bytes.take(i as int),
            base_id@ == file_columns(all).base_id.take(i as int),
        decreases files@.len() - i,
    {
        assert(all[i as int] == files@[i as int]@);
        valid.push(true);
        path.push(Some(files[i].path.clone()));
        fields.push(clone_list(&files[i].fields));
        indices.push(clone_list(&files[i].column_indices));
        major_version.push(Some(files[i].file_major_version));
        minor_version.push(Some(files[i].file_minor_version));
        file_size_bytes.push(Some(files[i].file_size_bytes));
        base_id.push(files[i].base_id);
        i = i + 1;
        proof {
            let n = i as int;
            assert(valid@ =~= file_columns(all).valid.take(n));
            assert(views::opts(path@) =~= file_columns(all).path.take(n));
            assert(views::all(fields@) =~= field_lists(all).take(n));
            assert(views::all(indices@) =~= index_lists(all).take(n));
            assert(major_version@ =~= file_columns(all).major_version.take(n));
            assert(minor_version@ =~= file_columns(all).minor_version.take(n));
            assert(file_size_bytes@ =~= file_columns(all).file_size_bytes.take(n));
            assert(base_id@ =~= file_columns(all).base_id.take(n));
        }
    }
    proof {
        let n = all.len() as int;
        assert(valid@ =~= file_columns(all).valid);
        assert(views::opts(path@) =~= file_columns(all).path);
        assert(views::all(fields@) =~= field_lists(all));
        assert(views::all(indices@) =~= index_lists(all));
        assert(major_version@ =~= file_columns(all).major_version);
        assert(minor_version@ =~= file_columns(all).minor_version);
        assert(file_size_bytes@ =~= file_columns(all).file_size_bytes);
        assert(base_id@ =~= file_columns(all).base_id);
    }
    let field_ids = match mappings(fields) {
        Ok(column) => column,
        Err(error) => {
            return Err(error);
        },
    };
    let column_indices = match mappings(indices) {
        Ok(column) => column,
        Err(error) => {
            return Err(error);
        },
    };
    Ok(
        FileColumns {
            valid,
            path,
            field_ids,
            column_indices,
            major_version,
            minor_version,
            file_size_bytes,
            base_id,
        },
    )
}

/// The data files of some records, record after record.
pub open spec fn all_files(fragments: Seq<FragmentView>) -> Seq<FileView>
    decreases fragments.len(),
{
    if fragments.len() == 0 {
        Seq::empty()
    } else {
        all_files(fragments.drop_last()) + fragments.last().files
    }
}

/// The overlays of some records, record after record.
pub open spec fn all_overlays(fragments: Seq<FragmentView>) -> Seq<OverlayView>
    decreases fragments.len(),
{
    if fragments.len() == 0 {
        Seq::empty()
    } else {
        all_overlays(fragments.drop_last()) + fragments.last().overlays
    }
}

pub open spec fn overlay_data_files(overlays: Seq<OverlayView>) -> Seq<FileView> {
    Seq::new(overlays.len(), |i: int| overlays[i].data_file)
}

/// A record without what the other columns hold.
pub open spec fn shell(fragment: FragmentView) -> DataFragmentView {
    (FragmentView {
        id: 0,
        files: Seq::empty(),
        overlays: Seq::empty(),
        ..fragment
    }).encoded()
}

/// Records as the columns of a leaf.
pub open spec fn leaf_columns(fragments: Seq<FragmentView>) -> LeafColumnsView {
    let overlays = all_overlays(fragments);
    LeafColumnsView {
        ids: Seq::new(fragments.len(), |i: int| Some(fragments[i].id)),
        headers: Seq::new(
            fragments.len(),
            |i: int| Some(HeaderView::Record(shell(fragments[i]))),
        ),
        file_lengths: Seq::new(fragments.len(), |i: int| Some(fragments[i].files.len() as usize)),
        files: file_columns(all_files(fragments)),
        overlay_lengths: Seq::new(
            fragments.len(),
            |i: int| Some(fragments[i].overlays.len() as usize),
        ),
        overlay_valid: Seq::new(overlays.len(), |i: int| true),
        overlay_files: file_columns(overlay_data_files(overlays)),
        overlay_meta: Seq::new(
            overlays.len(),
            |i: int| Some(OverlayCellView::Meta(overlays[i].overlay_meta)),
        ),
    }
}

/// Whether the mappings of some records have few enough different ones.
pub open spec fn records_codable(fragments: Seq<FragmentView>) -> bool {
    files_codable(all_files(fragments)) && files_codable(
        overlay_data_files(all_overlays(fragments)),
    )
}

fn clone_bytes(bytes: &Vec<u8>) -> (r: Vec<u8>)
    ensures
        r@ == bytes@,
{
    let mut out: Vec<u8> = Vec::new();
    let mut i: usize = 0;
    while i < bytes.len()
        invariant
            i <= bytes@.len(),
            out@ == bytes@.take(i as int),
        decreases bytes@.len() - i,
    {
        out.push(bytes[i]);
        assert(bytes@.take(i + 1) =~= bytes@.take(i as int).push(bytes@[i as int]));
        i = i + 1;
    }
    assert(bytes@.take(bytes@.len() as int) =~= bytes@);
    out
}

/// Every field of a record except its id, files and overlays, as stored.
fn fragment_scalars(fragment: &Fragment) -> (r: DataFragment)
    ensures
        r@ == shell(fragment@),
{
    let bare = Fragment {
        id: 0,
        files: Vec::new(),
        overlays: Vec::new(),
        deletion_file: fragment.deletion_file,
        row_id_meta: clone_lineage(&fragment.row_id_meta),
        physical_rows: fragment.physical_rows,
        last_updated_at_version_meta: clone_lineage(&fragment.last_updated_at_version_meta),
        created_at_version_meta: clone_lineage(&fragment.created_at_version_meta),
    };
    DataFragment::encode(&bare)
}

fn clone_lineage(meta: &Option<LineageMeta>) -> (r: Option<LineageMeta>)
    ensures
        views::opt(r) == views::opt(*meta),
{
    match meta {
        Some(meta) => Some(meta.clone()),
        None => None,
    }
}

/// Lay out records as the columns of a leaf.
pub fn encode(fragments: &Vec<Fragment>) -> (r: Result<LeafColumns, Error>)
    ensures
        match r {
            Ok(columns) => records_codable(views::all(fragments@)) && columns@ == leaf_columns(
                views::all(fragments@),
            ),
            Err(error) => !records_codable(views::all(fragments@)) && error == (
            Error::CorruptFile { reason: Reason::TooManyMappings }),
        },
{
    let ghost all = views::all(fragments@);
    let ghost wanted = leaf_columns(all);
    let mut ids: Vec<Option<u64>> = Vec::new();
    let mut headers: Vec<Option<HeaderCell>> = Vec::new();
    let mut file_lengths: Vec<Option<usize>> = Vec::new();
    let mut overlay_lengths: Vec<Option<usize>> = Vec::new();
    let mut files: Vec<DataFile> = Vec::new();
    let mut overlays: Vec<DataOverlayFile> = Vec::new();
    let mut i: usize = 0;
    while i < fragments.len()
        invariant
            i <= fragments@.len(),
            all == views::all(fragments@),
            wanted == leaf_columns(all),
            ids@ == wanted.ids.take(i as int),
            views::opts(headers@) == wanted.headers.take(i as int),
            file_lengths@ == wanted.file_lengths.take(i as int),
            overlay_lengths@ == wanted.overlay_lengths.take(i as int),
            views::all(files@) == all_files(all.take(i as int)),
            views::all(overlays@) == all_overlays(all.take(i as int)),
        decreases fragments@.len() - i,
    {
        assert(all[i as int] == fragments@[i as int]@);
        proof {
            let taken = all.take(i + 1);
            assert(taken.drop_last() =~= all.take(i as int));
            assert(taken.last() == fragments@[i as int]@);
        }
        ids.push(Some(fragments[i].id));
        headers.push(Some(HeaderCell::Record(fragment_scalars(&fragments[i]))));
        file_lengths.push(Some(fragments[i].files.len()));
        overlay_lengths.push(Some(fragments[i].overlays.len()));
        let mut own = clone_files(&fragments[i].files);
        files.append(&mut own);
        let mut over = clone_overlays(&fragments[i].overlays);
        overlays.append(&mut over);
        i = i + 1;
        proof {
            let n = i as int;
            assert(ids@ =~= wanted.ids.take(n));
            assert(views::opts(headers@) =~= wanted.headers.take(n));
            assert(file_lengths@ =~= wanted.file_lengths.take(n));
            assert(overlay_lengths@ =~= wanted.overlay_lengths.take(n));
        }
    }
    let ghost flat = all_overlays(all);
    proof {
        assert(all.take(all.len() as int) =~= all);
        assert(ids@ =~= wanted.ids);
        assert(views::opts(headers@) =~= wanted.headers);
        assert(file_lengths@ =~= wanted.file_lengths);
        assert(overlay_lengths@ =~= wanted.overlay_lengths);
    }
    let mut overlay_valid: Vec<bool> = Vec::new();
    let mut overlay_meta: Vec<Option<OverlayCell>> = Vec::new();
    let mut data_files: Vec<DataFile> = Vec::new();
    let mut j: usize = 0;
    while j < overlays.len()
        invariant
            j <= overlays@.len(),
            flat == views::all(overlays@),
            flat == all_overlays(all),
            wanted == leaf_columns(all),
            overlay_valid@ == wanted.overlay_valid.take(j as int),
            views::opts(overlay_meta@) == wanted.overlay_meta.take(j as int),
            views::all(data_files@) == overlay_data_files(flat).take(j as int),
        decreases overlays@.len() - j,
    {
        assert(flat[j as int] == overlays@[j as int]@);
        overlay_valid.push(true);
        overlay_meta.push(Some(OverlayCell::Meta(clone_bytes(&overlays[j].overlay_meta))));
        data_files.push(overlays[j].data_file.clone());
        j = j + 1;
        proof {
            let n = j as int;
            assert(overlay_valid@ =~= wanted.overlay_valid.take(n));
            assert(views::opts(overlay_meta@) =~= wanted.overlay_meta.take(n));
            assert(views::all(data_files@) =~= overlay_data_files(flat).take(n));
        }
    }
    proof {
        assert(overlay_valid@ =~= wanted.overlay_valid);
        assert(views::opts(overlay_meta@) =~= wanted.overlay_meta);
        assert(views::all(data_files@) =~= overlay_data_files(flat));
    }
    let files = match files_array(&files) {
        Ok(columns) => columns,
        Err(error) => {
            return Err(error);
        },
    };
    let overlay_files = match files_array(&data_files) {
        Ok(columns) => columns,
        Err(error) => {
            return Err(error);
        },
    };
    Ok(
        LeafColumns {
            ids,
            headers,
            file_lengths,
            files,
            overlay_lengths,
            overlay_valid,
            overlay_files,
            overlay_meta,
        },
    )
}

// Reading.

/// Whether a column has a row without a value.
pub open spec fn has_null<T>(column: Seq<Option<T>>) -> bool {
    exists|i: int| 0 <= i < column.len() && (#[trigger] column[i]) is None
}

fn any_null<T>(column: &Vec<Option<T>>) -> (r: bool)
    ensures
        r == has_null(column@),
{
    let mut i: usize = 0;
    while i < column.len()
        invariant
            i <= column@.len(),
            forall|k: int| 0 <= k < i ==> (#[trigger] column@[k]) is Some,
        decreases column@.len() - i,
    {
        if column[i].is_none() {
            return true;
        }
        i = i + 1;
    }
    false
}

proof fn lemma_opts_null<T: View>(column: Seq<Option<T>>)
    ensures
        has_null(views::opts(column)) == has_null(column),
{
    let seen = views::opts(column);
    if has_null(column) {
        let i = choose|i: int| 0 <= i < column.len() && (#[trigger] column[i]) is None;
        assert(seen[i] is None);
    }
    if has_null(seen) {
        let i = choose|i: int| 0 <= i < seen.len() && (#[trigger] seen[i]) is None;
        assert(column[i] is None);
    }
}

fn any_false(column: &Vec<bool>) -> (r: bool)
    ensures
        r == column@.contains(false),
{
    let mut i: usize = 0;
    while i < column.len()
        invariant
            i <= column@.len(),
            forall|k: int| 0 <= k < i ==> #[trigger] column@[k],
        decreases column@.len() - i,
    {
        if !column[i] {
            assert(column@[i as int] == false);
            return true;
        }
        i = i + 1;
    }
    false
}

/// The length of the first stored list that is not made of whole numbers.
pub open spec fn odd_width(values: Seq<Option<Seq<u8>>>, n: int) -> Option<nat>
    decreases n,
{
    if n <= 0 {
        None
    } else {
        match odd_width(values, n - 1) {
            Some(bytes) => Some(bytes),
            None => match values[n - 1] {
                Some(value) if value.len() % 4 != 0 => Some(value.len()),
                _ => None,
            },
        }
    }
}

/// The first key that names no stored list.
pub open spec fn stray_key(keys: Seq<Option<i32>>, count: nat, n: int) -> Option<i32>
    decreases n,
{
    if n <= 0 {
        None
    } else {
        match stray_key(keys, count, n - 1) {
            Some(key) => Some(key),
            None => match keys[n - 1] {
                Some(key) if key < 0 || key >= count => Some(key),
                _ => None,
            },
        }
    }
}

/// Why a column of lists is refused.
pub open spec fn mapping_fault(column: MappingView, field: LeafField) -> Option<Reason> {
    if has_null(column.keys) {
        Some(Reason::LeafNulls { field })
    } else if has_null(column.values) {
        Some(Reason::LeafDictionaryNulls { field })
    } else {
        match odd_width(column.values, column.values.len() as int) {
            Some(bytes) => Some(Reason::LeafMappingWidth { bytes: bytes as u64 }),
            None => match stray_key(
                column.keys,
                column.values.len(),
                column.keys.len() as int,
            ) {
                Some(key) => Some(Reason::LeafDictionaryKey { field, code: key }),
                None => None,
            },
        }
    }
}

proof fn lemma_odd_width_some(values: Seq<Option<Seq<u8>>>, n: int, m: int)
    requires
        0 <= n <= m,
        odd_width(values, n) is Some,
    ensures
        odd_width(values, m) == odd_width(values, n),
    decreases m - n,
{
    if n < m {
        lemma_odd_width_some(values, n, m - 1);
    }
}

proof fn lemma_stray_key_some(keys: Seq<Option<i32>>, count: nat, n: int, m: int)
    requires
        0 <= n <= m,
        stray_key(keys, count, n) is Some,
    ensures
        stray_key(keys, count, m) == stray_key(keys, count, n),
    decreases m - n,
{
    if n < m {
        lemma_stray_key_some(keys, count, n, m - 1);
    }
}

fn check_mapping(column: &MappingColumn, field: LeafField) -> (r: Option<Reason>)
    ensures
        r == mapping_fault(column@, field),
{
    proof {
        lemma_opts_null(column.values@);
    }
    if any_null(&column.keys) {
        return Some(Reason::LeafNulls { field });
    }
    if any_null(&column.values) {
        return Some(Reason::LeafDictionaryNulls { field });
    }
    let ghost values = column@.values;
    let ghost keys = column@.keys;
    let mut i: usize = 0;
    while i < column.values.len()
        invariant
            i <= column.values@.len(),
            values == column@.values,
            !has_null(column@.keys),
            !has_null(values),
            odd_width(values, i as int) is None,
        decreases column.values@.len() - i,
    {
        assert(values[i as int] == views::opt(column.values@[i as int]));
        if let Some(value) = &column.values[i] {
            let bytes: usize = value.len();
            if bytes % 4 != 0 {
                proof {
                    lemma_odd_width_some(values, i + 1, values.len() as int);
                }
                return Some(Reason::LeafMappingWidth { bytes: bytes as u64 });
            }
        }
        i = i + 1;
    }
    let count: usize = column.values.len();
    let mut j: usize = 0;
    while j < column.keys.len()
        invariant
            j <= column.keys@.len(),
            values == column@.values,
            keys == column.keys@,
            count == values.len(),
            !has_null(keys),
            !has_null(values),
            odd_width(values, values.len() as int) is None,
            stray_key(keys, values.len(), j as int) is None,
        decreases column.keys@.len() - j,
    {
        if let Some(key) = column.keys[j] {
            if key < 0 || key as u64 >= count as u64 {
                proof {
                    lemma_stray_key_some(keys, values.len(), j + 1, keys.len() as int);
                }
                return Some(Reason::LeafDictionaryKey { field, code: key });
            }
        }
        j = j + 1;
    }
    None
}

/// Why columns of data files are refused.
pub open spec fn files_fault(columns: FilesView, field: LeafField) -> Option<Reason> {
    if columns.valid.contains(false) {
        Some(Reason::LeafNulls { field })
    } else if has_null(columns.path) {
        Some(Reason::LeafNulls { field: LeafField::Path })
    } else if mapping_fault(columns.field_ids, LeafField::FieldIds) is Some {
        mapping_fault(columns.field_ids, LeafField::FieldIds)
    } else if mapping_fault(columns.column_indices, LeafField::ColumnIndices) is Some {
        mapping_fault(columns.column_indices, LeafField::ColumnIndices)
    } else if has_null(columns.major_version) {
        Some(Reason::LeafNulls { field: LeafField::MajorVersion })
    } else if has_null(columns.minor_version) {
        Some(Reason::LeafNulls { field: LeafField::MinorVersion })
    } else if has_null(columns.file_size_bytes) {
        Some(Reason::LeafNulls { field: LeafField::FileSizeBytes })
    } else {
        None
    }
}

fn check_files(columns: &FileColumns, field: LeafField) -> (r: Option<Reason>)
    ensures
        r == files_fault(columns@, field),
{
    proof {
        lemma_opts_null(columns.path@);
    }
    if any_false(&columns.valid) {
        return Some(Reason::LeafNulls { field });
    }
    if any_null(&columns.path) {
        return Some(Reason::LeafNulls { field: LeafField::Path });
    }
    if let Some(reason) = check_mapping(&columns.field_ids, LeafField::FieldIds) {
        return Some(reason);
    }
    if let Some(reason) = check_mapping(&columns.column_indices, LeafField::ColumnIndices) {
        return Some(reason);
    }
    if any_null(&columns.major_version) {
        return Some(Reason::LeafNulls { field: LeafField::MajorVersion });
    }
    if any_null(&columns.minor_version) {
        return Some(Reason::LeafNulls { field: LeafField::MinorVersion });
    }
    if any_null(&columns.file_size_bytes) {
        return Some(Reason::LeafNulls { field: LeafField::FileSizeBytes });
    }
    None
}

/// Why the columns of a leaf are refused before any row is looked at.
pub open spec fn columns_fault(leaf: LeafColumnsView) -> Option<Reason> {
    if has_null(leaf.ids) {
        Some(Reason::LeafNulls { field: LeafField::Id })
    } else if has_null(leaf.headers) {
        Some(Reason::LeafNulls { field: LeafField::FragmentMeta })
    } else if has_null(leaf.file_lengths) {
        Some(Reason::LeafNulls { field: LeafField::Files })
    } else if files_fault(leaf.files, LeafField::Item) is Some {
        files_fault(leaf.files, LeafField::Item)
    } else if has_null(leaf.overlay_lengths) {
        Some(Reason::LeafNulls { field: LeafField::Overlays })
    } else if leaf.overlay_valid.contains(false) {
        Some(Reason::LeafNulls { field: LeafField::Item })
    } else if files_fault(leaf.overlay_files, LeafField::DataFile) is Some {
        files_fault(leaf.overlay_files, LeafField::DataFile)
    } else if has_null(leaf.overlay_meta) {
        Some(Reason::LeafNulls { field: LeafField::OverlayMeta })
    } else {
        None
    }
}

/// Check that no column lacks a value that its rows must have, and that every
/// mapping is whole and named by a key in range.
fn check_nulls(leaf: &LeafColumns) -> (r: Option<Reason>)
    ensures
        r == columns_fault(leaf@),
{
    proof {
        lemma_opts_null(leaf.headers@);
        lemma_opts_null(leaf.overlay_meta@);
    }
    if any_null(&leaf.ids) {
        return Some(Reason::LeafNulls { field: LeafField::Id });
    }
    if any_null(&leaf.headers) {
        return Some(Reason::LeafNulls { field: LeafField::FragmentMeta });
    }
    if any_null(&leaf.file_lengths) {
        return Some(Reason::LeafNulls { field: LeafField::Files });
    }
    if let Some(reason) = check_files(&leaf.files, LeafField::Item) {
        return Some(reason);
    }
    if any_null(&leaf.overlay_lengths) {
        return Some(Reason::LeafNulls { field: LeafField::Overlays });
    }
    if any_false(&leaf.overlay_valid) {
        return Some(Reason::LeafNulls { field: LeafField::Item });
    }
    if let Some(reason) = check_files(&leaf.overlay_files, LeafField::DataFile) {
        return Some(reason);
    }
    if any_null(&leaf.overlay_meta) {
        return Some(Reason::LeafNulls { field: LeafField::OverlayMeta });
    }
    None
}

/// Where the files or overlays of a row start: behind those of the rows before.
pub open spec fn start_of(lengths: Seq<Option<usize>>, row: int) -> nat
    decreases row,
{
    if row <= 0 {
        0
    } else {
        start_of(lengths, row - 1) + match lengths[row - 1] {
            Some(length) => length as nat,
            None => 0,
        }
    }
}

/// Whether columns of data files all have as many rows.
pub open spec fn even(columns: FilesView, rows: nat) -> bool {
    &&& columns.valid.len() == rows
    &&& columns.path.len() == rows
    &&& columns.field_ids.keys.len() == rows
    &&& columns.column_indices.keys.len() == rows
    &&& columns.major_version.len() == rows
    &&& columns.minor_version.len() == rows
    &&& columns.file_size_bytes.len() == rows
    &&& columns.base_id.len() == rows
}

impl LeafColumnsView {
    /// Whether every column has a value or a gap for each of its rows.
    pub open spec fn shaped(self) -> bool {
        let rows = self.ids.len();
        &&& self.headers.len() == rows
        &&& self.file_lengths.len() == rows
        &&& self.overlay_lengths.len() == rows
        &&& even(self.files, self.files.valid.len())
        &&& even(self.overlay_files, self.overlay_valid.len())
        &&& self.overlay_meta.len() == self.overlay_valid.len()
        &&& !has_null(self.file_lengths) ==> start_of(self.file_lengths, rows as int)
            == self.files.valid.len()
        &&& !has_null(self.overlay_lengths) ==> start_of(self.overlay_lengths, rows as int)
            == self.overlay_valid.len()
    }
}

proof fn lemma_start_grows(lengths: Seq<Option<usize>>, a: int, b: int)
    requires
        a <= b,
    ensures
        start_of(lengths, a) <= start_of(lengths, b),
    decreases b - a,
{
    if a < b {
        lemma_start_grows(lengths, a, b - 1);
    }
}

/// Whether the lists of a column hold some number of items together.
fn holds_items(lengths: &Vec<Option<usize>>, items: usize) -> (r: bool)
    ensures
        r == (start_of(lengths@, lengths@.len() as int) == items),
{
    let mut total: usize = 0;
    let mut i: usize = 0;
    while i < lengths.len()
        invariant
            i <= lengths@.len(),
            total == start_of(lengths@, i as int),
        decreases lengths@.len() - i,
    {
        let more: usize = match lengths[i] {
            Some(length) => length,
            None => 0,
        };
        total = match total.checked_add(more) {
            Some(total) => total,
            None => {
                proof {
                    lemma_start_grows(lengths@, i + 1, lengths@.len() as int);
                }
                return false;
            },
        };
        i = i + 1;
    }
    total == items
}

impl FileColumns {
    fn is_even(&self, rows: usize) -> (r: bool)
        ensures
            r == even(self@, rows as nat),
    {
        self.valid.len() == rows && self.path.len() == rows && self.field_ids.keys.len() == rows
            && self.column_indices.keys.len() == rows && self.major_version.len() == rows
            && self.minor_version.len() == rows && self.file_size_bytes.len() == rows
            && self.base_id.len() == rows
    }
}

impl LeafColumns {
    /// Whether every column has a value or a gap for each of its rows, so that
    /// the leaf can be decoded.
    pub fn is_shaped(&self) -> (r: bool)
        ensures
            r == self@.shaped(),
    {
        let rows: usize = self.ids.len();
        let overlays: usize = self.overlay_valid.len();
        self.headers.len() == rows && self.file_lengths.len() == rows && self.overlay_lengths.len()
            == rows && self.files.is_even(self.files.valid.len()) && self.overlay_files.is_even(
            overlays,
        ) && self.overlay_meta.len() == overlays && (any_null(&self.file_lengths) || holds_items(
            &self.file_lengths,
            self.files.valid.len(),
        )) && (any_null(&self.overlay_lengths) || holds_items(&self.overlay_lengths, overlays))
    }
}

/// The list a row of a column names.
pub open spec fn mapped(column: MappingView, row: int) -> Seq<i32> {
    le::i32_values(column.values[column.keys[row]->0 as int]->0)
}

/// The data file of a row.
pub open spec fn file_at(columns: FilesView, row: int) -> FileView {
    FileView {
        path: columns.path[row]->0,
        fields: mapped(columns.field_ids, row),
        column_indices: mapped(columns.column_indices, row),
        file_major_version: columns.major_version[row]->0,
        file_minor_version: columns.minor_version[row]->0,
        file_size_bytes: columns.file_size_bytes[row]->0,
        base_id: columns.base_id[row],
    }
}

pub open spec fn files_at(columns: FilesView, from: int, to: int) -> Seq<FileView> {
    Seq::new((to - from) as nat, |i: int| file_at(columns, from + i))
}

pub open spec fn overlays_at(leaf: LeafColumnsView, from: int, to: int) -> Seq<OverlayView> {
    Seq::new(
        (to - from) as nat,
        |i: int|
            OverlayView {
                data_file: file_at(leaf.overlay_files, from + i),
                overlay_meta: leaf.overlay_meta[from + i]->0->Meta_0,
            },
    )
}

/// The first fault among the overlays of a row.
pub open spec fn overlay_fault(cells: Seq<Option<OverlayCellView>>, from: int, to: int) -> Option<
    Reason,
>
    decreases to - from,
{
    if from >= to {
        None
    } else {
        match overlay_fault(cells, from, to - 1) {
            Some(reason) => Some(reason),
            None => match cells[to - 1]->0 {
                OverlayCellView::Invalid => Some(Reason::OverlayMetaInvalid),
                OverlayCellView::WithDataFile => Some(Reason::OverlayMetaFile),
                OverlayCellView::Meta(_) => None,
            },
        }
    }
}

/// Why a data file's mapping is refused. Files of the first format name their
/// columns by field id alone, so the ids are in order; in later formats every
/// field id has a column index.
pub open spec fn file_fault(file: FileView) -> Option<Reason> {
    if file.file_major_version == 0 && file.file_minor_version < 3 {
        if exists|i: int|
            0 < i < file.fields.len() && file.fields[i - 1] >= #[trigger] file.fields[i] {
            Some(Reason::UnsortedFieldIds)
        } else {
            None
        }
    } else if file.column_indices.len() < file.fields.len() {
        Some(Reason::FewerColumnIndices)
    } else {
        None
    }
}

/// The first fault among some data files.
pub open spec fn first_file_fault(files: Seq<FileView>) -> Option<Reason>
    decreases files.len(),
{
    if files.len() == 0 {
        None
    } else {
        match first_file_fault(files.drop_last()) {
            Some(reason) => Some(reason),
            None => file_fault(files.last()),
        }
    }
}

/// The first fault among the data files a record refers to.
pub open spec fn record_file_fault(fragment: FragmentView) -> Option<Reason> {
    match first_file_fault(fragment.files) {
        Some(reason) => Some(reason),
        None => first_file_fault(overlay_data_files(fragment.overlays)),
    }
}

/// The record of a row without its files.
pub open spec fn bare_record(leaf: LeafColumnsView, row: int) -> Result<FragmentView, Error> {
    let id = leaf.ids[row]->0;
    match leaf.headers[row]->0 {
        HeaderView::Invalid => Err(Error::CorruptFile { reason: Reason::FragmentMetaInvalid }),
        HeaderView::Record(header) => {
            let from = start_of(leaf.overlay_lengths, row) as int;
            let to = start_of(leaf.overlay_lengths, row + 1) as int;
            if header.id != 0 || header.files.len() != 0 || header.overlays.len() != 0 {
                Err(Error::CorruptFile { reason: Reason::FragmentMetaFilled })
            } else if id > u32::MAX || (row > 0 && id <= leaf.ids[row - 1]->0) {
                Err(Error::CorruptFile { reason: Reason::LeafFragmentId { id } })
            } else {
                match overlay_fault(leaf.overlay_meta, from, to) {
                    Some(reason) => Err(Error::CorruptFile { reason }),
                    None => (DataFragmentView {
                        id,
                        overlays: overlays_at(leaf, from, to),
                        ..header
                    }).decoded(),
                }
            }
        },
    }
}

/// The record of a row.
pub open spec fn row_record(leaf: LeafColumnsView, row: int) -> Result<FragmentView, Error> {
    match bare_record(leaf, row) {
        Err(error) => Err(error),
        Ok(record) => with_files(
            record,
            files_at(
                leaf.files,
                start_of(leaf.file_lengths, row) as int,
                start_of(leaf.file_lengths, row + 1) as int,
            ),
        ),
    }
}

/// A record with its files, where their mappings are whole.
pub open spec fn with_files(record: FragmentView, files: Seq<FileView>) -> Result<
    FragmentView,
    Error,
> {
    let whole = FragmentView { files, ..record };
    match record_file_fault(whole) {
        Some(reason) => Err(Error::CorruptFile { reason }),
        None => Ok(whole),
    }
}

/// The records of the first rows, up to the first that is refused.
pub open spec fn row_records(leaf: LeafColumnsView, rows: int) -> Result<Seq<FragmentView>, Error>
    decreases rows,
{
    if rows <= 0 {
        Ok(Seq::empty())
    } else {
        match row_records(leaf, rows - 1) {
            Err(error) => Err(error),
            Ok(records) => match row_record(leaf, rows - 1) {
                Err(error) => Err(error),
                Ok(record) => Ok(records.push(record)),
            },
        }
    }
}

/// The records that the columns of a leaf hold.
pub open spec fn leaf_records(leaf: LeafColumnsView) -> Result<Seq<FragmentView>, Error> {
    match columns_fault(leaf) {
        Some(reason) => Err(Error::CorruptFile { reason }),
        None => row_records(leaf, leaf.ids.len() as int),
    }
}

pub proof fn lemma_no_odd_width(values: Seq<Option<Seq<u8>>>, n: int, i: int)
    requires
        odd_width(values, n) is None,
        0 <= i < n,
        values[i] is Some,
    ensures
        values[i]->0.len() % 4 == 0,
    decreases n,
{
    if i < n - 1 {
        lemma_no_odd_width(values, n - 1, i);
    }
}

pub proof fn lemma_no_stray_key(keys: Seq<Option<i32>>, count: nat, n: int, i: int)
    requires
        stray_key(keys, count, n) is None,
        0 <= i < n,
        keys[i] is Some,
    ensures
        0 <= keys[i]->0 < count,
    decreases n,
{
    if i < n - 1 {
        lemma_no_stray_key(keys, count, n - 1, i);
    }
}

/// Rows further on start no earlier.
pub proof fn lemma_starts(lengths: Seq<Option<usize>>, i: int, j: int)
    requires
        0 <= i <= j,
    ensures
        start_of(lengths, i) <= start_of(lengths, j),
    decreases j - i,
{
    if i < j {
        lemma_starts(lengths, i, j - 1);
    }
}

/// Whether lists are those a column stores.
spec fn spells(column: MappingView, lists: Seq<Vec<i32>>) -> bool {
    &&& lists.len() == column.values.len()
    &&& forall|i: int|
        0 <= i < lists.len() ==> (#[trigger] lists[i])@ == le::i32_values(column.values[i]->0)
}

/// Decode every list of a column once.
fn mapping_values(column: &MappingColumn) -> (r: Vec<Vec<i32>>)
    requires
        !has_null(column@.values),
        odd_width(column@.values, column@.values.len() as int) is None,
    ensures
        spells(column@, r@),
{
    let ghost values = column@.values;
    let mut out: Vec<Vec<i32>> = Vec::new();
    let mut i: usize = 0;
    while i < column.values.len()
        invariant
            i <= column.values@.len(),
            values == column@.values,
            !has_null(values),
            odd_width(values, values.len() as int) is None,
            out@.len() == i,
            forall|k: int|
                0 <= k < i ==> (#[trigger] out@[k])@ == le::i32_values(values[k]->0),
        decreases column.values@.len() - i,
    {
        proof {
            assert(values[i as int] is Some);
            assert(values[i as int] == views::opt(column.values@[i as int]));
            lemma_no_odd_width(values, values.len() as int, i as int);
        }
        let list = match &column.values[i] {
            Some(bytes) => le::read_i32s(bytes),
            None => Vec::new(),
        };
        out.push(list);
        i = i + 1;
    }
    out
}

fn or_zero(value: Option<u32>) -> (r: u32)
    requires
        value is Some,
    ensures
        r == value->0,
{
    match value {
        Some(value) => value,
        None => 0,
    }
}

/// The data file of a row.
fn data_file(
    columns: &FileColumns,
    fields: &Vec<Vec<i32>>,
    indices: &Vec<Vec<i32>>,
    row: usize,
) -> (r: DataFile)
    requires
        files_fault(columns@, LeafField::Item) is None || files_fault(
            columns@,
            LeafField::DataFile,
        ) is None,
        even(columns@, columns@.valid.len()),
        row < columns@.valid.len(),
        spells(columns@.field_ids, fields@),
        spells(columns@.column_indices, indices@),
    ensures
        r@ == file_at(columns@, row as int),
{
    let ghost seen = columns@;
    proof {
        let k = row as int;
        assert(seen.path[k] is Some);
        assert(seen.path[k] == views::opt(columns.path@[k]));
        assert(seen.field_ids.keys[k] is Some);
        assert(seen.column_indices.keys[k] is Some);
        assert(seen.major_version[k] is Some);
        assert(seen.minor_version[k] is Some);
        assert(seen.file_size_bytes[k] is Some);
        lemma_no_stray_key(
            seen.field_ids.keys,
            seen.field_ids.values.len(),
            seen.field_ids.keys.len() as int,
            k,
        );
        lemma_no_stray_key(
            seen.column_indices.keys,
            seen.column_indices.values.len(),
            seen.column_indices.keys.len() as int,
            k,
        );
    }
    let path = match &columns.path[row] {
        Some(path) => path.clone(),
        None => String::new(),
    };
    let field_key: usize = match columns.field_ids.keys[row] {
        Some(key) => key as usize,
        None => 0,
    };
    let index_key: usize = match columns.column_indices.keys[row] {
        Some(key) => key as usize,
        None => 0,
    };
    let file_size_bytes: u64 = match columns.file_size_bytes[row] {
        Some(bytes) => bytes,
        None => 0,
    };
    DataFile {
        path,
        fields: clone_list(&fields[field_key]),
        column_indices: clone_list(&indices[index_key]),
        file_major_version: or_zero(columns.major_version[row]),
        file_minor_version: or_zero(columns.minor_version[row]),
        file_size_bytes,
        base_id: columns.base_id[row],
    }
}

fn check_file(file: &DataFile) -> (r: Option<Reason>)
    ensures
        r == file_fault(file@),
{
    if file.file_major_version == 0 && file.file_minor_version < 3 {
        let mut i: usize = 1;
        while i < file.fields.len()
            invariant
                1 <= i,
                file@.file_major_version == 0 && file@.file_minor_version < 3,
                forall|k: int|
                    0 < k < i && k < file@.fields.len() ==> file@.fields[k - 1]
                        < #[trigger] file@.fields[k],
            decreases file.fields@.len() - i,
        {
            if file.fields[i - 1] >= file.fields[i] {
                assert(file@.fields[i - 1] >= file@.fields[i as int]);
                return Some(Reason::UnsortedFieldIds);
            }
            i = i + 1;
        }
        None
    } else if file.column_indices.len() < file.fields.len() {
        Some(Reason::FewerColumnIndices)
    } else {
        None
    }
}

proof fn lemma_first_file_fault_some(files: Seq<FileView>, n: int)
    requires
        0 <= n <= files.len(),
        first_file_fault(files.take(n)) is Some,
    ensures
        first_file_fault(files) == first_file_fault(files.take(n)),
    decreases files.len() - n,
{
    if n < files.len() {
        assert(files.take(n + 1).drop_last() =~= files.take(n));
        lemma_first_file_fault_some(files, n + 1);
    } else {
        assert(files.take(n) =~= files);
    }
}

/// Check the mapping of every data file a record refers to.
fn check_record_files(fragment: &Fragment) -> (r: Option<Reason>)
    ensures
        r == record_file_fault(fragment@),
{
    let ghost files = fragment@.files;
    let ghost over = overlay_data_files(fragment@.overlays);
    let mut i: usize = 0;
    assert(files.take(0) =~= Seq::<FileView>::empty());
    while i < fragment.files.len()
        invariant
            i <= fragment.files@.len(),
            files == fragment@.files,
            first_file_fault(files.take(i as int)) is None,
        decreases fragment.files@.len() - i,
    {
        proof {
            assert(files.take(i + 1).drop_last() =~= files.take(i as int));
            assert(files.take(i + 1).last() == fragment.files@[i as int]@);
        }
        if let Some(reason) = check_file(&fragment.files[i]) {
            proof {
                lemma_first_file_fault_some(files, i + 1);
            }
            return Some(reason);
        }
        i = i + 1;
    }
    assert(files.take(files.len() as int) =~= files);
    let mut j: usize = 0;
    assert(over.take(0) =~= Seq::<FileView>::empty());
    while j < fragment.overlays.len()
        invariant
            j <= fragment.overlays@.len(),
            first_file_fault(fragment@.files) is None,
            over == overlay_data_files(fragment@.overlays),
            first_file_fault(over.take(j as int)) is None,
        decreases fragment.overlays@.len() - j,
    {
        proof {
            assert(over.take(j + 1).drop_last() =~= over.take(j as int));
            assert(over.take(j + 1).last() == fragment.overlays@[j as int]@.data_file);
        }
        if let Some(reason) = check_file(&fragment.overlays[j].data_file) {
            proof {
                lemma_first_file_fault_some(over, j + 1);
            }
            return Some(reason);
        }
        j = j + 1;
    }
    assert(over.take(over.len() as int) =~= over);
    None
}

proof fn lemma_overlay_fault_some(
    cells: Seq<Option<OverlayCellView>>,
    from: int,
    n: int,
    to: int,
)
    requires
        from <= n <= to,
        overlay_fault(cells, from, n) is Some,
    ensures
        overlay_fault(cells, from, to) == overlay_fault(cells, from, n),
    decreases to - n,
{
    if n < to {
        lemma_overlay_fault_some(cells, from, n, to - 1);
    }
}

/// The overlays of a row.
fn read_overlays(
    leaf: &LeafColumns,
    fields: &Vec<Vec<i32>>,
    indices: &Vec<Vec<i32>>,
    from: usize,
    to: usize,
) -> (r: Result<Vec<DataOverlayFile>, Error>)
    requires
        leaf@.shaped(),
        columns_fault(leaf@) is None,
        from <= to <= leaf@.overlay_valid.len(),
        spells(leaf@.overlay_files.field_ids, fields@),
        spells(leaf@.overlay_files.column_indices, indices@),
    ensures
        match overlay_fault(leaf@.overlay_meta, from as int, to as int) {
            Some(reason) => r == Err::<Vec<DataOverlayFile>, Error>(
                Error::CorruptFile { reason },
            ),
            None => r is Ok && views::all(r->Ok_0@) == overlays_at(leaf@, from as int, to as int),
        },
{
    let ghost cells = leaf@.overlay_meta;
    let mut out: Vec<DataOverlayFile> = Vec::new();
    let mut at: usize = from;
    while at < to
        invariant
            from <= at <= to <= leaf@.overlay_valid.len(),
            leaf@.shaped(),
            columns_fault(leaf@) is None,
            cells == leaf@.overlay_meta,
            overlay_fault(cells, from as int, at as int) is None,
            views::all(out@) == overlays_at(leaf@, from as int, at as int),
            spells(leaf@.overlay_files.field_ids, fields@),
            spells(leaf@.overlay_files.column_indices, indices@),
        decreases to - at,
    {
        proof {
            assert(cells[at as int] is Some);
            assert(cells[at as int] == views::opt(leaf.overlay_meta@[at as int]));
        }
        let overlay_meta = match &leaf.overlay_meta[at] {
            Some(OverlayCell::Meta(bytes)) => clone_bytes(bytes),
            Some(OverlayCell::WithDataFile) => {
                proof {
                    lemma_overlay_fault_some(cells, from as int, at + 1, to as int);
                }
                return Err(Error::CorruptFile { reason: Reason::OverlayMetaFile });
            },
            Some(OverlayCell::Invalid) => {
                proof {
                    lemma_overlay_fault_some(cells, from as int, at + 1, to as int);
                }
                return Err(Error::CorruptFile { reason: Reason::OverlayMetaInvalid });
            },
            None => Vec::new(),
        };
        let file = data_file(&leaf.overlay_files, fields, indices, at);
        let ghost before = overlays_at(leaf@, from as int, at as int);
        out.push(DataOverlayFile { data_file: file, overlay_meta });
        assert(views::all(out@) =~= overlays_at(leaf@, from as int, at + 1));
        at = at + 1;
    }
    Ok(out)
}

proof fn lemma_row_records_err(leaf: LeafColumnsView, n: int, m: int)
    requires
        0 <= n <= m,
        row_records(leaf, n) is Err,
    ensures
        row_records(leaf, m) == row_records(leaf, n),
    decreases m - n,
{
    if n < m {
        lemma_row_records_err(leaf, n, m - 1);
    }
}

/// The data files of a row.
fn read_files(
    columns: &FileColumns,
    fields: &Vec<Vec<i32>>,
    indices: &Vec<Vec<i32>>,
    from: usize,
    to: usize,
) -> (r: Vec<DataFile>)
    requires
        files_fault(columns@, LeafField::Item) is None,
        even(columns@, columns@.valid.len()),
        from <= to <= columns@.valid.len(),
        spells(columns@.field_ids, fields@),
        spells(columns@.column_indices, indices@),
    ensures
        views::all(r@) == files_at(columns@, from as int, to as int),
{
    let mut files: Vec<DataFile> = Vec::new();
    let mut at: usize = from;
    while at < to
        invariant
            files_fault(columns@, LeafField::Item) is None,
            even(columns@, columns@.valid.len()),
            from <= at <= to <= columns@.valid.len(),
            spells(columns@.field_ids, fields@),
            spells(columns@.column_indices, indices@),
            views::all(files@) == files_at(columns@, from as int, at as int),
        decreases to - at,
    {
        files.push(data_file(columns, fields, indices, at));
        assert(views::all(files@) =~= files_at(columns@, from as int, at + 1));
        at = at + 1;
    }
    files
}

/// Read the records that the columns of a leaf hold.
pub fn decode(leaf: &LeafColumns) -> (r: Result<Vec<Fragment>, Error>)
    requires
        leaf@.shaped(),
    ensures
        match leaf_records(leaf@) {
            Ok(records) => r is Ok && views::all(r->Ok_0@) == records,
            Err(error) => r == Err::<Vec<Fragment>, Error>(error),
        },
{
    if let Some(reason) = check_nulls(leaf) {
        return Err(Error::CorruptFile { reason });
    }
    let fields = mapping_values(&leaf.files.field_ids);
    let indices = mapping_values(&leaf.files.column_indices);
    let overlay_fields = mapping_values(&leaf.overlay_files.field_ids);
    let overlay_indices = mapping_values(&leaf.overlay_files.column_indices);
    let ghost seen = leaf@;
    let rows: usize = leaf.ids.len();
    let file_count: usize = leaf.files.valid.len();
    let overlay_count: usize = leaf.overlay_valid.len();
    let mut fragments: Vec<Fragment> = Vec::new();
    let mut file_start: usize = 0;
    let mut overlay_start: usize = 0;
    let mut row: usize = 0;
    while row < rows
        invariant
            row <= rows,
            rows == leaf@.ids.len(),
            file_count == seen.files.valid.len(),
            overlay_count == seen.overlay_valid.len(),
            seen == leaf@,
            seen.shaped(),
            columns_fault(seen) is None,
            file_start == start_of(seen.file_lengths, row as int),
            overlay_start == start_of(seen.overlay_lengths, row as int),
            row_records(seen, row as int) == Ok::<Seq<FragmentView>, Error>(
                views::all(fragments@),
            ),
            spells(seen.files.field_ids, fields@),
            spells(seen.files.column_indices, indices@),
            spells(seen.overlay_files.field_ids, overlay_fields@),
            spells(seen.overlay_files.column_indices, overlay_indices@),
        decreases rows - row,
    {
        proof {
            let n = rows as int;
            assert(seen.file_lengths[row as int] is Some);
            assert(seen.overlay_lengths[row as int] is Some);
            lemma_starts(seen.file_lengths, row + 1, n);
            lemma_starts(seen.overlay_lengths, row + 1, n);
            if row_record(seen, row as int) is Err {
                lemma_row_records_err(seen, row + 1, n);
            }
        }
        let file_end: usize = match leaf.file_lengths[row] {
            Some(length) => file_start + length,
            None => file_start,
        };
        let overlay_end: usize = match leaf.overlay_lengths[row] {
            Some(length) => overlay_start + length,
            None => overlay_start,
        };
        let decoded = match decode_row(
            leaf,
            row,
            &overlay_fields,
            &overlay_indices,
            overlay_start,
            overlay_end,
        ) {
            Ok(decoded) => decoded,
            Err(error) => {
                return Err(error);
            },
        };
        let files = read_files(&leaf.files, &fields, &indices, file_start, file_end);
        let whole = Fragment { files, ..decoded };
        if let Some(reason) = check_record_files(&whole) {
            return Err(Error::CorruptFile { reason });
        }
        fragments.push(whole);
        file_start = file_end;
        overlay_start = overlay_end;
        row = row + 1;
    }
    Ok(fragments)
}

fn or_none(id: Option<u64>) -> (r: u64)
    requires
        id is Some,
    ensures
        r == id->0,
{
    match id {
        Some(id) => id,
        None => 0,
    }
}

fn decode_row(
    leaf: &LeafColumns,
    row: usize,
    fields: &Vec<Vec<i32>>,
    indices: &Vec<Vec<i32>>,
    from: usize,
    to: usize,
) -> (r: Result<Fragment, Error>)
    requires
        leaf@.shaped(),
        columns_fault(leaf@) is None,
        row < leaf@.ids.len(),
        from == start_of(leaf@.overlay_lengths, row as int),
        to == start_of(leaf@.overlay_lengths, row + 1),
        from <= to <= leaf@.overlay_valid.len(),
        spells(leaf@.overlay_files.field_ids, fields@),
        spells(leaf@.overlay_files.column_indices, indices@),
    ensures
        match bare_record(leaf@, row as int) {
            Ok(record) => r is Ok && r->Ok_0@ == record,
            Err(error) => r == Err::<Fragment, Error>(error),
        },
{
    let ghost seen = leaf@;
    proof {
        assert(seen.ids[row as int] is Some);
        assert(seen.headers[row as int] is Some);
        assert(seen.headers[row as int] == views::opt(leaf.headers@[row as int]));
        if row > 0 {
            assert(seen.ids[row - 1] is Some);
        }
    }
    let header = match &leaf.headers[row] {
        Some(HeaderCell::Record(header)) => header,
        _ => {
            return Err(Error::CorruptFile { reason: Reason::FragmentMetaInvalid });
        },
    };
    if header.id != 0 || header.files.len() != 0 || header.overlays.len() != 0 {
        return Err(Error::CorruptFile { reason: Reason::FragmentMetaFilled });
    }
    let id: u64 = or_none(leaf.ids[row]);
    if id > u32::MAX as u64 || (row > 0 && id <= or_none(leaf.ids[row - 1])) {
        return Err(Error::CorruptFile { reason: Reason::LeafFragmentId { id } });
    }
    let overlays = match read_overlays(leaf, fields, indices, from, to) {
        Ok(overlays) => overlays,
        Err(error) => {
            return Err(error);
        },
    };
    let stored = header.clone();
    let filled = DataFragment { id, overlays, ..stored };
    proof {
        assert(filled@.files =~= header@.files);
    }
    validation::fragment(filled)
}

// The records of a leaf read back.

/// Whether a record can be read back from a leaf.
pub open spec fn leaf_ready(fragment: FragmentView) -> bool {
    fragment.storable() && record_file_fault(fragment) is None
}

/// Where the files of the first records end.
proof fn lemma_file_starts(fragments: Seq<FragmentView>, n: int)
    requires
        0 <= n <= fragments.len(),
        all_files(fragments).len() <= usize::MAX,
    ensures
        start_of(leaf_columns(fragments).file_lengths, n) == all_files(fragments.take(n)).len(),
        all_files(fragments.take(n)) == all_files(fragments).take(
            all_files(fragments.take(n)).len() as int,
        ),
        all_files(fragments.take(n)).len() <= all_files(fragments).len(),
    decreases n,
{
    lemma_files_prefix(fragments, n);
    if n == 0 {
        assert(fragments.take(0) =~= Seq::<FragmentView>::empty());
    } else {
        lemma_file_starts(fragments, n - 1);
        assert(fragments.take(n).drop_last() =~= fragments.take(n - 1));
        assert(fragments.take(n).last() == fragments[n - 1]);
    }
}

proof fn lemma_files_prefix(fragments: Seq<FragmentView>, n: int)
    requires
        0 <= n <= fragments.len(),
    ensures
        all_files(fragments.take(n)).len() <= all_files(fragments).len(),
        all_files(fragments.take(n)) == all_files(fragments).take(
            all_files(fragments.take(n)).len() as int,
        ),
    decreases fragments.len() - n,
{
    if n == fragments.len() {
        assert(fragments.take(n) =~= fragments);
        assert(all_files(fragments).take(all_files(fragments).len() as int) =~= all_files(
            fragments,
        ));
    } else {
        lemma_files_prefix(fragments, n + 1);
        assert(fragments.take(n + 1).drop_last() =~= fragments.take(n));
        let a = all_files(fragments.take(n));
        let b = all_files(fragments.take(n + 1));
        assert(b == a + fragments[n].files);
        assert(a =~= all_files(fragments).take(a.len() as int));
    }
}

proof fn lemma_overlays_prefix(fragments: Seq<FragmentView>, n: int)
    requires
        0 <= n <= fragments.len(),
    ensures
        all_overlays(fragments.take(n)).len() <= all_overlays(fragments).len(),
        all_overlays(fragments.take(n)) == all_overlays(fragments).take(
            all_overlays(fragments.take(n)).len() as int,
        ),
    decreases fragments.len() - n,
{
    if n == fragments.len() {
        assert(fragments.take(n) =~= fragments);
        assert(all_overlays(fragments).take(all_overlays(fragments).len() as int)
            =~= all_overlays(fragments));
    } else {
        lemma_overlays_prefix(fragments, n + 1);
        assert(fragments.take(n + 1).drop_last() =~= fragments.take(n));
        let a = all_overlays(fragments.take(n));
        let b = all_overlays(fragments.take(n + 1));
        assert(b == a + fragments[n].overlays);
        assert(a =~= all_overlays(fragments).take(a.len() as int));
    }
}

/// Where the overlays of the first records end.
proof fn lemma_overlay_starts(fragments: Seq<FragmentView>, n: int)
    requires
        0 <= n <= fragments.len(),
        all_overlays(fragments).len() <= usize::MAX,
    ensures
        start_of(leaf_columns(fragments).overlay_lengths, n) == all_overlays(
            fragments.take(n),
        ).len(),
    decreases n,
{
    if n == 0 {
        assert(fragments.take(0) =~= Seq::<FragmentView>::empty());
    } else {
        lemma_overlay_starts(fragments, n - 1);
        lemma_overlays_prefix(fragments, n);
        assert(fragments.take(n).drop_last() =~= fragments.take(n - 1));
        assert(fragments.take(n).last() == fragments[n - 1]);
    }
}

/// A data file reads back from its columns.
proof fn lemma_file_reads_back(files: Seq<FileView>, i: int)
    requires
        0 <= i < files.len(),
        files_codable(files),
    ensures
        file_at(file_columns(files), i) == files[i],
{
    lemma_mapping_reads_back(field_lists(files), i);
    lemma_mapping_reads_back(index_lists(files), i);
    let back = file_at(file_columns(files), i);
    assert(back.fields =~= files[i].fields);
    assert(back.column_indices =~= files[i].column_indices);
}

proof fn lemma_mapping_reads_back(lists: Seq<Seq<i32>>, i: int)
    requires
        0 <= i < lists.len(),
        codable(lists),
    ensures
        mapped(mapping_column(lists), i) == lists[i],
{
    lemma_coded(lists);
    let (keys, values) = coded(lists);
    let key = keys[i];
    assert(0 <= key < values.len() <= 0x8000_0000);
    assert(mapping_column(lists).keys[i] == Some(key as i32));
    le::law_i32_values_read_back(values[key]);
}

/// Columns of coded lists are accepted.
proof fn lemma_mapping_whole(lists: Seq<Seq<i32>>, field: LeafField)
    requires
        codable(lists),
    ensures
        mapping_fault(mapping_column(lists), field) is None,
{
    let column = mapping_column(lists);
    lemma_coded(lists);
    lemma_widths_whole(lists, column.values.len() as int);
    lemma_keys_whole(lists, column.keys.len() as int);
}

proof fn lemma_widths_whole(lists: Seq<Seq<i32>>, n: int)
    requires
        0 <= n <= mapping_column(lists).values.len(),
    ensures
        odd_width(mapping_column(lists).values, n) is None,
    decreases n,
{
    if n > 0 {
        lemma_widths_whole(lists, n - 1);
        le::lemma_i32_bytes_len(coded(lists).1[n - 1]);
    }
}

proof fn lemma_keys_whole(lists: Seq<Seq<i32>>, n: int)
    requires
        0 <= n <= mapping_column(lists).keys.len(),
        codable(lists),
    ensures
        stray_key(mapping_column(lists).keys, mapping_column(lists).values.len(), n) is None,
    decreases n,
{
    lemma_coded(lists);
    if n > 0 {
        lemma_keys_whole(lists, n - 1);
        let key = coded(lists).0[n - 1];
        assert(0 <= key < coded(lists).1.len());
    }
}

proof fn lemma_files_whole(files: Seq<FileView>, field: LeafField)
    requires
        files_codable(files),
    ensures
        files_fault(file_columns(files), field) is None,
        even(file_columns(files), files.len()),
{
    lemma_mapping_whole(field_lists(files), LeafField::FieldIds);
    lemma_mapping_whole(index_lists(files), LeafField::ColumnIndices);
    lemma_coded(field_lists(files));
    lemma_coded(index_lists(files));
    let columns = file_columns(files);
    if columns.valid.contains(false) {
        let i = choose|i: int| 0 <= i < columns.valid.len() && columns.valid[i] == false;
        assert(columns.valid[i]);
    }
}

proof fn lemma_meta_whole(overlays: Seq<OverlayView>, from: int, to: int)
    requires
        0 <= from <= to <= overlays.len(),
    ensures
        overlay_fault(
            Seq::new(
                overlays.len(),
                |i: int| Some(OverlayCellView::Meta(overlays[i].overlay_meta)),
            ),
            from,
            to,
        ) is None,
    decreases to - from,
{
    if from < to {
        lemma_meta_whole(overlays, from, to - 1);
    }
}

/// The columns of records are accepted and shaped as columns are.
proof fn lemma_columns_whole(fragments: Seq<FragmentView>)
    requires
        records_codable(fragments),
        all_files(fragments).len() <= usize::MAX,
        all_overlays(fragments).len() <= usize::MAX,
    ensures
        columns_fault(leaf_columns(fragments)) is None,
        leaf_columns(fragments).shaped(),
{
    let leaf = leaf_columns(fragments);
    let n = fragments.len() as int;
    lemma_files_whole(all_files(fragments), LeafField::Item);
    lemma_files_whole(overlay_data_files(all_overlays(fragments)), LeafField::DataFile);
    lemma_file_starts(fragments, n);
    lemma_overlay_starts(fragments, n);
    assert(fragments.take(n) =~= fragments);
    if leaf.overlay_valid.contains(false) {
        let i = choose|i: int|
            0 <= i < leaf.overlay_valid.len() && leaf.overlay_valid[i] == false;
        assert(leaf.overlay_valid[i]);
    }
}

/// One record reads back.
proof fn lemma_row_reads_back(fragments: Seq<FragmentView>, row: int)
    requires
        0 <= row < fragments.len(),
        records_codable(fragments),
        all_files(fragments).len() <= usize::MAX,
        all_overlays(fragments).len() <= usize::MAX,
        leaf_ready(fragments[row]),
        row > 0 ==> fragments[row - 1].id < fragments[row].id,
    ensures
        row_record(leaf_columns(fragments), row) == Ok::<FragmentView, Error>(fragments[row]),
{
    let leaf = leaf_columns(fragments);
    let fragment = fragments[row];
    let files = all_files(fragments);
    let overlays = all_overlays(fragments);
    lemma_file_starts(fragments, row);
    lemma_file_starts(fragments, row + 1);
    lemma_overlay_starts(fragments, row);
    lemma_overlay_starts(fragments, row + 1);
    lemma_overlays_prefix(fragments, row);
    lemma_overlays_prefix(fragments, row + 1);
    let upto = fragments.take(row + 1);
    assert(upto.drop_last() =~= fragments.take(row));
    assert(upto.last() == fragment);
    let a = start_of(leaf.file_lengths, row) as int;
    let b = start_of(leaf.file_lengths, row + 1) as int;
    let c = start_of(leaf.overlay_lengths, row) as int;
    let d = start_of(leaf.overlay_lengths, row + 1) as int;
    assert forall|i: int| 0 <= i < fragment.files.len() implies files[a + i]
        == #[trigger] fragment.files[i] by {
        assert(all_files(upto)[a + i] == fragment.files[i]);
        assert(all_files(upto)[a + i] == files[a + i]);
    }
    assert forall|i: int| 0 <= i < fragment.overlays.len() implies overlays[c + i]
        == #[trigger] fragment.overlays[i] by {
        assert(all_overlays(upto)[c + i] == fragment.overlays[i]);
        assert(all_overlays(upto)[c + i] == overlays[c + i]);
    }
    let back = files_at(leaf.files, a, b);
    assert forall|i: int| 0 <= i < back.len() implies #[trigger] back[i]
        == fragment.files[i] by {
        lemma_file_reads_back(files, a + i);
        assert(files[a + i] == fragment.files[i]);
    }
    assert(back =~= fragment.files);
    let data = overlay_data_files(overlays);
    let over = overlays_at(leaf, c, d);
    assert forall|i: int| 0 <= i < over.len() implies #[trigger] over[i]
        == fragment.overlays[i] by {
        lemma_file_reads_back(data, c + i);
        assert(overlays[c + i] == fragment.overlays[i]);
        assert(data[c + i] == overlays[c + i].data_file);
    }
    assert(over =~= fragment.overlays);
    lemma_meta_whole(overlays, c, d);
    let header = shell(fragment);
    let filled = DataFragmentView { id: fragment.id, overlays: over, ..header };
    let plain = FragmentView { files: Seq::empty(), ..fragment };
    assert(plain.storable());
    pb::law_stored_record_reads_back(plain);
    assert(plain.encoded() == filled);
    assert(bare_record(leaf, row) == Ok::<FragmentView, Error>(plain));
    assert((FragmentView { files: back, ..plain }) == fragment);
}

/// Records written to a leaf read back from it as they were, where each can be
/// read back and they are in increasing order of their ids.
pub proof fn law_leaf_reads_back(fragments: Seq<FragmentView>)
    requires
        records_codable(fragments),
        all_files(fragments).len() <= usize::MAX,
        all_overlays(fragments).len() <= usize::MAX,
        forall|i: int| 0 <= i < fragments.len() ==> leaf_ready(#[trigger] fragments[i]),
        crate::store::ascending(fragments),
    ensures
        leaf_columns(fragments).shaped(),
        leaf_records(leaf_columns(fragments)) == Ok::<Seq<FragmentView>, Error>(fragments),
{
    lemma_columns_whole(fragments);
    lemma_rows_read_back(fragments, fragments.len() as int);
    assert(fragments.take(fragments.len() as int) =~= fragments);
}

proof fn lemma_rows_read_back(fragments: Seq<FragmentView>, n: int)
    requires
        0 <= n <= fragments.len(),
        records_codable(fragments),
        all_files(fragments).len() <= usize::MAX,
        all_overlays(fragments).len() <= usize::MAX,
        forall|i: int| 0 <= i < n ==> leaf_ready(#[trigger] fragments[i]),
        crate::store::ascending(fragments.take(n)),
    ensures
        row_records(leaf_columns(fragments), n) == Ok::<Seq<FragmentView>, Error>(
            fragments.take(n),
        ),
    decreases n,
{
    if n == 0 {
        assert(fragments.take(0) =~= Seq::<FragmentView>::empty());
    } else {
        let upto = fragments.take(n);
        let shorter = fragments.take(n - 1);
        assert forall|i: int, j: int| 0 <= i < j < shorter.len() implies (#[trigger] shorter[i]).id
            < (#[trigger] shorter[j]).id by {
            assert(upto[i].id < upto[j].id);
        }
        lemma_rows_read_back(fragments, n - 1);
        if n > 1 {
            assert(upto[n - 2].id < upto[n - 1].id);
        }
        lemma_row_reads_back(fragments, n - 1);
        assert(fragments.take(n) =~= fragments.take(n - 1).push(fragments[n - 1]));
    }
}

/// A row that is refused refuses all rows behind it.
proof fn lemma_rows_refused(leaf: LeafColumnsView, at: int, rows: int, error: Error)
    requires
        0 <= at < rows,
        row_records(leaf, at) is Ok,
        row_record(leaf, at) == Err::<FragmentView, Error>(error),
    ensures
        row_records(leaf, rows) == Err::<Seq<FragmentView>, Error>(error),
    decreases rows - at,
{
    if rows > at + 1 {
        lemma_rows_refused(leaf, at, rows - 1, error);
    }
}

/// Records whose ids do not strictly increase, or of which one has more than
/// 32 bits, are refused when they are read back: the error names the first
/// such id.
pub proof fn law_disordered_leaf_is_refused(fragments: Seq<FragmentView>, at: int)
    requires
        records_codable(fragments),
        all_files(fragments).len() <= usize::MAX,
        all_overlays(fragments).len() <= usize::MAX,
        0 <= at < fragments.len(),
        forall|i: int| 0 <= i < at ==> leaf_ready(#[trigger] fragments[i]),
        crate::store::ascending(fragments.take(at)),
        fragments[at].id > u32::MAX || (at > 0 && fragments[at].id <= fragments[at - 1].id),
    ensures
        leaf_columns(fragments).shaped(),
        leaf_records(leaf_columns(fragments)) == Err::<Seq<FragmentView>, Error>(
            Error::CorruptFile { reason: Reason::LeafFragmentId { id: fragments[at].id } },
        ),
{
    let leaf = leaf_columns(fragments);
    lemma_columns_whole(fragments);
    lemma_rows_read_back(fragments, at);
    lemma_rows_refused(
        leaf,
        at,
        fragments.len() as int,
        Error::CorruptFile { reason: Reason::LeafFragmentId { id: fragments[at].id } },
    );
}

// Reading without files and overlays.

/// The records of a whole leaf, read from its id and header columns without
/// files and overlays, with row totals.
pub struct LeafHeaders {
    pub kept: Vec<Fragment>,
    pub first_id: Option<u64>,
    pub total_rows: u64,
    pub visible_rows: u64,
    pub last_id: Option<u64>,
}

pub struct HeadersView {
    pub kept: Seq<FragmentView>,
    pub first_id: Option<u64>,
    pub total_rows: u64,
    pub visible_rows: u64,
    pub last_id: Option<u64>,
}

impl View for LeafHeaders {
    type V = HeadersView;

    open spec fn view(&self) -> HeadersView {
        HeadersView {
            kept: views::all(self.kept@),
            first_id: self.first_id,
            total_rows: self.total_rows,
            visible_rows: self.visible_rows,
            last_id: self.last_id,
        }
    }
}

/// The rows a record counts for; none where a count is not known.
pub open spec fn counted(rows: Option<usize>) -> u64 {
    match rows {
        Some(rows) => rows as u64,
        None => 0,
    }
}

/// Headers with one more row, or the headers and why the row is refused.
pub open spec fn header_added(headers: HeadersView, id: u64, cell: HeaderView) -> (
    HeadersView,
    Option<Error>,
) {
    if id > u32::MAX || (headers.last_id matches Some(last) && last >= id) {
        (headers, Some(Error::CorruptFile { reason: Reason::LeafFragmentId { id } }))
    } else {
        match cell {
            HeaderView::Invalid => (
                headers,
                Some(Error::CorruptFile { reason: Reason::FragmentHeaderInvalid { id } }),
            ),
            HeaderView::Record(header) => if header.id != 0 || header.files.len() != 0
                || header.overlays.len() != 0 {
                (
                    headers,
                    Some(Error::CorruptFile { reason: Reason::FragmentHeaderFilled { id } }),
                )
            } else {
                match (DataFragmentView { id, ..header }).decoded() {
                    Err(error) => (headers, Some(error)),
                    Ok(record) => header_counted(headers, record),
                }
            },
        }
    }
}

/// Headers with a record added to their totals.
pub open spec fn header_counted(headers: HeadersView, record: FragmentView) -> (
    HeadersView,
    Option<Error>,
) {
    let total = headers.total_rows + counted(record.physical_rows);
    let visible = headers.visible_rows + counted(record.num_rows());
    if total > u64::MAX {
        (
            headers,
            Some(
                Error::CorruptFile { reason: Reason::LeafTotalRowsOverflow { id: record.id } },
            ),
        )
    } else if visible > u64::MAX {
        (
            HeadersView { total_rows: total as u64, ..headers },
            Some(
                Error::CorruptFile { reason: Reason::LeafVisibleRowsOverflow { id: record.id } },
            ),
        )
    } else {
        (
            HeadersView {
                kept: headers.kept.push(record),
                first_id: match headers.first_id {
                    Some(first) => Some(first),
                    None => Some(record.id),
                },
                total_rows: total as u64,
                visible_rows: visible as u64,
                last_id: Some(record.id),
            },
            None,
        )
    }
}

/// Headers with the first rows of some columns, up to the first refused row.
pub open spec fn headers_added(
    headers: HeadersView,
    ids: Seq<Option<u64>>,
    cells: Seq<Option<HeaderView>>,
    rows: int,
) -> (HeadersView, Option<Error>)
    decreases rows,
{
    if rows <= 0 {
        (headers, None)
    } else {
        let (before, error) = headers_added(headers, ids, cells, rows - 1);
        match error {
            Some(_) => (before, error),
            None => header_added(before, ids[rows - 1]->0, cells[rows - 1]->0),
        }
    }
}

/// Headers with the rows of some columns.
pub open spec fn headers_extended(
    headers: HeadersView,
    ids: Seq<Option<u64>>,
    cells: Seq<Option<HeaderView>>,
) -> (HeadersView, Option<Error>) {
    if has_null(ids) {
        (
            headers,
            Some(Error::CorruptFile { reason: Reason::LeafNulls { field: LeafField::Id } }),
        )
    } else if has_null(cells) {
        (
            headers,
            Some(
                Error::CorruptFile {
                    reason: Reason::LeafNulls { field: LeafField::FragmentMeta },
                },
            ),
        )
    } else {
        headers_added(headers, ids, cells, ids.len() as int)
    }
}

proof fn lemma_headers_stop(
    headers: HeadersView,
    ids: Seq<Option<u64>>,
    cells: Seq<Option<HeaderView>>,
    n: int,
    m: int,
)
    requires
        0 <= n <= m,
        headers_added(headers, ids, cells, n).1 is Some,
    ensures
        headers_added(headers, ids, cells, m) == headers_added(headers, ids, cells, n),
    decreases m - n,
{
    if n < m {
        lemma_headers_stop(headers, ids, cells, n, m - 1);
    }
}

impl LeafHeaders {
    /// No headers yet.
    pub fn new() -> (r: Self)
        ensures
            r@ == (HeadersView {
                kept: Seq::empty(),
                first_id: None,
                total_rows: 0,
                visible_rows: 0,
                last_id: None,
            }),
    {
        LeafHeaders {
            kept: Vec::new(),
            first_id: None,
            total_rows: 0,
            visible_rows: 0,
            last_id: None,
        }
    }

    fn add(&mut self, id: u64, cell: &HeaderCell) -> (r: Result<(), Error>)
        ensures
            ({
                let (after, error) = header_added(old(self)@, id, cell@);
                &&& final(self)@ == after
                &&& match error {
                    Some(error) => r == Err::<(), Error>(error),
                    None => r is Ok,
                }
            }),
    {
        let misplaced = match self.last_id {
            Some(last) => last >= id,
            None => false,
        };
        if id > u32::MAX as u64 || misplaced {
            return Err(Error::CorruptFile { reason: Reason::LeafFragmentId { id } });
        }
        let header = match cell {
            HeaderCell::Record(header) => header,
            HeaderCell::Invalid => {
                return Err(Error::CorruptFile { reason: Reason::FragmentHeaderInvalid { id } });
            },
        };
        if header.id != 0 || header.files.len() != 0 || header.overlays.len() != 0 {
            return Err(Error::CorruptFile { reason: Reason::FragmentHeaderFilled { id } });
        }
        let stored = header.clone();
        let named = DataFragment { id, ..stored };
        let record = match validation::fragment(named) {
            Ok(record) => record,
            Err(error) => {
                return Err(error);
            },
        };
        proof {
            pb::law_read_record_is_storable(named@);
        }
        let physical: u64 = match record.physical_rows {
            Some(rows) => rows as u64,
            None => 0,
        };
        let visible: u64 = match record.num_rows() {
            Some(rows) => rows as u64,
            None => 0,
        };
        match self.total_rows.checked_add(physical) {
            Some(total) => {
                self.total_rows = total;
            },
            None => {
                return Err(Error::CorruptFile { reason: Reason::LeafTotalRowsOverflow { id } });
            },
        }
        match self.visible_rows.checked_add(visible) {
            Some(total) => {
                self.visible_rows = total;
            },
            None => {
                return Err(
                    Error::CorruptFile { reason: Reason::LeafVisibleRowsOverflow { id } },
                );
            },
        }
        if self.first_id.is_none() {
            self.first_id = Some(id);
        }
        self.last_id = Some(id);
        self.kept.push(record);
        Ok(())
    }

    /// Add the rows of a batch. Rows are counted as a whole read counts them,
    /// so a leaf that fails a whole read for its counts also fails here.
    pub fn extend(&mut self, ids: &Vec<Option<u64>>, headers: &Vec<Option<HeaderCell>>) -> (r:
        Result<(), Error>)
        requires
            ids@.len() == headers@.len(),
        ensures
            ({
                let (after, error) = headers_extended(
                    old(self)@,
                    ids@,
                    views::opts(headers@),
                );
                &&& final(self)@ == after
                &&& match error {
                    Some(error) => r == Err::<(), Error>(error),
                    None => r is Ok,
                }
            }),
    {
        let ghost before = self@;
        let ghost cells = views::opts(headers@);
        proof {
            lemma_opts_null(headers@);
        }
        if any_null(ids) {
            return Err(
                Error::CorruptFile { reason: Reason::LeafNulls { field: LeafField::Id } },
            );
        }
        if any_null(headers) {
            return Err(
                Error::CorruptFile {
                    reason: Reason::LeafNulls { field: LeafField::FragmentMeta },
                },
            );
        }
        let mut row: usize = 0;
        while row < ids.len()
            invariant
                row <= ids@.len() == headers@.len(),
                before == old(self)@,
                cells == views::opts(headers@),
                !has_null(ids@),
                !has_null(cells),
                headers_added(before, ids@, cells, row as int) == (
                    self@,
                    None::<Error>,
                ),
            decreases ids@.len() - row,
        {
            proof {
                assert(ids@[row as int] is Some);
                assert(cells[row as int] is Some);
                assert(cells[row as int] == views::opt(headers@[row as int]));
            }
            let id: u64 = or_none(ids[row]);
            if let Some(cell) = &headers[row] {
                match self.add(id, cell) {
                    Ok(()) => {},
                    Err(error) => {
                        proof {
                            lemma_headers_stop(
                                before,
                                ids@,
                                cells,
                                row + 1,
                                ids@.len() as int,
                            );
                        }
                        return Err(error);
                    },
                }
            }
            row = row + 1;
        }
        Ok(())
    }
}

} // verus!
