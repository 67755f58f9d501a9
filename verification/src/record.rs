//! Fragment records as the table holds them in memory.

use vstd::prelude::*;

use crate::views;

verus! {

/// One data file of a fragment.
#[derive(Debug, PartialEq, Eq)]
pub struct DataFile {
    pub path: String,
    /// Field ids stored in the file, in column order.
    pub fields: Vec<i32>,
    pub column_indices: Vec<i32>,
    pub file_major_version: u32,
    pub file_minor_version: u32,
    /// Zero when the size is not known.
    pub file_size_bytes: u64,
    /// The dataset that owns the file. Unset names the referencing dataset.
    pub base_id: Option<u32>,
}

pub struct FileView {
    pub path: Seq<char>,
    pub fields: Seq<i32>,
    pub column_indices: Seq<i32>,
    pub file_major_version: u32,
    pub file_minor_version: u32,
    pub file_size_bytes: u64,
    pub base_id: Option<u32>,
}

impl View for DataFile {
    type V = FileView;

    open spec fn view(&self) -> FileView {
        FileView {
            path: self.path@,
            fields: self.fields@,
            column_indices: self.column_indices@,
            file_major_version: self.file_major_version,
            file_minor_version: self.file_minor_version,
            file_size_bytes: self.file_size_bytes,
            base_id: self.base_id,
        }
    }
}

impl Clone for DataFile {
    fn clone(&self) -> (r: Self)
        ensures
            r@ == self@,
    {
        let fields = self.fields.clone();
        let column_indices = self.column_indices.clone();
        assert(fields@ =~= self.fields@);
        assert(column_indices@ =~= self.column_indices@);
        DataFile {
            path: self.path.clone(),
            fields,
            column_indices,
            file_major_version: self.file_major_version,
            file_minor_version: self.file_minor_version,
            file_size_bytes: self.file_size_bytes,
            base_id: self.base_id,
        }
    }
}

/// How a deletion file stores the deleted row offsets.
#[derive(Clone, Copy, Debug, PartialEq, Eq, Structural)]
pub enum DeletionFileType {
    Array,
    Bitmap,
}

/// The rows of a fragment that are deleted.
#[derive(Clone, Copy, Debug, PartialEq, Eq)]
pub struct DeletionFile {
    pub read_version: u64,
    pub id: u64,
    pub file_type: DeletionFileType,
    pub num_deleted_rows: Option<usize>,
    pub base_id: Option<u32>,
}

/// Where a row lineage sequence of a fragment lives.
#[derive(Debug, PartialEq, Eq)]
pub enum LineageMeta {
    /// The encoded sequence itself.
    Inline(Vec<u8>),
    /// A byte range of another file.
    External { path: String, offset: u64, size: u64 },
    /// A column of one of the fragment's data files.
    Column,
}

pub enum LineageView {
    Inline(Seq<u8>),
    External { path: Seq<char>, offset: u64, size: u64 },
    Column,
}

impl View for LineageMeta {
    type V = LineageView;

    open spec fn view(&self) -> LineageView {
        match self {
            LineageMeta::Inline(bytes) => LineageView::Inline(bytes@),
            LineageMeta::External { path, offset, size } => LineageView::External {
                path: path@,
                offset: *offset,
                size: *size,
            },
            LineageMeta::Column => LineageView::Column,
        }
    }
}

impl Clone for LineageMeta {
    fn clone(&self) -> (r: Self)
        ensures
            r@ == self@,
    {
        match self {
            LineageMeta::Inline(bytes) => {
                let copy = bytes.clone();
                assert(copy@ =~= bytes@);
                LineageMeta::Inline(copy)
            },
            LineageMeta::External { path, offset, size } => LineageMeta::External {
                path: path.clone(),
                offset: *offset,
                size: *size,
            },
            LineageMeta::Column => LineageMeta::Column,
        }
    }
}

/// A file whose values replace some of a fragment's. `overlay_meta` is the
/// encoded message without its data file; only the data file is read here.
#[derive(Debug, PartialEq, Eq)]
pub struct DataOverlayFile {
    pub data_file: DataFile,
    pub overlay_meta: Vec<u8>,
}

pub struct OverlayView {
    pub data_file: FileView,
    pub overlay_meta: Seq<u8>,
}

impl View for DataOverlayFile {
    type V = OverlayView;

    open spec fn view(&self) -> OverlayView {
        OverlayView { data_file: self.data_file@, overlay_meta: self.overlay_meta@ }
    }
}

impl Clone for DataOverlayFile {
    fn clone(&self) -> (r: Self)
        ensures
            r@ == self@,
    {
        let overlay_meta = self.overlay_meta.clone();
        assert(overlay_meta@ =~= self.overlay_meta@);
        DataOverlayFile { data_file: self.data_file.clone(), overlay_meta }
    }
}

/// One fragment of a table.
#[derive(Debug, PartialEq, Eq)]
pub struct Fragment {
    pub id: u64,
    pub files: Vec<DataFile>,
    pub overlays: Vec<DataOverlayFile>,
    pub deletion_file: Option<DeletionFile>,
    pub row_id_meta: Option<LineageMeta>,
    /// `None` when the count is not known.
    pub physical_rows: Option<usize>,
    pub last_updated_at_version_meta: Option<LineageMeta>,
    pub created_at_version_meta: Option<LineageMeta>,
}

pub struct FragmentView {
    pub id: u64,
    pub files: Seq<FileView>,
    pub overlays: Seq<OverlayView>,
    pub deletion_file: Option<DeletionFile>,
    pub row_id_meta: Option<LineageView>,
    pub physical_rows: Option<usize>,
    pub last_updated_at_version_meta: Option<LineageView>,
    pub created_at_version_meta: Option<LineageView>,
}

impl View for Fragment {
    type V = FragmentView;

    open spec fn view(&self) -> FragmentView {
        FragmentView {
            id: self.id,
            files: views::all(self.files@),
            overlays: views::all(self.overlays@),
            deletion_file: self.deletion_file,
            row_id_meta: views::opt(self.row_id_meta),
            physical_rows: self.physical_rows,
            last_updated_at_version_meta: views::opt(self.last_updated_at_version_meta),
            created_at_version_meta: views::opt(self.created_at_version_meta),
        }
    }
}

pub fn clone_files(files: &Vec<DataFile>) -> (r: Vec<DataFile>)
    ensures
        views::all(r@) == views::all(files@),
{
    let r = files.clone();
    proof {
        views::lemma_views_equal(r@, files@);
    }
    r
}

pub fn clone_overlays(overlays: &Vec<DataOverlayFile>) -> (r: Vec<DataOverlayFile>)
    ensures
        views::all(r@) == views::all(overlays@),
{
    let r = overlays.clone();
    proof {
        views::lemma_views_equal(r@, overlays@);
    }
    r
}

pub fn clone_fragments(fragments: &Vec<Fragment>) -> (r: Vec<Fragment>)
    ensures
        views::all(r@) == views::all(fragments@),
{
    let r = fragments.clone();
    proof {
        views::lemma_views_equal(r@, fragments@);
    }
    r
}

impl Clone for Fragment {
    fn clone(&self) -> (r: Self)
        ensures
            r@ == self@,
    {
        Fragment {
            id: self.id,
            files: clone_files(&self.files),
            overlays: clone_overlays(&self.overlays),
            deletion_file: self.deletion_file,
            row_id_meta: self.row_id_meta.clone(),
            physical_rows: self.physical_rows,
            last_updated_at_version_meta: self.last_updated_at_version_meta.clone(),
            created_at_version_meta: self.created_at_version_meta.clone(),
        }
    }
}

impl FragmentView {
    /// Rows that are not deleted: known when the physical count and, where
    /// there is a deletion file, the deleted count are known and agree.
    pub open spec fn num_rows(self) -> Option<usize> {
        match (self.physical_rows, self.deletion_file) {
            (Some(rows), None) => Some(rows),
            (Some(rows), Some(file)) => match file.num_deleted_rows {
                Some(deleted) if deleted <= rows => Some((rows - deleted) as usize),
                _ => None,
            },
            (None, _) => None,
        }
    }
}

impl Fragment {
    /// A fragment without files whose row count is not known yet.
    pub fn new(id: u64) -> (r: Self)
        ensures
            r@ == (FragmentView {
                id,
                files: Seq::empty(),
                overlays: Seq::empty(),
                deletion_file: None,
                row_id_meta: None,
                physical_rows: None,
                last_updated_at_version_meta: None,
                created_at_version_meta: None,
            }),
    {
        let r = Fragment {
            id,
            files: Vec::new(),
            overlays: Vec::new(),
            deletion_file: None,
            row_id_meta: None,
            physical_rows: None,
            last_updated_at_version_meta: None,
            created_at_version_meta: None,
        };
        assert(r@.files =~= Seq::empty());
        assert(r@.overlays =~= Seq::empty());
        r
    }

    pub fn with_physical_rows(self, physical_rows: usize) -> (r: Self)
        ensures
            r@ == (FragmentView { physical_rows: Some(physical_rows), ..self@ }),
    {
        let mut fragment = self;
        fragment.physical_rows = Some(physical_rows);
        fragment
    }

    /// Rows that are not deleted, where the counts are known.
    pub fn num_rows(&self) -> (r: Option<usize>)
        ensures
            r == self@.num_rows(),
    {
        match (self.physical_rows, &self.deletion_file) {
            (Some(rows), None) => Some(rows),
            (Some(rows), Some(file)) => match file.num_deleted_rows {
                Some(deleted) => rows.checked_sub(deleted),
                None => None,
            },
            (None, _) => None,
        }
    }
}

} // verus!
