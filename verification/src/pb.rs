//! The messages that nodes and buffers are made of.
//!
//! Field numbers and wire types are in [`crate::wire`]; here are the values.

use vstd::prelude::*;

use crate::error::{Error, Reason};
use crate::record::{DataFile, DataOverlayFile, DeletionFileType, FileView, Fragment,
    FragmentView, LineageMeta, LineageView, OverlayView};
use crate::record;
use crate::views;

verus! {

broadcast use crate::views::group_views;

/// A deletion file as stored: the type is its number and a count of zero
/// stands for an unknown count outside this tree.
#[derive(Clone, Copy, Debug, PartialEq, Eq)]
pub struct DeletionFile {
    pub file_type: i32,
    pub read_version: u64,
    pub id: u64,
    pub num_deleted_rows: u64,
    pub base_id: Option<u32>,
}

/// The stored number of an array deletion file.
pub const DELETION_FILE_ARROW_ARRAY: i32 = 0;

/// The stored number of a bitmap deletion file.
pub const DELETION_FILE_BITMAP: i32 = 1;

impl DeletionFile {
    pub open spec fn decoded(self) -> Result<record::DeletionFile, Error> {
        if self.file_type == DELETION_FILE_ARROW_ARRAY || self.file_type == DELETION_FILE_BITMAP {
            Ok(
                record::DeletionFile {
                    read_version: self.read_version,
                    id: self.id,
                    file_type: if self.file_type == DELETION_FILE_ARROW_ARRAY {
                        DeletionFileType::Array
                    } else {
                        DeletionFileType::Bitmap
                    },
                    num_deleted_rows: Some(self.num_deleted_rows as usize),
                    base_id: self.base_id,
                },
            )
        } else {
            Err(
                Error::NotSupported {
                    reason: Reason::UnknownDeletionFileType { file_type: self.file_type },
                },
            )
        }
    }

    /// The in-memory deletion file. Its count is known, including zero.
    pub fn decode(&self) -> (r: Result<record::DeletionFile, Error>)
        requires
            self.num_deleted_rows <= usize::MAX,
        ensures
            r == self.decoded(),
    {
        let file_type = if self.file_type == DELETION_FILE_ARROW_ARRAY {
            DeletionFileType::Array
        } else if self.file_type == DELETION_FILE_BITMAP {
            DeletionFileType::Bitmap
        } else {
            return Err(
                Error::NotSupported {
                    reason: Reason::UnknownDeletionFileType { file_type: self.file_type },
                },
            );
        };
        Ok(
            record::DeletionFile {
                read_version: self.read_version,
                id: self.id,
                file_type,
                num_deleted_rows: Some(self.num_deleted_rows as usize),
                base_id: self.base_id,
            },
        )
    }
}

impl record::DeletionFile {
    pub open spec fn encoded(self) -> DeletionFile {
        DeletionFile {
            file_type: if self.file_type == DeletionFileType::Array {
                DELETION_FILE_ARROW_ARRAY
            } else {
                DELETION_FILE_BITMAP
            },
            read_version: self.read_version,
            id: self.id,
            num_deleted_rows: match self.num_deleted_rows {
                Some(count) => count as u64,
                None => 0,
            },
            base_id: self.base_id,
        }
    }

    /// The stored form. An unknown count is stored as zero.
    pub fn encode(&self) -> (r: DeletionFile)
        ensures
            r == self.encoded(),
    {
        let file_type: i32 = match self.file_type {
            DeletionFileType::Array => DELETION_FILE_ARROW_ARRAY,
            DeletionFileType::Bitmap => DELETION_FILE_BITMAP,
        };
        let num_deleted_rows: u64 = match self.num_deleted_rows {
            Some(count) => count as u64,
            None => 0,
        };
        DeletionFile {
            file_type,
            read_version: self.read_version,
            id: self.id,
            num_deleted_rows,
            base_id: self.base_id,
        }
    }
}

/// A fragment record as stored.
#[derive(Debug, PartialEq, Eq)]
pub struct DataFragment {
    pub id: u64,
    pub files: Vec<DataFile>,
    pub overlays: Vec<DataOverlayFile>,
    pub deletion_file: Option<DeletionFile>,
    pub row_id_sequence: Option<LineageMeta>,
    pub physical_rows: u64,
    pub last_updated_at_version_sequence: Option<LineageMeta>,
    pub created_at_version_sequence: Option<LineageMeta>,
}

pub struct DataFragmentView {
    pub id: u64,
    pub files: Seq<FileView>,
    pub overlays: Seq<OverlayView>,
    pub deletion_file: Option<DeletionFile>,
    pub row_id_sequence: Option<LineageView>,
    pub physical_rows: u64,
    pub last_updated_at_version_sequence: Option<LineageView>,
    pub created_at_version_sequence: Option<LineageView>,
}

impl View for DataFragment {
    type V = DataFragmentView;

    open spec fn view(&self) -> DataFragmentView {
        DataFragmentView {
            id: self.id,
            files: views::all(self.files@),
            overlays: views::all(self.overlays@),
            deletion_file: self.deletion_file,
            row_id_sequence: views::opt(self.row_id_sequence),
            physical_rows: self.physical_rows,
            last_updated_at_version_sequence: views::opt(self.last_updated_at_version_sequence),
            created_at_version_sequence: views::opt(self.created_at_version_sequence),
        }
    }
}

impl Clone for DataFragment {
    fn clone(&self) -> (r: Self)
        ensures
            r@ == self@,
    {
        DataFragment {
            id: self.id,
            files: record::clone_files(&self.files),
            overlays: record::clone_overlays(&self.overlays),
            deletion_file: self.deletion_file,
            row_id_sequence: self.row_id_sequence.clone(),
            physical_rows: self.physical_rows,
            last_updated_at_version_sequence: self.last_updated_at_version_sequence.clone(),
            created_at_version_sequence: self.created_at_version_sequence.clone(),
        }
    }
}

impl FragmentView {
    /// The stored form of a record: unknown counts are stored as zero.
    pub open spec fn encoded(self) -> DataFragmentView {
        DataFragmentView {
            id: self.id,
            files: self.files,
            overlays: self.overlays,
            deletion_file: match self.deletion_file {
                Some(file) => Some(file.encoded()),
                None => None,
            },
            row_id_sequence: self.row_id_meta,
            physical_rows: match self.physical_rows {
                Some(rows) => rows as u64,
                None => 0,
            },
            last_updated_at_version_sequence: self.last_updated_at_version_meta,
            created_at_version_sequence: self.created_at_version_meta,
        }
    }

    /// Whether storing the record and reading it back gives the record.
    pub open spec fn storable(self) -> bool {
        &&& self.id <= u32::MAX
        &&& self.physical_rows is Some
        &&& self.deletion_file matches Some(file) ==> {
            &&& file.num_deleted_rows is Some
            &&& file.num_deleted_rows->0 <= self.physical_rows->0
        }
    }
}

impl DataFragmentView {
    /// Why a stored record is refused before its files are looked at.
    pub open spec fn count_fault(self) -> Option<Reason> {
        if self.physical_rows > usize::MAX {
            Some(Reason::RowCountExceedsUsize { id: self.id })
        } else if self.id > u32::MAX || (self.deletion_file matches Some(file)
            && file.num_deleted_rows > self.physical_rows) {
            Some(
                Reason::FragmentCounts {
                    id: self.id,
                    physical_rows: self.physical_rows,
                    deleted_rows: match self.deletion_file {
                        Some(file) => Some(file.num_deleted_rows),
                        None => None,
                    },
                },
            )
        } else {
            None
        }
    }

    /// What a stored record stands for. Counts in a tree are always known,
    /// including zero.
    pub open spec fn decoded(self) -> Result<FragmentView, Error> {
        match self.count_fault() {
            Some(reason) => Err(Error::CorruptFile { reason }),
            None => match self.deletion_file {
                Some(file) => match file.decoded() {
                    Ok(file) => Ok(self.with_deletion(Some(file))),
                    Err(error) => Err(error),
                },
                None => Ok(self.with_deletion(None)),
            },
        }
    }

    pub open spec fn with_deletion(
        self,
        deletion_file: Option<record::DeletionFile>,
    ) -> FragmentView {
        FragmentView {
            id: self.id,
            files: self.files,
            overlays: self.overlays,
            deletion_file,
            row_id_meta: self.row_id_sequence,
            physical_rows: Some(self.physical_rows as usize),
            last_updated_at_version_meta: self.last_updated_at_version_sequence,
            created_at_version_meta: self.created_at_version_sequence,
        }
    }
}

impl DataFragment {
    /// The stored form of a record.
    pub fn encode(fragment: &Fragment) -> (r: Self)
        ensures
            r@ == fragment@.encoded(),
    {
        let deletion_file = match &fragment.deletion_file {
            Some(file) => Some(file.encode()),
            None => None,
        };
        let physical_rows: u64 = match fragment.physical_rows {
            Some(rows) => rows as u64,
            None => 0,
        };
        DataFragment {
            id: fragment.id,
            files: record::clone_files(&fragment.files),
            overlays: record::clone_overlays(&fragment.overlays),
            deletion_file,
            row_id_sequence: fragment.row_id_meta.clone(),
            physical_rows,
            last_updated_at_version_sequence: fragment.last_updated_at_version_meta.clone(),
            created_at_version_sequence: fragment.created_at_version_meta.clone(),
        }
    }
}

/// A record that is valid for this tree survives being stored.
pub proof fn law_stored_record_reads_back(fragment: FragmentView)
    requires
        fragment.storable(),
    ensures
        fragment.encoded().decoded() == Ok::<FragmentView, Error>(fragment),
{
    let encoded = fragment.encoded();
    match fragment.deletion_file {
        Some(file) => {
            assert(file.encoded().decoded() == Ok::<record::DeletionFile, Error>(file));
        },
        None => {},
    }
    assert(encoded.decoded()->Ok_0 == fragment);
}

/// What reads back from storage is valid for this tree and is stored as it was.
pub proof fn law_read_record_is_storable(stored: DataFragmentView)
    requires
        stored.decoded() is Ok,
    ensures
        stored.decoded()->Ok_0.storable(),
        stored.decoded()->Ok_0.encoded() == stored,
        stored.decoded()->Ok_0.id == stored.id,
{
    match stored.deletion_file {
        Some(file) => {
            assert(file.decoded()->Ok_0.encoded() == file);
        },
        None => {},
    }
    assert(stored.decoded()->Ok_0.encoded() == stored);
}

/// Attach a data file to a fragment.
#[derive(Debug, PartialEq, Eq)]
pub struct AddDataFile {
    pub frag_id: u64,
    pub file: Option<DataFile>,
}

/// Drop every data file at a path from a fragment.
#[derive(Debug, PartialEq, Eq)]
pub struct RemoveDataFile {
    pub frag_id: u64,
    pub path: String,
}

/// Swap the first data file at a path for another, keeping its fields.
#[derive(Debug, PartialEq, Eq)]
pub struct ReplaceDataFile {
    pub frag_id: u64,
    pub expected_path: String,
    pub path: String,
    pub file_size_bytes: u64,
    pub base_id: Option<u32>,
}

/// Attach or replace a fragment's deletion file.
#[derive(Clone, Copy, Debug, PartialEq, Eq)]
pub struct AddDeletionFile {
    pub frag_id: u64,
    pub deletion_file: Option<DeletionFile>,
}

/// Drop a fragment's deletion file.
#[derive(Clone, Copy, Debug, PartialEq, Eq)]
pub struct ClearDeletionFile {
    pub frag_id: u64,
}

/// One storage change of one fragment.
#[derive(Debug, PartialEq, Eq)]
pub enum Action {
    AddFragment(DataFragment),
    RemoveFragment(u64),
    AddDataFile(AddDataFile),
    RemoveDataFile(RemoveDataFile),
    ReplaceDataFile(ReplaceDataFile),
    AddDeletionFile(AddDeletionFile),
    ClearDeletionFile(ClearDeletionFile),
}

pub enum ActionView {
    AddFragment(DataFragmentView),
    RemoveFragment(u64),
    AddDataFile { frag_id: u64, file: Option<FileView> },
    RemoveDataFile { frag_id: u64, path: Seq<char> },
    ReplaceDataFile {
        frag_id: u64,
        expected_path: Seq<char>,
        path: Seq<char>,
        file_size_bytes: u64,
        base_id: Option<u32>,
    },
    AddDeletionFile { frag_id: u64, deletion_file: Option<DeletionFile> },
    ClearDeletionFile { frag_id: u64 },
}

impl View for Action {
    type V = ActionView;

    open spec fn view(&self) -> ActionView {
        match self {
            Action::AddFragment(f) => ActionView::AddFragment(f@),
            Action::RemoveFragment(id) => ActionView::RemoveFragment(*id),
            Action::AddDataFile(a) => ActionView::AddDataFile {
                frag_id: a.frag_id,
                file: views::opt(a.file),
            },
            Action::RemoveDataFile(a) => ActionView::RemoveDataFile {
                frag_id: a.frag_id,
                path: a.path@,
            },
            Action::ReplaceDataFile(a) => ActionView::ReplaceDataFile {
                frag_id: a.frag_id,
                expected_path: a.expected_path@,
                path: a.path@,
                file_size_bytes: a.file_size_bytes,
                base_id: a.base_id,
            },
            Action::AddDeletionFile(a) => ActionView::AddDeletionFile {
                frag_id: a.frag_id,
                deletion_file: a.deletion_file,
            },
            Action::ClearDeletionFile(a) => ActionView::ClearDeletionFile { frag_id: a.frag_id },
        }
    }
}

impl Clone for Action {
    fn clone(&self) -> (r: Self)
        ensures
            r@ == self@,
    {
        match self {
            Action::AddFragment(f) => Action::AddFragment(f.clone()),
            Action::RemoveFragment(id) => Action::RemoveFragment(*id),
            Action::AddDataFile(a) => Action::AddDataFile(
                AddDataFile { frag_id: a.frag_id, file: a.file.clone() },
            ),
            Action::RemoveDataFile(a) => Action::RemoveDataFile(
                RemoveDataFile { frag_id: a.frag_id, path: a.path.clone() },
            ),
            Action::ReplaceDataFile(a) => Action::ReplaceDataFile(
                ReplaceDataFile {
                    frag_id: a.frag_id,
                    expected_path: a.expected_path.clone(),
                    path: a.path.clone(),
                    file_size_bytes: a.file_size_bytes,
                    base_id: a.base_id,
                },
            ),
            Action::AddDeletionFile(a) => Action::AddDeletionFile(*a),
            Action::ClearDeletionFile(a) => Action::ClearDeletionFile(*a),
        }
    }
}

impl ActionView {
    /// The fragment an action changes.
    pub open spec fn target(self) -> u64 {
        match self {
            ActionView::AddFragment(f) => f.id,
            ActionView::RemoveFragment(id) => id,
            ActionView::AddDataFile { frag_id, .. } => frag_id,
            ActionView::RemoveDataFile { frag_id, .. } => frag_id,
            ActionView::ReplaceDataFile { frag_id, .. } => frag_id,
            ActionView::AddDeletionFile { frag_id, .. } => frag_id,
            ActionView::ClearDeletionFile { frag_id } => frag_id,
        }
    }

    /// Whether an action sets the whole record, whatever it was.
    pub open spec fn is_reset(self) -> bool {
        self is AddFragment || self is RemoveFragment
    }

    /// Whether an action sets only the deletion file.
    pub open spec fn is_deletion(self) -> bool {
        self is AddDeletionFile || self is ClearDeletionFile
    }
}

/// An action as stored. A variant this version does not know reads as `None`.
#[derive(Debug, PartialEq, Eq)]
pub struct FragmentAction {
    pub action: Option<Action>,
}

impl View for FragmentAction {
    type V = Option<ActionView>;

    open spec fn view(&self) -> Option<ActionView> {
        views::opt(self.action)
    }
}

impl Clone for FragmentAction {
    fn clone(&self) -> (r: Self)
        ensures
            r@ == self@,
    {
        FragmentAction { action: self.action.clone() }
    }
}

/// A buffered action with its place in the commit order and the change it
/// makes to the aggregates of its ancestors.
#[derive(Debug, PartialEq, Eq)]
pub struct FragmentMetadataMutation {
    pub action_sequence: u64,
    pub action: Option<FragmentAction>,
    pub fragment_count_delta: i64,
    pub total_rows_delta: i64,
    pub visible_rows_delta: i64,
}

pub struct MutationView {
    pub action_sequence: u64,
    pub action: Option<Option<ActionView>>,
    pub fragment_count_delta: i64,
    pub total_rows_delta: i64,
    pub visible_rows_delta: i64,
}

impl View for FragmentMetadataMutation {
    type V = MutationView;

    open spec fn view(&self) -> MutationView {
        MutationView {
            action_sequence: self.action_sequence,
            action: views::opt(self.action),
            fragment_count_delta: self.fragment_count_delta,
            total_rows_delta: self.total_rows_delta,
            visible_rows_delta: self.visible_rows_delta,
        }
    }
}

impl Clone for FragmentMetadataMutation {
    fn clone(&self) -> (r: Self)
        ensures
            r@ == self@,
    {
        FragmentMetadataMutation {
            action_sequence: self.action_sequence,
            action: self.action.clone(),
            fragment_count_delta: self.fragment_count_delta,
            total_rows_delta: self.total_rows_delta,
            visible_rows_delta: self.visible_rows_delta,
        }
    }
}

pub fn clone_mutations(mutations: &Vec<FragmentMetadataMutation>) -> (r: Vec<
    FragmentMetadataMutation,
>)
    ensures
        views::all(r@) == views::all(mutations@),
{
    let r = mutations.clone();
    proof {
        views::lemma_views_equal(r@, mutations@);
    }
    r
}

impl MutationView {
    /// The action itself, where there is one that this version knows.
    pub open spec fn known(self) -> Option<ActionView> {
        match self.action {
            Some(action) => action,
            None => None,
        }
    }

    /// The fragment a mutation changes; zero for an action without a target.
    pub open spec fn key(self) -> u64 {
        match self.known() {
            Some(action) => action.target(),
            None => 0,
        }
    }
}

/// A reference to a written node and what its subtree sums to.
#[derive(Debug, PartialEq, Eq)]
pub struct FragmentMetadataChild {
    pub path: String,
    pub base_id: Option<u32>,
    pub min_key: u64,
    pub num_keys: u64,
    pub height: u32,
    pub num_children: u32,
    pub total_rows: u64,
    pub object_size: u64,
    pub materialized_through_action_sequence: u64,
    pub visible_rows: u64,
}

pub struct ChildView {
    pub path: Seq<char>,
    pub base_id: Option<u32>,
    pub min_key: u64,
    pub num_keys: u64,
    pub height: u32,
    pub num_children: u32,
    pub total_rows: u64,
    pub object_size: u64,
    pub materialized_through_action_sequence: u64,
    pub visible_rows: u64,
}

impl View for FragmentMetadataChild {
    type V = ChildView;

    open spec fn view(&self) -> ChildView {
        ChildView {
            path: self.path@,
            base_id: self.base_id,
            min_key: self.min_key,
            num_keys: self.num_keys,
            height: self.height,
            num_children: self.num_children,
            total_rows: self.total_rows,
            object_size: self.object_size,
            materialized_through_action_sequence: self.materialized_through_action_sequence,
            visible_rows: self.visible_rows,
        }
    }
}

impl Clone for FragmentMetadataChild {
    fn clone(&self) -> (r: Self)
        ensures
            r@ == self@,
    {
        FragmentMetadataChild {
            path: self.path.clone(),
            base_id: self.base_id,
            min_key: self.min_key,
            num_keys: self.num_keys,
            height: self.height,
            num_children: self.num_children,
            total_rows: self.total_rows,
            object_size: self.object_size,
            materialized_through_action_sequence: self.materialized_through_action_sequence,
            visible_rows: self.visible_rows,
        }
    }
}

pub fn clone_children(children: &Vec<FragmentMetadataChild>) -> (r: Vec<FragmentMetadataChild>)
    ensures
        views::all(r@) == views::all(children@),
{
    let r = children.clone();
    proof {
        views::lemma_views_equal(r@, children@);
    }
    r
}

/// The root of a tree: its children, its buffer and the next place in the
/// commit order.
#[derive(Debug, PartialEq, Eq)]
pub struct FragmentMetadataRoot {
    pub children: Vec<FragmentMetadataChild>,
    pub buffer: Vec<FragmentMetadataMutation>,
    pub next_action_sequence: u64,
}

pub struct RootView {
    pub children: Seq<ChildView>,
    pub buffer: Seq<MutationView>,
    pub next_action_sequence: u64,
}

impl View for FragmentMetadataRoot {
    type V = RootView;

    open spec fn view(&self) -> RootView {
        RootView {
            children: views::all(self.children@),
            buffer: views::all(self.buffer@),
            next_action_sequence: self.next_action_sequence,
        }
    }
}

impl Clone for FragmentMetadataRoot {
    fn clone(&self) -> (r: Self)
        ensures
            r@ == self@,
    {
        FragmentMetadataRoot {
            children: clone_children(&self.children),
            buffer: clone_mutations(&self.buffer),
            next_action_sequence: self.next_action_sequence,
        }
    }
}

/// Where the root of a published tree is: in the descriptor, or in an object
/// named by an identifier.
#[derive(Debug, PartialEq, Eq)]
pub enum Root {
    InlineRoot(FragmentMetadataRoot),
    RootUuid(Vec<u8>),
}

pub enum RootBase {
    InlineRoot(RootView),
    RootUuid(Seq<u8>),
}

impl View for Root {
    type V = RootBase;

    open spec fn view(&self) -> RootBase {
        match self {
            Root::InlineRoot(root) => RootBase::InlineRoot(root@),
            Root::RootUuid(bytes) => RootBase::RootUuid(bytes@),
        }
    }
}

impl Clone for Root {
    fn clone(&self) -> (r: Self)
        ensures
            r@ == self@,
    {
        match self {
            Root::InlineRoot(root) => Root::InlineRoot(root.clone()),
            Root::RootUuid(bytes) => {
                let copy = bytes.clone();
                assert(copy@ =~= bytes@);
                Root::RootUuid(copy)
            },
        }
    }
}

/// What a version manifest says of its tree: the root, the mutations since,
/// and the next place in the commit order.
#[derive(Debug, PartialEq, Eq)]
pub struct FragmentMetadataTree {
    pub root: Option<Root>,
    pub mutations_since_root: Vec<FragmentMetadataMutation>,
    pub next_action_sequence: u64,
}

pub struct TreeDescriptor {
    pub root: Option<RootBase>,
    pub mutations_since_root: Seq<MutationView>,
    pub next_action_sequence: u64,
}

impl View for FragmentMetadataTree {
    type V = TreeDescriptor;

    open spec fn view(&self) -> TreeDescriptor {
        TreeDescriptor {
            root: match self.root {
                Some(root) => Some(root@),
                None => None,
            },
            mutations_since_root: views::all(self.mutations_since_root@),
            next_action_sequence: self.next_action_sequence,
        }
    }
}

impl Clone for FragmentMetadataTree {
    fn clone(&self) -> (r: Self)
        ensures
            r@ == self@,
    {
        FragmentMetadataTree {
            root: match &self.root {
                Some(root) => Some(root.clone()),
                None => None,
            },
            mutations_since_root: clone_mutations(&self.mutations_since_root),
            next_action_sequence: self.next_action_sequence,
        }
    }
}

} // verus!
