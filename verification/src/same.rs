//! Comparing values by what they stand for.

use vstd::prelude::*;

use crate::pb;
use crate::pb::{Action, FragmentAction, FragmentMetadataChild, FragmentMetadataMutation};
use crate::record::{DataFile, DataOverlayFile, DeletionFile, Fragment, LineageMeta};
use crate::views;

verus! {

broadcast use crate::views::group_views;

fn opt_u32(a: Option<u32>, b: Option<u32>) -> (r: bool)
    ensures
        r == (a == b),
{
    match (a, b) {
        (Some(x), Some(y)) => x == y,
        (None, None) => true,
        _ => false,
    }
}

fn opt_usize(a: Option<usize>, b: Option<usize>) -> (r: bool)
    ensures
        r == (a == b),
{
    match (a, b) {
        (Some(x), Some(y)) => x == y,
        (None, None) => true,
        _ => false,
    }
}

/// Whether two lists of numbers are the same.
pub fn ints(a: &Vec<i32>, b: &Vec<i32>) -> (r: bool)
    ensures
        r == (a@ == b@),
{
    if a.len() != b.len() {
        return false;
    }
    let mut i: usize = 0;
    while i < a.len()
        invariant
            i <= a@.len(),
            a@.len() == b@.len(),
            forall|k: int| 0 <= k < i ==> a@[k] == b@[k],
        decreases a@.len() - i,
    {
        if a[i] != b[i] {
            return false;
        }
        i = i + 1;
    }
    assert(a@ =~= b@);
    true
}

fn bytes(a: &Vec<u8>, b: &Vec<u8>) -> (r: bool)
    ensures
        r == (a@ == b@),
{
    if a.len() != b.len() {
        return false;
    }
    let mut i: usize = 0;
    while i < a.len()
        invariant
            i <= a@.len(),
            a@.len() == b@.len(),
            forall|k: int| 0 <= k < i ==> a@[k] == b@[k],
        decreases a@.len() - i,
    {
        if a[i] != b[i] {
            return false;
        }
        i = i + 1;
    }
    assert(a@ =~= b@);
    true
}

/// Whether two data files are the same.
pub fn file(a: &DataFile, b: &DataFile) -> (r: bool)
    ensures
        r == (a@ == b@),
{
    a.path == b.path && ints(&a.fields, &b.fields) && ints(&a.column_indices, &b.column_indices)
        && a.file_major_version == b.file_major_version && a.file_minor_version
        == b.file_minor_version && a.file_size_bytes == b.file_size_bytes && opt_u32(
        a.base_id,
        b.base_id,
    )
}

fn files(a: &Vec<DataFile>, b: &Vec<DataFile>) -> (r: bool)
    ensures
        r == (views::all(a@) == views::all(b@)),
{
    let ghost x = views::all(a@);
    let ghost y = views::all(b@);
    if a.len() != b.len() {
        assert(x.len() != y.len());
        return false;
    }
    let mut i: usize = 0;
    while i < a.len()
        invariant
            i <= a@.len(),
            a@.len() == b@.len(),
            x == views::all(a@),
            y == views::all(b@),
            forall|k: int| 0 <= k < i ==> x[k] == y[k],
        decreases a@.len() - i,
    {
        if !file(&a[i], &b[i]) {
            assert(x[i as int] != y[i as int]);
            return false;
        }
        i = i + 1;
    }
    assert(x =~= y);
    true
}

/// Whether two lists of overlays are the same.
pub fn overlays(a: &Vec<DataOverlayFile>, b: &Vec<DataOverlayFile>) -> (r: bool)
    ensures
        r == (views::all(a@) == views::all(b@)),
{
    let ghost x = views::all(a@);
    let ghost y = views::all(b@);
    if a.len() != b.len() {
        assert(x.len() != y.len());
        return false;
    }
    let mut i: usize = 0;
    while i < a.len()
        invariant
            i <= a@.len(),
            a@.len() == b@.len(),
            x == views::all(a@),
            y == views::all(b@),
            forall|k: int| 0 <= k < i ==> x[k] == y[k],
        decreases a@.len() - i,
    {
        if !(file(&a[i].data_file, &b[i].data_file) && bytes(
            &a[i].overlay_meta,
            &b[i].overlay_meta,
        )) {
            assert(x[i as int] != y[i as int]);
            return false;
        }
        i = i + 1;
    }
    assert(x =~= y);
    true
}

fn deletion(a: &Option<DeletionFile>, b: &Option<DeletionFile>) -> (r: bool)
    ensures
        r == (*a == *b),
{
    match (a, b) {
        (Some(x), Some(y)) => x.read_version == y.read_version && x.id == y.id && x.file_type
            == y.file_type && opt_usize(x.num_deleted_rows, y.num_deleted_rows) && opt_u32(
            x.base_id,
            y.base_id,
        ),
        (None, None) => true,
        _ => false,
    }
}

fn lineage(a: &Option<LineageMeta>, b: &Option<LineageMeta>) -> (r: bool)
    ensures
        r == (views::opt(*a) == views::opt(*b)),
{
    match (a, b) {
        (Some(LineageMeta::Inline(x)), Some(LineageMeta::Inline(y))) => bytes(x, y),
        (
            Some(LineageMeta::External { path: p, offset: o, size: s }),
            Some(LineageMeta::External { path: q, offset: n, size: t }),
        ) => *p == *q && *o == *n && *s == *t,
        (Some(LineageMeta::Column), Some(LineageMeta::Column)) => true,
        (None, None) => true,
        _ => false,
    }
}

/// Whether two records are the same.
pub fn fragment(a: &Fragment, b: &Fragment) -> (r: bool)
    ensures
        r == (a@ == b@),
{
    a.id == b.id && files(&a.files, &b.files) && overlays(&a.overlays, &b.overlays) && deletion(
        &a.deletion_file,
        &b.deletion_file,
    ) && lineage(&a.row_id_meta, &b.row_id_meta) && opt_usize(a.physical_rows, b.physical_rows)
        && lineage(&a.last_updated_at_version_meta, &b.last_updated_at_version_meta) && lineage(
        &a.created_at_version_meta,
        &b.created_at_version_meta,
    )
}

/// Whether two lists of records are the same.
pub fn fragments(a: &Vec<Fragment>, b: &Vec<Fragment>) -> (r: bool)
    ensures
        r == (views::all(a@) == views::all(b@)),
{
    let ghost x = views::all(a@);
    let ghost y = views::all(b@);
    if a.len() != b.len() {
        assert(x.len() != y.len());
        return false;
    }
    let mut i: usize = 0;
    while i < a.len()
        invariant
            i <= a@.len(),
            a@.len() == b@.len(),
            x == views::all(a@),
            y == views::all(b@),
            forall|k: int| 0 <= k < i ==> x[k] == y[k],
        decreases a@.len() - i,
    {
        if !fragment(&a[i], &b[i]) {
            assert(x[i as int] != y[i as int]);
            return false;
        }
        i = i + 1;
    }
    assert(x =~= y);
    true
}

fn stored_deletion(a: &Option<pb::DeletionFile>, b: &Option<pb::DeletionFile>) -> (r: bool)
    ensures
        r == (*a == *b),
{
    match (a, b) {
        (Some(x), Some(y)) => x.file_type == y.file_type && x.read_version == y.read_version
            && x.id == y.id && x.num_deleted_rows == y.num_deleted_rows && opt_u32(
            x.base_id,
            y.base_id,
        ),
        (None, None) => true,
        _ => false,
    }
}

fn stored_fragment(a: &pb::DataFragment, b: &pb::DataFragment) -> (r: bool)
    ensures
        r == (a@ == b@),
{
    a.id == b.id && files(&a.files, &b.files) && overlays(&a.overlays, &b.overlays)
        && stored_deletion(&a.deletion_file, &b.deletion_file) && lineage(
        &a.row_id_sequence,
        &b.row_id_sequence,
    ) && a.physical_rows == b.physical_rows && lineage(
        &a.last_updated_at_version_sequence,
        &b.last_updated_at_version_sequence,
    ) && lineage(&a.created_at_version_sequence, &b.created_at_version_sequence)
}

fn action(a: &Action, b: &Action) -> (r: bool)
    ensures
        r == (a@ == b@),
{
    match (a, b) {
        (Action::AddFragment(x), Action::AddFragment(y)) => stored_fragment(x, y),
        (Action::RemoveFragment(x), Action::RemoveFragment(y)) => *x == *y,
        (Action::AddDataFile(x), Action::AddDataFile(y)) => x.frag_id == y.frag_id && match (
            &x.file,
            &y.file,
        ) {
            (Some(f), Some(g)) => file(f, g),
            (None, None) => true,
            _ => false,
        },
        (Action::RemoveDataFile(x), Action::RemoveDataFile(y)) => x.frag_id == y.frag_id && x.path
            == y.path,
        (Action::ReplaceDataFile(x), Action::ReplaceDataFile(y)) => x.frag_id == y.frag_id
            && x.expected_path == y.expected_path && x.path == y.path && x.file_size_bytes
            == y.file_size_bytes && opt_u32(x.base_id, y.base_id),
        (Action::AddDeletionFile(x), Action::AddDeletionFile(y)) => x.frag_id == y.frag_id
            && stored_deletion(&x.deletion_file, &y.deletion_file),
        (Action::ClearDeletionFile(x), Action::ClearDeletionFile(y)) => x.frag_id == y.frag_id,
        _ => false,
    }
}

fn stored_action(a: &FragmentAction, b: &FragmentAction) -> (r: bool)
    ensures
        r == (a@ == b@),
{
    match (&a.action, &b.action) {
        (Some(x), Some(y)) => action(x, y),
        (None, None) => true,
        _ => false,
    }
}

fn mutation(a: &FragmentMetadataMutation, b: &FragmentMetadataMutation) -> (r: bool)
    ensures
        r == (a@ == b@),
{
    let same_action = match (&a.action, &b.action) {
        (Some(x), Some(y)) => stored_action(x, y),
        (None, None) => true,
        _ => false,
    };
    same_action && a.action_sequence == b.action_sequence && a.fragment_count_delta
        == b.fragment_count_delta && a.total_rows_delta == b.total_rows_delta
        && a.visible_rows_delta == b.visible_rows_delta
}

/// Whether two buffers are the same.
pub fn mutations(a: &Vec<FragmentMetadataMutation>, b: &Vec<FragmentMetadataMutation>) -> (r: bool)
    ensures
        r == (views::all(a@) == views::all(b@)),
{
    let ghost x = views::all(a@);
    let ghost y = views::all(b@);
    if a.len() != b.len() {
        assert(x.len() != y.len());
        return false;
    }
    let mut i: usize = 0;
    while i < a.len()
        invariant
            i <= a@.len(),
            a@.len() == b@.len(),
            x == views::all(a@),
            y == views::all(b@),
            forall|k: int| 0 <= k < i ==> x[k] == y[k],
        decreases a@.len() - i,
    {
        if !mutation(&a[i], &b[i]) {
            assert(x[i as int] != y[i as int]);
            return false;
        }
        i = i + 1;
    }
    assert(x =~= y);
    true
}

fn child(a: &FragmentMetadataChild, b: &FragmentMetadataChild) -> (r: bool)
    ensures
        r == (a@ == b@),
{
    a.path == b.path && opt_u32(a.base_id, b.base_id) && a.min_key == b.min_key && a.num_keys
        == b.num_keys && a.height == b.height && a.num_children == b.num_children && a.total_rows
        == b.total_rows && a.object_size == b.object_size && a.materialized_through_action_sequence
        == b.materialized_through_action_sequence && a.visible_rows == b.visible_rows
}

/// Whether two lists of child references are the same.
pub fn children(a: &Vec<FragmentMetadataChild>, b: &Vec<FragmentMetadataChild>) -> (r: bool)
    ensures
        r == (views::all(a@) == views::all(b@)),
{
    let ghost x = views::all(a@);
    let ghost y = views::all(b@);
    if a.len() != b.len() {
        assert(x.len() != y.len());
        return false;
    }
    let mut i: usize = 0;
    while i < a.len()
        invariant
            i <= a@.len(),
            a@.len() == b@.len(),
            x == views::all(a@),
            y == views::all(b@),
            forall|k: int| 0 <= k < i ==> x[k] == y[k],
        decreases a@.len() - i,
    {
        if !child(&a[i], &b[i]) {
            assert(x[i as int] != y[i as int]);
            return false;
        }
        i = i + 1;
    }
    assert(x =~= y);
    true
}

/// Whether an object is named the same way.
pub fn place(path: &String, base_id: Option<u32>, other: &String, other_base: Option<u32>) -> (r:
    bool)
    ensures
        r == (path@ == other@ && base_id == other_base),
{
    opt_u32(base_id, other_base) && *path == *other
}

fn root_node(a: &pb::FragmentMetadataRoot, b: &pb::FragmentMetadataRoot) -> (r: bool)
    ensures
        r == (a@ == b@),
{
    children(&a.children, &b.children) && mutations(&a.buffer, &b.buffer) && a.next_action_sequence
        == b.next_action_sequence
}

fn root_base(a: &Option<pb::Root>, b: &Option<pb::Root>) -> (r: bool)
    ensures
        r == (views::opt(*a) == views::opt(*b)),
{
    match (a, b) {
        (None, None) => true,
        (Some(pb::Root::InlineRoot(a)), Some(pb::Root::InlineRoot(b))) => root_node(a, b),
        (Some(pb::Root::RootUuid(a)), Some(pb::Root::RootUuid(b))) => bytes(a, b),
        _ => false,
    }
}

/// Whether two descriptors are the same.
pub fn descriptor(a: &pb::FragmentMetadataTree, b: &pb::FragmentMetadataTree) -> (r: bool)
    ensures
        r == (a@ == b@),
{
    root_base(&a.root, &b.root) && mutations(&a.mutations_since_root, &b.mutations_since_root)
        && a.next_action_sequence == b.next_action_sequence
}

} // verus!
