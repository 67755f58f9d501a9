//! Keeping references inside objects that another dataset owns.
//!
//! An object read from another dataset names its files and children without
//! saying whose they are. Reading stamps that dataset on every such name.

use vstd::prelude::*;

use crate::error::{Error, Reason};
use crate::pb::{Action, ActionView, ChildView, DataFragmentView, DeletionFile, FragmentAction,
    FragmentMetadataChild, FragmentMetadataMutation, MutationView};
use crate::record::{DataFile, DataOverlayFile, FileView, Fragment, FragmentView, OverlayView};
use crate::record;
use crate::views;

verus! {

broadcast use crate::views::group_views;

/// The owner a name has once an unset one is taken to be `base`.
pub open spec fn owned_by(owner: Option<u32>, base: u32) -> Option<u32> {
    match owner {
        Some(owner) => Some(owner),
        None => Some(base),
    }
}

impl FileView {
    pub open spec fn stamped(self, base: u32) -> FileView {
        FileView { base_id: owned_by(self.base_id, base), ..self }
    }
}

impl OverlayView {
    pub open spec fn stamped(self, base: u32) -> OverlayView {
        OverlayView { data_file: self.data_file.stamped(base), ..self }
    }
}

pub open spec fn stamped_files(files: Seq<FileView>, base: u32) -> Seq<FileView> {
    Seq::new(files.len(), |i: int| files[i].stamped(base))
}

pub open spec fn stamped_overlays(overlays: Seq<OverlayView>, base: u32) -> Seq<OverlayView> {
    Seq::new(overlays.len(), |i: int| overlays[i].stamped(base))
}

impl FragmentView {
    pub open spec fn stamped(self, base: u32) -> FragmentView {
        FragmentView {
            files: stamped_files(self.files, base),
            overlays: stamped_overlays(self.overlays, base),
            deletion_file: match self.deletion_file {
                Some(file) => Some(
                    record::DeletionFile { base_id: owned_by(file.base_id, base), ..file },
                ),
                None => None,
            },
            ..self
        }
    }

    /// The record as read through a reference with an owner.
    pub open spec fn inherited(self, base: Option<u32>) -> FragmentView {
        match base {
            Some(base) => self.stamped(base),
            None => self,
        }
    }
}

impl DataFragmentView {
    pub open spec fn stamped(self, base: u32) -> DataFragmentView {
        DataFragmentView {
            files: stamped_files(self.files, base),
            overlays: stamped_overlays(self.overlays, base),
            deletion_file: match self.deletion_file {
                Some(file) => Some(DeletionFile { base_id: owned_by(file.base_id, base), ..file }),
                None => None,
            },
            ..self
        }
    }
}

impl ActionView {
    pub open spec fn stamped(self, base: u32) -> ActionView {
        match self {
            ActionView::AddFragment(fragment) => ActionView::AddFragment(fragment.stamped(base)),
            ActionView::AddDataFile { frag_id, file } => ActionView::AddDataFile {
                frag_id,
                file: match file {
                    Some(file) => Some(file.stamped(base)),
                    None => None,
                },
            },
            ActionView::AddDeletionFile { frag_id, deletion_file } => ActionView::AddDeletionFile {
                frag_id,
                deletion_file: match deletion_file {
                    Some(file) => Some(
                        DeletionFile { base_id: owned_by(file.base_id, base), ..file },
                    ),
                    None => None,
                },
            },
            ActionView::ReplaceDataFile {
                frag_id,
                expected_path,
                path,
                file_size_bytes,
                base_id,
            } => ActionView::ReplaceDataFile {
                frag_id,
                expected_path,
                path,
                file_size_bytes,
                base_id: owned_by(base_id, base),
            },
            _ => self,
        }
    }

    /// Why an action cannot be stamped: a record with a deletion file of an
    /// unknown type.
    pub open spec fn stamp_fault(self) -> Option<Error> {
        match self {
            ActionView::AddFragment(fragment) => match fragment.deletion_file {
                Some(file) => match file.decoded() {
                    Ok(_) => None,
                    Err(error) => Some(error),
                },
                None => None,
            },
            _ => None,
        }
    }
}

impl MutationView {
    pub open spec fn stamped(self, base: u32) -> MutationView {
        MutationView {
            action: match self.action {
                Some(Some(action)) => Some(Some(action.stamped(base))),
                _ => self.action,
            },
            ..self
        }
    }

    pub open spec fn stamp_fault(self) -> Option<Error> {
        match self.known() {
            Some(action) => action.stamp_fault(),
            None => None,
        }
    }
}

pub open spec fn stamped_buffer(s: Seq<MutationView>, base: u32) -> Seq<MutationView> {
    Seq::new(s.len(), |i: int| s[i].stamped(base))
}

/// A node's buffer as read through a reference with an owner.
pub open spec fn inherited_buffer(s: Seq<MutationView>, base: Option<u32>) -> Seq<MutationView> {
    match base {
        Some(base) => stamped_buffer(s, base),
        None => s,
    }
}

impl ChildView {
    pub open spec fn inherited(self, base: Option<u32>) -> ChildView {
        match base {
            Some(base) => ChildView { base_id: owned_by(self.base_id, base), ..self },
            None => self,
        }
    }
}

/// A node's children as read through a reference with an owner.
pub open spec fn inherited_children(s: Seq<ChildView>, base: Option<u32>) -> Seq<ChildView> {
    Seq::new(s.len(), |i: int| s[i].inherited(base))
}

/// Records as read through a reference with an owner.
pub open spec fn inherited_records(s: Seq<FragmentView>, base: Option<u32>) -> Seq<FragmentView> {
    Seq::new(s.len(), |i: int| s[i].inherited(base))
}

fn owner(base_id: Option<u32>, base: u32) -> (r: Option<u32>)
    ensures
        r == owned_by(base_id, base),
{
    match base_id {
        Some(id) => Some(id),
        None => Some(base),
    }
}

fn stamp_files(files: &Vec<DataFile>, base: u32) -> (r: Vec<DataFile>)
    ensures
        views::all(r@) == stamped_files(views::all(files@), base),
{
    let ghost all = stamped_files(views::all(files@), base);
    let mut list: Vec<DataFile> = Vec::new();
    let mut i: usize = 0;
    while i < files.len()
        invariant
            i <= files@.len(),
            all == stamped_files(views::all(files@), base),
            views::all(list@) == all.take(i as int),
        decreases files@.len() - i,
    {
        let mut file = files[i].clone();
        file.base_id = owner(file.base_id, base);
        list.push(file);
        assert(views::all(list@) =~= all.take(i + 1));
        i = i + 1;
    }
    assert(all.take(all.len() as int) =~= all);
    list
}

fn stamp_overlays(overlays: &Vec<DataOverlayFile>, base: u32) -> (r: Vec<DataOverlayFile>)
    ensures
        views::all(r@) == stamped_overlays(views::all(overlays@), base),
{
    let ghost all = stamped_overlays(views::all(overlays@), base);
    let mut list: Vec<DataOverlayFile> = Vec::new();
    let mut i: usize = 0;
    while i < overlays.len()
        invariant
            i <= overlays@.len(),
            all == stamped_overlays(views::all(overlays@), base),
            views::all(list@) == all.take(i as int),
        decreases overlays@.len() - i,
    {
        let mut overlay = overlays[i].clone();
        overlay.data_file.base_id = owner(overlay.data_file.base_id, base);
        list.push(overlay);
        assert(views::all(list@) =~= all.take(i + 1));
        i = i + 1;
    }
    assert(all.take(all.len() as int) =~= all);
    list
}

/// Stamp the unset owners of a record's files.
pub fn stamp_unset_base_id(fragment: &mut Fragment, base_id: u32)
    ensures
        final(fragment)@ == old(fragment)@.stamped(base_id),
{
    fragment.files = stamp_files(&fragment.files, base_id);
    fragment.overlays = stamp_overlays(&fragment.overlays, base_id);
    if let Some(file) = fragment.deletion_file {
        let mut file = file;
        file.base_id = owner(file.base_id, base_id);
        fragment.deletion_file = Some(file);
    }
}

fn stamp_action(action: &Action, base: u32) -> (r: Result<Action, Error>)
    ensures
        match action@.stamp_fault() {
            Some(error) => r == Err::<Action, Error>(error),
            None => r is Ok && r->Ok_0@ == action@.stamped(base),
        },
{
    let mut copy = action.clone();
    match copy {
        Action::AddFragment(fragment) => {
            let mut fragment = fragment;
            fragment.files = stamp_files(&fragment.files, base);
            fragment.overlays = stamp_overlays(&fragment.overlays, base);
            if let Some(file) = fragment.deletion_file {
                if file.file_type != crate::pb::DELETION_FILE_ARROW_ARRAY && file.file_type
                    != crate::pb::DELETION_FILE_BITMAP {
                    return Err(
                        Error::NotSupported {
                            reason: Reason::UnknownDeletionFileType { file_type: file.file_type },
                        },
                    );
                }
                let mut file = file;
                file.base_id = owner(file.base_id, base);
                fragment.deletion_file = Some(file);
            }
            Ok(Action::AddFragment(fragment))
        },
        Action::AddDataFile(a) => {
            let mut a = a;
            a.file = match a.file {
                Some(file) => {
                    let mut file = file;
                    file.base_id = owner(file.base_id, base);
                    Some(file)
                },
                None => None,
            };
            Ok(Action::AddDataFile(a))
        },
        Action::AddDeletionFile(a) => {
            let mut a = a;
            if let Some(file) = a.deletion_file {
                let mut file = file;
                file.base_id = owner(file.base_id, base);
                a.deletion_file = Some(file);
            }
            Ok(Action::AddDeletionFile(a))
        },
        Action::ReplaceDataFile(a) => {
            let mut a = a;
            a.base_id = owner(a.base_id, base);
            Ok(Action::ReplaceDataFile(a))
        },
        other => Ok(other),
    }
}

/// How many mutations can be stamped before one that cannot.
pub open spec fn stampable(s: Seq<MutationView>) -> int
    decreases s.len(),
{
    if s.len() == 0 {
        0
    } else {
        let rest = stampable(s.drop_last());
        if rest < s.len() - 1 || s.last().stamp_fault() is Some {
            rest
        } else {
            s.len() as int
        }
    }
}

pub proof fn lemma_stampable(s: Seq<MutationView>)
    ensures
        0 <= stampable(s) <= s.len(),
        forall|i: int| 0 <= i < stampable(s) ==> (#[trigger] s[i]).stamp_fault() is None,
        stampable(s) < s.len() ==> s[stampable(s)].stamp_fault() is Some,
    decreases s.len(),
{
    if s.len() > 0 {
        let rest = s.drop_last();
        lemma_stampable(rest);
        assert forall|i: int| 0 <= i < stampable(s) implies (
        #[trigger] s[i]).stamp_fault() is None by {
            if i < rest.len() {
                assert(rest[i] == s[i]);
            }
        }
        if stampable(rest) < rest.len() {
            assert(rest[stampable(rest)] == s[stampable(rest)]);
        }
    }
}

proof fn lemma_stampable_is(s: Seq<MutationView>, n: int)
    requires
        0 <= n <= s.len(),
        forall|i: int| 0 <= i < n ==> (#[trigger] s[i]).stamp_fault() is None,
        n < s.len() ==> s[n].stamp_fault() is Some,
    ensures
        stampable(s) == n,
{
    lemma_stampable(s);
    if stampable(s) < n {
        assert(s[stampable(s)].stamp_fault() is None);
    }
    if n < stampable(s) {
        assert(s[n].stamp_fault() is None);
    }
}

/// Stamp unset file owners, including the files that carry row lineage. A
/// record with a deletion file of an unknown type stops the stamping there.
pub fn preserve_inherited_refs(
    mutations: &mut Vec<FragmentMetadataMutation>,
    base_id: u32,
) -> (r: Result<(), Error>)
    ensures
        ({
            let s = views::all(old(mutations)@);
            let n = stampable(s);
            &&& views::all(final(mutations)@) == stamped_buffer(s.take(n), base_id) + s.skip(n)
            &&& r == if n < s.len() {
                Err::<(), Error>(s[n].stamp_fault()->0)
            } else {
                Ok(())
            }
        }),
{
    let ghost s = views::all(mutations@);
    let ghost n = mutations@.len();
    let mut i: usize = 0;
    while i < mutations.len()
        invariant
            i <= mutations@.len(),
            mutations@.len() == n,
            s == views::all(old(mutations)@),
            s.len() == n,
            views::all(mutations@) == stamped_buffer(s.take(i as int), base_id) + s.skip(i as int),
            forall|k: int| 0 <= k < i ==> (#[trigger] s[k]).stamp_fault() is None,
        decreases n - i,
    {
        let mut tagged = mutations[i].clone();
        proof {
            assert(views::all(mutations@)[i as int] == s[i as int]);
            assert(tagged@ == s[i as int]);
        }
        let stamped: Option<Action> = match crate::squash::known_action(&tagged) {
            Some(action) => match stamp_action(action, base_id) {
                Ok(action) => Some(action),
                Err(error) => {
                    proof {
                        lemma_stampable_is(s, i as int);
                    }
                    return Err(error);
                },
            },
            None => None,
        };
        if let Some(action) = stamped {
            tagged.action = Some(FragmentAction { action: Some(action) });
        }
        let ghost before = views::all(mutations@);
        assert(tagged@ == s[i as int].stamped(base_id));
        mutations.set(i, tagged);
        proof {
            assert(views::all(mutations@) =~= before.update(i as int, tagged@));
            assert(views::all(mutations@) =~= stamped_buffer(s.take(i + 1), base_id) + s.skip(
                i + 1,
            ));
        }
        i = i + 1;
    }
    proof {
        lemma_stampable_is(s, n as int);
        assert(stamped_buffer(s.take(n as int), base_id) + s.skip(n as int)
            =~= views::all(mutations@));
    }
    Ok(())
}

/// Children as read through a reference with an owner.
pub fn inherit_children(
    children: Vec<FragmentMetadataChild>,
    base: Option<u32>,
) -> (r: Vec<FragmentMetadataChild>)
    ensures
        views::all(r@) == inherited_children(views::all(children@), base),
{
    let ghost all = inherited_children(views::all(children@), base);
    let mut list: Vec<FragmentMetadataChild> = Vec::new();
    for child in iter: children
        invariant
            iter.seq() == children@,
            all == inherited_children(views::all(children@), base),
            views::all(list@) == all.take(iter.index() as int),
    {
        let mut child = child;
        if let Some(base_id) = base {
            child.base_id = owner(child.base_id, base_id);
        }
        list.push(child);
        assert(views::all(list@) =~= all.take(iter.index() + 1));
    }
    assert(all.take(all.len() as int) =~= all);
    list
}

/// Records as read through a reference with an owner.
pub fn inherit_records(fragments: Vec<Fragment>, base: Option<u32>) -> (r: Vec<Fragment>)
    ensures
        views::all(r@) == inherited_records(views::all(fragments@), base),
{
    let ghost all = inherited_records(views::all(fragments@), base);
    let mut list: Vec<Fragment> = Vec::new();
    for fragment in iter: fragments
        invariant
            iter.seq() == fragments@,
            all == inherited_records(views::all(fragments@), base),
            views::all(list@) == all.take(iter.index() as int),
    {
        let mut fragment = fragment;
        if let Some(base_id) = base {
            stamp_unset_base_id(&mut fragment, base_id);
        }
        list.push(fragment);
        assert(views::all(list@) =~= all.take(iter.index() + 1));
    }
    assert(all.take(all.len() as int) =~= all);
    list
}

/// Stamping names an owner where there was none and changes nothing else:
/// identifiers, counts and what is already owned stay.
pub proof fn law_stamping_keeps_identity(fragment: FragmentView, base: u32)
    ensures
        fragment.stamped(base).id == fragment.id,
        fragment.stamped(base).physical_rows == fragment.physical_rows,
        fragment.stamped(base).num_rows() == fragment.num_rows(),
        fragment.stamped(base).storable() == fragment.storable(),
        fragment.stamped(base).stamped(base) == fragment.stamped(base),
{
    let once = fragment.stamped(base);
    assert(once.stamped(base).files =~= once.files);
    assert(once.stamped(base).overlays =~= once.overlays);
}

/// Whether an owner is the one that was named, or the given one where none was.
pub open spec fn takes_owner(was: Option<u32>, now: Option<u32>, base: u32) -> bool {
    match was {
        Some(owner) => now == Some(owner),
        None => now == Some(base),
    }
}

/// Whether some files are others with owners named.
pub open spec fn files_take_owner(was: Seq<FileView>, now: Seq<FileView>, base: u32) -> bool {
    &&& now.len() == was.len()
    &&& forall|i: int|
        0 <= i < was.len() ==> takes_owner(was[i].base_id, (#[trigger] now[i]).base_id, base)
            && now[i] == (FileView { base_id: now[i].base_id, ..was[i] })
}

/// Whether some overlays are others with the owners of their files named.
pub open spec fn overlays_take_owner(
    was: Seq<OverlayView>,
    now: Seq<OverlayView>,
    base: u32,
) -> bool {
    &&& now.len() == was.len()
    &&& forall|i: int|
        0 <= i < was.len() ==> {
            let a = was[i].data_file;
            let b = (#[trigger] now[i]).data_file;
            &&& takes_owner(a.base_id, b.base_id, base)
            &&& b == (FileView { base_id: b.base_id, ..a })
            &&& now[i] == (OverlayView { data_file: b, ..was[i] })
        }
}

/// A record read through a reference with an owner names an owner for every
/// file it refers to: each data file, each overlay's data file and the deletion
/// file. It is the one the file had, and the reference's where it had none.
/// Nothing else changes, and a reference without an owner changes nothing.
pub proof fn law_records_name_their_owners(
    records: Seq<FragmentView>,
    base_id: Option<u32>,
    i: int,
)
    requires
        0 <= i < records.len(),
    ensures
        ({
            let read = inherited_records(records, base_id);
            let was = records[i];
            let now = read[i];
            &&& read.len() == records.len()
            &&& base_id is None ==> now == was
            &&& base_id matches Some(base) ==> {
                &&& files_take_owner(was.files, now.files, base)
                &&& overlays_take_owner(was.overlays, now.overlays, base)
                &&& match (was.deletion_file, now.deletion_file) {
                    (None, None) => true,
                    (Some(a), Some(b)) => {
                        &&& takes_owner(a.base_id, b.base_id, base)
                        &&& b == (record::DeletionFile { base_id: b.base_id, ..a })
                    },
                    _ => false,
                }
                &&& now == (FragmentView {
                    files: now.files,
                    overlays: now.overlays,
                    deletion_file: now.deletion_file,
                    ..was
                })
            }
        }),
{
}

/// A child read through a reference with an owner belongs to the owner it
/// names, and to the reference's where it names none. Nothing else changes.
pub proof fn law_children_name_their_owners(
    children: Seq<ChildView>,
    base_id: Option<u32>,
    i: int,
)
    requires
        0 <= i < children.len(),
    ensures
        ({
            let read = inherited_children(children, base_id);
            &&& read.len() == children.len()
            &&& base_id is None ==> read[i] == children[i]
            &&& base_id matches Some(base) ==> takes_owner(
                children[i].base_id,
                read[i].base_id,
                base,
            ) && read[i] == (ChildView { base_id: read[i].base_id, ..children[i] })
        }),
{
}

/// A mutation read through a reference with an owner names an owner for every
/// file it brings: the files, overlays and deletion file of a record, an added
/// file, an added deletion file, and the new place of a replaced file. Its
/// place in the commit order, its deltas and everything else stay.
pub proof fn law_mutations_name_their_owners(
    buffer: Seq<MutationView>,
    base_id: Option<u32>,
    i: int,
)
    requires
        0 <= i < buffer.len(),
    ensures
        ({
            let read = inherited_buffer(buffer, base_id);
            let was = buffer[i];
            let now = read[i];
            &&& read.len() == buffer.len()
            &&& base_id is None ==> now == was
            &&& now == (MutationView { action: now.action, ..was })
            &&& base_id matches Some(base) ==> match (was.action, now.action) {
                (
                    Some(Some(ActionView::AddFragment(a))),
                    Some(Some(ActionView::AddFragment(b))),
                ) => {
                    &&& files_take_owner(a.files, b.files, base)
                    &&& overlays_take_owner(a.overlays, b.overlays, base)
                    &&& match (a.deletion_file, b.deletion_file) {
                        (None, None) => true,
                        (Some(x), Some(y)) => takes_owner(x.base_id, y.base_id, base) && y == (
                        DeletionFile { base_id: y.base_id, ..x }),
                        _ => false,
                    }
                    &&& b == (DataFragmentView {
                        files: b.files,
                        overlays: b.overlays,
                        deletion_file: b.deletion_file,
                        ..a
                    })
                },
                (
                    Some(Some(ActionView::AddDataFile { frag_id: a, file: x })),
                    Some(Some(ActionView::AddDataFile { frag_id: b, file: y })),
                ) => a == b && match (x, y) {
                    (None, None) => true,
                    (Some(x), Some(y)) => takes_owner(x.base_id, y.base_id, base) && y == (
                    FileView { base_id: y.base_id, ..x }),
                    _ => false,
                },
                (
                    Some(Some(ActionView::AddDeletionFile { frag_id: a, deletion_file: x })),
                    Some(Some(ActionView::AddDeletionFile { frag_id: b, deletion_file: y })),
                ) => a == b && match (x, y) {
                    (None, None) => true,
                    (Some(x), Some(y)) => takes_owner(x.base_id, y.base_id, base) && y == (
                    DeletionFile { base_id: y.base_id, ..x }),
                    _ => false,
                },
                (
                    Some(
                        Some(
                            ActionView::ReplaceDataFile {
                                frag_id: a,
                                expected_path: expected,
                                path,
                                file_size_bytes,
                                base_id: x,
                            },
                        ),
                    ),
                    Some(
                        Some(
                            ActionView::ReplaceDataFile {
                                frag_id: b,
                                expected_path,
                                path: to,
                                file_size_bytes: bytes,
                                base_id: y,
                            },
                        ),
                    ),
                ) => a == b && expected == expected_path && path == to && file_size_bytes == bytes
                    && takes_owner(x, y, base),
                (Some(Some(ActionView::AddFragment(_))), _) => false,
                (Some(Some(ActionView::AddDataFile { .. })), _) => false,
                (Some(Some(ActionView::AddDeletionFile { .. })), _) => false,
                (Some(Some(ActionView::ReplaceDataFile { .. })), _) => false,
                (a, b) => a == b,
            }
        }),
{
}

/// Whether a mutation brings a record with a deletion file of an unknown type.
pub open spec fn unreadable(m: MutationView) -> bool {
    m.action matches Some(Some(ActionView::AddFragment(f))) && f.deletion_file matches Some(file)
        && file.file_type != 0 && file.file_type != 1
}

/// Stamping goes as far as the first mutation that brings a deletion file of an
/// unknown type, and is refused with that type.
pub proof fn law_stamping_stops_at_an_unknown_deletion_file(s: Seq<MutationView>)
    ensures
        0 <= stampable(s) <= s.len(),
        forall|i: int| 0 <= i < stampable(s) ==> !unreadable(#[trigger] s[i]),
        stampable(s) < s.len() ==> unreadable(s[stampable(s)]),
        forall|i: int|
            0 <= i < s.len() && unreadable(#[trigger] s[i]) ==> s[i].stamp_fault() == Some(
                Error::NotSupported {
                    reason: crate::error::Reason::UnknownDeletionFileType {
                        file_type: s[i].action->0->0->AddFragment_0.deletion_file->0.file_type,
                    },
                },
            ),
{
    lemma_stampable(s);
    assert forall|m: MutationView| #[trigger] m.stamp_fault() is Some == unreadable(m) by {}
}

} // verus!
