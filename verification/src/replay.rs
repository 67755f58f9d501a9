//! What buffered mutations mean, and applying them.
//!
//! A fragment's record is a register: mutations of other fragments leave it
//! alone, so the meaning of a buffer is the meaning of each fragment's
//! mutations in commit order ([`outcome`]).

use std::collections::BTreeMap;
use vstd::prelude::*;

use crate::error::{EditKind, Error, Reason};
use crate::order;
use crate::pb::{Action, ActionView, FragmentAction, FragmentMetadataMutation, MutationView};
use crate::record::{DataFile, FileView, Fragment, FragmentView};
use crate::validation;
use crate::views;

verus! {

broadcast use {crate::views::group_views, vstd::std_specs::btree::group_btree_axioms};

/// Whether replay checks each mutation's count deltas against the record it
/// changes. Storage paths verify. Reduction and lowering compare records
/// only, with deltas left unset.
#[derive(Clone, Copy, Debug, PartialEq, Eq, Structural)]
pub enum DeltaCheck {
    Trust,
    Verify,
}

impl ActionView {
    /// Why an action is refused before it is looked at any further.
    pub open spec fn fault(self) -> Option<Error> {
        if self.target() > u32::MAX {
            Some(
                Error::CorruptFile { reason: Reason::ActionIdExceedsU32 { id: self.target() } },
            )
        } else {
            match self {
                ActionView::AddFragment(f) => match f.decoded() {
                    Ok(_) => None,
                    Err(error) => Some(error),
                },
                ActionView::AddDataFile { frag_id, file: None } => Some(
                    Error::CorruptFile {
                        reason: Reason::EditWithoutFile {
                            kind: EditKind::AddDataFile,
                            id: frag_id,
                        },
                    },
                ),
                ActionView::ReplaceDataFile { frag_id, expected_path, path, .. } => {
                    if expected_path.len() == 0 || path.len() == 0 {
                        Some(
                            Error::CorruptFile {
                                reason: Reason::ReplaceWithoutPath { id: frag_id },
                            },
                        )
                    } else {
                        None
                    }
                },
                ActionView::AddDeletionFile { frag_id, deletion_file: None } => Some(
                    Error::CorruptFile {
                        reason: Reason::EditWithoutFile {
                            kind: EditKind::AddDeletionFile,
                            id: frag_id,
                        },
                    },
                ),
                _ => None,
            }
        }
    }
}

/// Why a stored action is refused, where it is.
pub open spec fn stored_fault(action: Option<ActionView>) -> Option<Error> {
    match action {
        Some(a) => a.fault(),
        None => Some(Error::CorruptFile { reason: Reason::ActionUnknown }),
    }
}

impl MutationView {
    /// Why a buffered mutation is refused, where it is.
    pub open spec fn fault(self) -> Option<Error> {
        match self.action {
            Some(action) => stored_fault(action),
            None => Some(
                Error::CorruptFile {
                    reason: Reason::ActionMissing { action_sequence: self.action_sequence },
                },
            ),
        }
    }
}

/// The first refusal in a list, where there is one.
pub open spec fn first_fault(s: Seq<MutationView>) -> Option<Error>
    decreases s.len(),
{
    if s.len() == 0 {
        None
    } else {
        match first_fault(s.drop_last()) {
            Some(error) => Some(error),
            None => s.last().fault(),
        }
    }
}

/// The position of the first file at a path; the length where there is none.
pub open spec fn first_at(files: Seq<FileView>, path: Seq<char>) -> int
    decreases files.len(),
{
    if files.len() == 0 {
        0
    } else {
        let rest = first_at(files.drop_last(), path);
        if rest < files.len() - 1 || files.last().path == path {
            rest
        } else {
            files.len() as int
        }
    }
}

pub proof fn lemma_first_at(files: Seq<FileView>, path: Seq<char>)
    ensures
        0 <= first_at(files, path) <= files.len(),
        forall|i: int| 0 <= i < first_at(files, path) ==> (#[trigger] files[i]).path != path,
        first_at(files, path) < files.len() ==> files[first_at(files, path)].path == path,
    decreases files.len(),
{
    if files.len() > 0 {
        lemma_first_at(files.drop_last(), path);
        let rest = files.drop_last();
        assert forall|i: int| 0 <= i < first_at(files, path) implies (#[trigger] files[i]).path
            != path by {
            if i < rest.len() {
                assert(files[i] == rest[i]);
            }
        }
        if first_at(rest, path) < rest.len() {
            assert(rest[first_at(rest, path)] == files[first_at(rest, path)]);
        }
    }
}

/// A position with these properties is the first one.
pub proof fn lemma_first_at_is(files: Seq<FileView>, path: Seq<char>, at: int)
    requires
        0 <= at <= files.len(),
        forall|i: int| 0 <= i < at ==> (#[trigger] files[i]).path != path,
        at < files.len() ==> files[at].path == path,
    ensures
        first_at(files, path) == at,
{
    lemma_first_at(files, path);
    let found = first_at(files, path);
    if found < at {
        assert(files[found].path != path);
    }
    if at < found {
        assert(files[at].path != path);
    }
}

impl FileView {
    pub open spec fn replaced(self, path: Seq<char>, file_size_bytes: u64, base_id: Option<u32>) -> FileView {
        FileView { path, file_size_bytes, base_id, ..self }
    }
}

/// The files after dropping every file at a path.
pub open spec fn without_path(files: Seq<FileView>, path: Seq<char>) -> Seq<FileView> {
    files.filter(|file: FileView| file.path != path)
}

/// What a file edit makes of a fragment's files.
pub open spec fn edited_files(files: Seq<FileView>, action: ActionView) -> Result<
    Seq<FileView>,
    Error,
> {
    match action {
        ActionView::AddDataFile { frag_id, file } => match file {
            Some(file) => Ok(files.push(file)),
            None => Err(
                Error::InvalidInput {
                    reason: Reason::EditWithoutFile { kind: EditKind::AddDataFile, id: frag_id },
                },
            ),
        },
        ActionView::RemoveDataFile { path, .. } => Ok(without_path(files, path)),
        ActionView::ReplaceDataFile { frag_id, expected_path, path, file_size_bytes, base_id } => {
            let at = first_at(files, expected_path);
            if at < files.len() {
                Ok(files.update(at, files[at].replaced(path, file_size_bytes, base_id)))
            } else {
                Err(Error::Internal { reason: Reason::ReplacedFileGone { frag_id } })
            }
        },
        _ => Ok(files),
    }
}

/// What a deletion edit makes of a fragment's deletion file.
pub open spec fn edited_deletion(
    deletion: Option<crate::record::DeletionFile>,
    action: ActionView,
) -> Result<Option<crate::record::DeletionFile>, Error> {
    match action {
        ActionView::AddDeletionFile { frag_id, deletion_file } => match deletion_file {
            Some(file) => if file.num_deleted_rows > usize::MAX {
                Err(Error::CorruptFile { reason: Reason::DeletedCountExceedsUsize })
            } else {
                match file.decoded() {
                    Ok(file) => Ok(Some(file)),
                    Err(error) => Err(error),
                }
            },
            None => Err(
                Error::InvalidInput {
                    reason: Reason::EditWithoutFile {
                        kind: EditKind::AddDeletionFile,
                        id: frag_id,
                    },
                },
            ),
        },
        ActionView::ClearDeletionFile { .. } => Ok(None),
        _ => Ok(deletion),
    }
}

impl ActionView {
    /// Which edit an action is; irrelevant for the whole-record actions.
    pub open spec fn edit_kind(self) -> EditKind {
        match self {
            ActionView::AddDataFile { .. } => EditKind::AddDataFile,
            ActionView::RemoveDataFile { .. } => EditKind::RemoveDataFile,
            ActionView::ReplaceDataFile { .. } => EditKind::ReplaceDataFile,
            ActionView::AddDeletionFile { .. } => EditKind::AddDeletionFile,
            _ => EditKind::ClearDeletionFile,
        }
    }

    /// Why an edit is refused whatever the record is, where it is.
    pub open spec fn edit_fault(self) -> Option<Reason> {
        match self {
            ActionView::AddDataFile { frag_id, file: None } => Some(
                Reason::EditWithoutFile { kind: EditKind::AddDataFile, id: frag_id },
            ),
            ActionView::ReplaceDataFile { frag_id, expected_path, path, .. } => {
                if expected_path.len() == 0 || path.len() == 0 {
                    Some(Reason::ReplaceWithoutPath { id: frag_id })
                } else {
                    None
                }
            },
            ActionView::AddDeletionFile { frag_id, deletion_file: None } => Some(
                Reason::EditWithoutFile { kind: EditKind::AddDeletionFile, id: frag_id },
            ),
            _ => None,
        }
    }
}

/// What an action makes of the record it targets.
pub open spec fn applied(record: Option<FragmentView>, action: ActionView) -> Result<
    Option<FragmentView>,
    Error,
> {
    match action {
        ActionView::AddFragment(f) => match f.decoded() {
            Ok(fragment) => Ok(Some(fragment)),
            Err(error) => Err(error),
        },
        ActionView::RemoveFragment(_) => Ok(None),
        _ => match action.edit_fault() {
            Some(reason) => Err(Error::InvalidInput { reason }),
            None => match record {
                None => Err(
                    Error::InvalidInput {
                        reason: Reason::EditTargetMissing {
                            kind: action.edit_kind(),
                            frag_id: action.target(),
                        },
                    },
                ),
                Some(fragment) => match edited_files(fragment.files, action) {
                    Err(error) => Err(error),
                    Ok(files) => match edited_deletion(fragment.deletion_file, action) {
                        Err(error) => Err(error),
                        Ok(deletion_file) => Ok(
                            Some(FragmentView { files, deletion_file, ..fragment }),
                        ),
                    },
                },
            },
        },
    }
}

/// What a record adds to its ancestors: fragments, rows, visible rows.
pub open spec fn counts(record: Option<FragmentView>) -> (int, int, int) {
    match record {
        None => (0, 0, 0),
        Some(fragment) => (
            1,
            match fragment.physical_rows {
                Some(rows) => rows as int,
                None => 0,
            },
            match fragment.num_rows() {
                Some(rows) => rows as int,
                None => 0,
            },
        ),
    }
}

impl MutationView {
    pub open spec fn deltas(self) -> (int, int, int) {
        (
            self.fragment_count_delta as int,
            self.total_rows_delta as int,
            self.visible_rows_delta as int,
        )
    }
}

/// Why a mutation that turned `before` into `after` is refused by a
/// verifying replay, where it is.
pub open spec fn delta_fault(
    before: Option<FragmentView>,
    after: Option<FragmentView>,
    m: MutationView,
) -> Option<Error> {
    let b = counts(before);
    let a = counts(after);
    let actual = (a.0 - b.0, a.1 - b.1, a.2 - b.2);
    if actual == m.deltas() {
        None
    } else {
        Some(
            Error::CorruptFile {
                reason: Reason::DeltaMismatch {
                    action_sequence: m.action_sequence,
                    key: m.key(),
                    stored: (m.fragment_count_delta, m.total_rows_delta, m.visible_rows_delta),
                    actual: (actual.0 as i128, actual.1 as i128, actual.2 as i128),
                },
            },
        )
    }
}

/// The record after one mutation, and why the replay stops there if it does.
pub open spec fn effect(record: Option<FragmentView>, m: MutationView, check: bool) -> (
    Option<FragmentView>,
    Option<Error>,
) {
    match m.known() {
        None => (record, Some(Error::CorruptFile { reason: Reason::ActionUnknown })),
        Some(action) => match applied(record, action) {
            Err(error) => (record, Some(error)),
            Ok(after) => (
                after,
                if check {
                    delta_fault(record, after, m)
                } else {
                    None
                },
            ),
        },
    }
}

/// The record after one mutation that may be refused.
pub open spec fn step(record: Option<FragmentView>, m: MutationView, check: bool) -> Result<
    Option<FragmentView>,
    Error,
> {
    match m.fault() {
        Some(error) => Err(error),
        None => match effect(record, m, check) {
            (_, Some(error)) => Err(error),
            (after, None) => Ok(after),
        },
    }
}

/// What a fragment's mutations, given in commit order, make of its record.
pub open spec fn outcome(record: Option<FragmentView>, s: Seq<MutationView>, check: bool) -> Result<
    Option<FragmentView>,
    Error,
>
    decreases s.len(),
{
    if s.len() == 0 {
        Ok(record)
    } else {
        match outcome(record, s.drop_last(), check) {
            Err(error) => Err(error),
            Ok(before) => step(before, s.last(), check),
        }
    }
}

pub open spec fn lookup(state: Map<u64, FragmentView>, key: u64) -> Option<FragmentView> {
    if state.contains_key(key) {
        Some(state[key])
    } else {
        None
    }
}

pub open spec fn stored(
    state: Map<u64, FragmentView>,
    key: u64,
    record: Option<FragmentView>,
) -> Map<u64, FragmentView> {
    match record {
        Some(fragment) => state.insert(key, fragment),
        None => state.remove(key),
    }
}

/// Mutations applied to a map of records one after the other, up to the first
/// one that is refused.
pub open spec fn folded(state: Map<u64, FragmentView>, s: Seq<MutationView>, check: bool) -> (
    Map<u64, FragmentView>,
    Option<Error>,
)
    decreases s.len(),
{
    if s.len() == 0 {
        (state, None)
    } else {
        let (before, error) = folded(state, s.drop_last(), check);
        match error {
            Some(error) => (before, Some(error)),
            None => {
                let (after, error) = effect(lookup(before, s.last().key()), s.last(), check);
                (stored(before, s.last().key(), after), error)
            },
        }
    }
}

/// What a buffer makes of a map of records, and why it stops if it does: a
/// place in the commit order used twice, the first mutation in commit order
/// that is malformed, or the first one that does not apply.
pub open spec fn replayed(state: Map<u64, FragmentView>, s: Seq<MutationView>, check: bool) -> (
    Map<u64, FragmentView>,
    Option<Error>,
) {
    if !order::distinct(s) {
        (state, Some(Error::CorruptFile { reason: Reason::DuplicateReplaySequence }))
    } else {
        match first_fault(order::sorted(s, false)) {
            Some(error) => (state, Some(error)),
            None => folded(state, order::sorted(s, true), check),
        }
    }
}

/// The records a map of fragments stands for.
pub open spec fn records(m: Map<u64, Fragment>) -> Map<u64, FragmentView> {
    Map::new(|key: u64| m.contains_key(key), |key: u64| m[key]@)
}

pub proof fn lemma_records_insert(m: Map<u64, Fragment>, key: u64, fragment: Fragment)
    ensures
        records(m.insert(key, fragment)) == records(m).insert(key, fragment@),
{
    assert(records(m.insert(key, fragment)) =~= records(m).insert(key, fragment@));
}

pub proof fn lemma_records_remove(m: Map<u64, Fragment>, key: u64)
    ensures
        records(m.remove(key)) == records(m).remove(key),
{
    assert(records(m.remove(key)) =~= records(m).remove(key));
}

fn record_counts(fragment: Option<&Fragment>) -> (r: (i128, i128, i128))
    ensures
        (r.0 as int, r.1 as int, r.2 as int) == counts(
            match fragment {
                Some(f) => Some(f@),
                None => None,
            },
        ),
{
    match fragment {
        None => (0, 0, 0),
        Some(fragment) => {
            let rows: usize = match fragment.physical_rows {
                Some(rows) => rows,
                None => 0,
            };
            let visible: usize = match fragment.num_rows() {
                Some(rows) => rows,
                None => 0,
            };
            (1, rows as i128, visible as i128)
        },
    }
}

fn remove_path(files: Vec<DataFile>, path: &String) -> (r: Vec<DataFile>)
    ensures
        views::all(r@) == without_path(views::all(files@), path@),
{
    let mut kept: Vec<DataFile> = Vec::new();
    let ghost all = views::all(files@);
    let ghost pred = |file: FileView| file.path != path@;
    assert(all.take(0).filter(pred) =~= Seq::<FileView>::empty());
    for file in iter: files
        invariant
            iter.seq() == files@,
            all == views::all(files@),
            pred == (|file: FileView| file.path != path@),
            views::all(kept@) == all.take(iter.index() as int).filter(pred),
    {
        proof {
            assert(all.take(iter.index() + 1) =~= all.take(iter.index() as int).push(file@));
            all.take(iter.index() as int).lemma_filter_push(file@, pred);
        }
        if file.path != *path {
            kept.push(file);
        }
    }
    assert(all.take(all.len() as int) =~= all);
    kept
}

fn position_of(files: &Vec<DataFile>, path: &String) -> (r: usize)
    ensures
        r == first_at(views::all(files@), path@),
{
    let mut at: usize = 0;
    while at < files.len() && files[at].path != *path
        invariant
            at <= files@.len(),
            forall|i: int| 0 <= i < at ==> (#[trigger] files@[i])@.path != path@,
        decreases files@.len() - at,
    {
        at = at + 1;
    }
    proof {
        let all = views::all(files@);
        assert forall|i: int| 0 <= i < at implies (#[trigger] all[i]).path != path@ by {
            assert(files@[i]@.path != path@);
        }
        lemma_first_at_is(all, path@, at as int);
    }
    at
}

/// A record with one edit applied, or the record as it was and the refusal.
fn edit(fragment: Fragment, action: &Action) -> (r: (Fragment, Result<(), Error>))
    requires
        !action@.is_reset(),
        action@.edit_fault() is None,
    ensures
        match applied(Some(fragment@), action@) {
            Ok(after) => r.1 is Ok && Some(r.0@) == after,
            Err(error) => r.1 == Err::<(), Error>(error) && r.0@ == fragment@,
        },
{
    let mut fragment = fragment;
    let ghost before = fragment@;
    match action {
        Action::AddDataFile(a) => {
            if let Some(file) = &a.file {
                fragment.files.push(file.clone());
            }
            (fragment, Ok(()))
        },
        Action::RemoveDataFile(a) => {
            let mut files: Vec<DataFile> = Vec::new();
            core::mem::swap(&mut files, &mut fragment.files);
            fragment.files = remove_path(files, &a.path);
            (fragment, Ok(()))
        },
        Action::ReplaceDataFile(a) => {
            let at: usize = position_of(&fragment.files, &a.expected_path);
            proof {
                lemma_first_at(fragment@.files, a.expected_path@);
            }
            if at < fragment.files.len() {
                let mut file = fragment.files[at].clone();
                file.path = a.path.clone();
                file.file_size_bytes = a.file_size_bytes;
                file.base_id = a.base_id;
                fragment.files.set(at, file);
                assert(fragment@.files =~= before.files.update(at as int, file@));
                (fragment, Ok(()))
            } else {
                (
                    fragment,
                    Err(
                        Error::Internal { reason: Reason::ReplacedFileGone { frag_id: a.frag_id } },
                    ),
                )
            }
        },
        Action::AddDeletionFile(a) => {
            if let Some(file) = &a.deletion_file {
                if file.num_deleted_rows > usize::MAX as u64 {
                    return (
                        fragment,
                        Err(Error::CorruptFile { reason: Reason::DeletedCountExceedsUsize }),
                    );
                }
                match file.decode() {
                    Ok(file) => {
                        fragment.deletion_file = Some(file);
                    },
                    Err(error) => {
                        return (fragment, Err(error));
                    },
                }
            }
            (fragment, Ok(()))
        },
        Action::ClearDeletionFile(_) => {
            fragment.deletion_file = None;
            (fragment, Ok(()))
        },
        Action::AddFragment(_) | Action::RemoveFragment(_) => (fragment, Ok(())),
    }
}

fn edit_fault(action: &Action) -> (r: Option<Reason>)
    ensures
        r == action@.edit_fault(),
{
    match action {
        Action::AddDataFile(a) => if a.file.is_none() {
            Some(Reason::EditWithoutFile { kind: EditKind::AddDataFile, id: a.frag_id })
        } else {
            None
        },
        Action::ReplaceDataFile(a) => if is_empty(&a.expected_path) || is_empty(&a.path) {
            Some(Reason::ReplaceWithoutPath { id: a.frag_id })
        } else {
            None
        },
        Action::AddDeletionFile(a) => if a.deletion_file.is_none() {
            Some(Reason::EditWithoutFile { kind: EditKind::AddDeletionFile, id: a.frag_id })
        } else {
            None
        },
        _ => None,
    }
}

fn edit_kind(action: &Action) -> (r: EditKind)
    ensures
        r == action@.edit_kind(),
{
    match action {
        Action::AddDataFile(_) => EditKind::AddDataFile,
        Action::RemoveDataFile(_) => EditKind::RemoveDataFile,
        Action::ReplaceDataFile(_) => EditKind::ReplaceDataFile,
        Action::AddDeletionFile(_) => EditKind::AddDeletionFile,
        _ => EditKind::ClearDeletionFile,
    }
}

/// Whether a text has no characters.
pub fn is_empty(text: &String) -> (r: bool)
    ensures
        r == (text@.len() == 0),
{
    text.as_str().is_empty()
}

/// Apply one action to the record it targets.
fn apply_one(frags: &mut BTreeMap<u64, Fragment>, action: FragmentAction) -> (r: Result<(), Error>)
    ensures
        match action@ {
            None => r == Err::<(), Error>(Error::CorruptFile { reason: Reason::ActionUnknown })
                && records(final(frags)@) == records(old(frags)@),
            Some(a) => {
                let before = records(old(frags)@);
                match applied(lookup(before, a.target()), a) {
                    Ok(after) => r is Ok && records(final(frags)@) == stored(
                        before,
                        a.target(),
                        after,
                    ),
                    Err(error) => r == Err::<(), Error>(error) && records(final(frags)@)
                        == before,
                }
            },
        },
{
    let Some(action) = action.action else {
        return Err(Error::CorruptFile { reason: Reason::ActionUnknown });
    };
    match action {
        Action::AddFragment(f) => {
            match validation::fragment(f) {
                Ok(fragment) => {
                    let id: u64 = fragment.id;
                    proof {
                        crate::pb::law_read_record_is_storable(f@);
                        lemma_records_insert(frags@, id, fragment);
                    }
                    frags.insert(id, fragment);
                    Ok(())
                },
                Err(error) => Err(error),
            }
        },
        Action::RemoveFragment(id) => {
            proof {
                lemma_records_remove(frags@, id);
            }
            frags.remove(&id);
            Ok(())
        },
        edit_action => {
            if let Some(reason) = edit_fault(&edit_action) {
                return Err(Error::InvalidInput { reason });
            }
            let stored_action = FragmentAction { action: Some(edit_action) };
            let target: u64 = match crate::action::target_frag_id(&stored_action) {
                Some(id) => id,
                None => 0,
            };
            let Some(edit_action) = stored_action.action else {
                return Err(Error::CorruptFile { reason: Reason::ActionUnknown });
            };
            let ghost before = frags@;
            match frags.remove(&target) {
                None => {
                    assert(frags@ =~= before);
                    Err(
                        Error::InvalidInput {
                            reason: Reason::EditTargetMissing {
                                kind: edit_kind(&edit_action),
                                frag_id: target,
                            },
                        },
                    )
                },
                Some(fragment) => {
                    let (fragment, result) = edit(fragment, &edit_action);
                    proof {
                        lemma_records_remove(before, target);
                        lemma_records_insert(frags@, target, fragment);
                        assert(records(before).remove(target).insert(target, fragment@)
                            =~= records(before).insert(target, fragment@));
                        assert(records(before).insert(target, records(before)[target]) =~= records(
                            before,
                        ));
                    }
                    frags.insert(target, fragment);
                    result
                },
            }
        },
    }
}

/// Apply buffered mutations to an id-keyed fragment map in `(key,
/// action_sequence)` order. `action_sequence` is assigned at commit time and
/// only ever grows, so this order is the commit order per fragment wherever
/// actions meet.
pub fn apply_actions(
    frags: &mut BTreeMap<u64, Fragment>,
    actions: Vec<FragmentMetadataMutation>,
) -> (r: Result<(), Error>)
    ensures
        ({
            let (state, error) = replayed(records(old(frags)@), views::all(actions@), false);
            &&& records(final(frags)@) == state
            &&& r == match error {
                Some(error) => Err::<(), Error>(error),
                None => Ok(()),
            }
        }),
{
    apply_mutations(frags, actions, DeltaCheck::Trust)
}

/// Apply mutations and reject any whose stored deltas differ from the change
/// they make. The record before and after is in hand here, so this is where
/// the format's exact-delta rule is enforced.
pub fn apply_verified(
    frags: &mut BTreeMap<u64, Fragment>,
    actions: Vec<FragmentMetadataMutation>,
) -> (r: Result<(), Error>)
    ensures
        ({
            let (state, error) = replayed(records(old(frags)@), views::all(actions@), true);
            &&& records(final(frags)@) == state
            &&& r == match error {
                Some(error) => Err::<(), Error>(error),
                None => Ok(()),
            }
        }),
{
    apply_mutations(frags, actions, DeltaCheck::Verify)
}

/// Whether a list in commit order uses a place twice.
fn has_duplicate(actions: &Vec<FragmentMetadataMutation>) -> (r: bool)
    requires
        order::is_sorted(views::all(actions@), false),
    ensures
        r == !order::distinct(views::all(actions@)),
{
    let ghost all = views::all(actions@);
    let mut i: usize = 1;
    while i < actions.len()
        invariant
            1 <= i,
            all == views::all(actions@),
            order::is_sorted(all, false),
            forall|a: int, b: int|
                0 <= a < b < i && b < all.len() ==> (#[trigger] all[a]).action_sequence < (
                #[trigger] all[b]).action_sequence,
        decreases actions@.len() - i,
    {
        assert(!order::after(all[i - 1], all[i as int], false));
        if actions[i - 1].action_sequence == actions[i].action_sequence {
            assert(all[i - 1].action_sequence == all[i as int].action_sequence);
            return true;
        }
        i = i + 1;
    }
    false
}

proof fn lemma_first_fault_prefix(s: Seq<MutationView>, n: int)
    requires
        0 <= n <= s.len(),
        first_fault(s.take(n)) is Some,
    ensures
        first_fault(s) == first_fault(s.take(n)),
    decreases s.len() - n,
{
    if n < s.len() {
        assert(s.take(n + 1).drop_last() =~= s.take(n));
        lemma_first_fault_prefix(s, n + 1);
    } else {
        assert(s.take(n) =~= s);
    }
}

/// A list without a refusal has none anywhere.
pub proof fn lemma_first_fault(s: Seq<MutationView>)
    ensures
        (first_fault(s) is None) == (forall|i: int|
            0 <= i < s.len() ==> (#[trigger] s[i]).fault() is None),
    decreases s.len(),
{
    if s.len() > 0 {
        let rest = s.drop_last();
        lemma_first_fault(rest);
        assert(s.last() == s[s.len() - 1]);
        assert forall|i: int| 0 <= i < rest.len() implies #[trigger] rest[i] == s[i] by {}
        if first_fault(s) is None {
            assert forall|i: int| 0 <= i < s.len() implies (#[trigger] s[i]).fault() is None by {
                if i < rest.len() {
                    assert(rest[i].fault() is None);
                }
            }
        }
        if forall|i: int| 0 <= i < s.len() ==> (#[trigger] s[i]).fault() is None {
            assert forall|i: int| 0 <= i < rest.len() implies (
            #[trigger] rest[i]).fault() is None by {
                assert(s[i].fault() is None);
            }
        }
    }
}

proof fn lemma_folded_prefix(
    state: Map<u64, FragmentView>,
    s: Seq<MutationView>,
    n: int,
    check: bool,
)
    requires
        0 <= n <= s.len(),
        folded(state, s.take(n), check).1 is Some,
    ensures
        folded(state, s, check) == folded(state, s.take(n), check),
    decreases s.len() - n,
{
    if n < s.len() {
        assert(s.take(n + 1).drop_last() =~= s.take(n));
        lemma_folded_prefix(state, s, n + 1, check);
    } else {
        assert(s.take(n) =~= s);
    }
}

/// Refuse the first malformed mutation.
fn check_all(actions: &Vec<FragmentMetadataMutation>) -> (r: Result<(), Error>)
    ensures
        r == match first_fault(views::all(actions@)) {
            Some(error) => Err::<(), Error>(error),
            None => Ok(()),
        },
{
    let ghost all = views::all(actions@);
    let mut i: usize = 0;
    while i < actions.len()
        invariant
            i <= actions@.len(),
            all == views::all(actions@),
            first_fault(all.take(i as int)) is None,
        decreases actions@.len() - i,
    {
        let ghost taken = all.take(i + 1);
        assert(taken.drop_last() =~= all.take(i as int));
        assert(taken.last() == actions@[i as int]@);
        match validation::mutation(&actions[i]) {
            Ok(_) => {},
            Err(error) => {
                proof {
                    lemma_first_fault_prefix(all, i + 1);
                }
                return Err(error);
            },
        }
        i = i + 1;
    }
    assert(all.take(all.len() as int) =~= all);
    Ok(())
}

/// Apply one well-formed mutation, checking its deltas where asked to.
fn apply_tagged(
    frags: &mut BTreeMap<u64, Fragment>,
    tagged: FragmentMetadataMutation,
    check: DeltaCheck,
) -> (r: Result<(), Error>)
    requires
        tagged@.fault() is None,
    ensures
        ({
            let before = records(old(frags)@);
            let (after, error) = effect(
                lookup(before, tagged@.key()),
                tagged@,
                check == DeltaCheck::Verify,
            );
            &&& records(final(frags)@) == stored(before, tagged@.key(), after)
            &&& r == match error {
                Some(error) => Err::<(), Error>(error),
                None => Ok(()),
            }
        }),
{
    let ghost start = records(frags@);
    let key: u64 = crate::node::action_key(&tagged);
    let before = record_counts(frags.get(&key));
    let ghost m = tagged@;
    assert(stored(start, key, lookup(start, key)) =~= start);
    assert((before.0 as int, before.1 as int, before.2 as int) == counts(lookup(start, key)));
    if let Some(action) = tagged.action {
        match apply_one(frags, action) {
            Ok(()) => {},
            Err(error) => {
                return Err(error);
            },
        }
    }
    let after = record_counts(frags.get(&key));
    proof {
        let record = applied(lookup(start, key), m.known()->0)->Ok_0;
        assert(records(frags@) == stored(start, key, record));
        assert(lookup(records(frags@), key) == record);
        assert((after.0 as int, after.1 as int, after.2 as int) == counts(record));
    }
    if check == DeltaCheck::Verify {
        let actual = (after.0 - before.0, after.1 - before.1, after.2 - before.2);
        if actual.0 != tagged.fragment_count_delta as i128 || actual.1
            != tagged.total_rows_delta as i128 || actual.2 != tagged.visible_rows_delta as i128 {
            return Err(
                Error::CorruptFile {
                    reason: Reason::DeltaMismatch {
                        action_sequence: tagged.action_sequence,
                        key,
                        stored: (
                            tagged.fragment_count_delta,
                            tagged.total_rows_delta,
                            tagged.visible_rows_delta,
                        ),
                        actual,
                    },
                },
            );
        }
    }
    Ok(())
}

/// Apply one mutation that may be malformed, without looking at its deltas.
pub(crate) fn apply_single(
    frags: &mut BTreeMap<u64, Fragment>,
    tagged: FragmentMetadataMutation,
) -> (r: Result<(), Error>)
    ensures
        ({
            let before = records(old(frags)@);
            match step(lookup(before, tagged@.key()), tagged@, false) {
                Ok(after) => r is Ok && records(final(frags)@) == stored(
                    before,
                    tagged@.key(),
                    after,
                ),
                Err(error) => r == Err::<(), Error>(error),
            }
        }),
{
    match validation::mutation(&tagged) {
        Ok(_) => apply_tagged(frags, tagged, DeltaCheck::Trust),
        Err(error) => Err(error),
    }
}

fn apply_mutations(
    frags: &mut BTreeMap<u64, Fragment>,
    actions: Vec<FragmentMetadataMutation>,
    check: DeltaCheck,
) -> (r: Result<(), Error>)
    ensures
        ({
            let (state, error) = replayed(
                records(old(frags)@),
                views::all(actions@),
                check == DeltaCheck::Verify,
            );
            &&& records(final(frags)@) == state
            &&& r == match error {
                Some(error) => Err::<(), Error>(error),
                None => Ok(()),
            }
        }),
{
    let ghost given = views::all(actions@);
    let ghost verify = check == DeltaCheck::Verify;
    let ghost start = records(frags@);
    let in_order = order::sort_mutations(actions, false);
    let ghost ordered = views::all(in_order@);
    proof {
        order::lemma_sorted_is_sorted(given, false);
        order::lemma_sorted_distinct(given, false);
    }
    if has_duplicate(&in_order) {
        return Err(Error::CorruptFile { reason: Reason::DuplicateReplaySequence });
    }
    match check_all(&in_order) {
        Ok(()) => {},
        Err(error) => {
            return Err(error);
        },
    }
    let by_key = order::sort_mutations(in_order, true);
    let ghost keyed = views::all(by_key@);
    proof {
        order::lemma_sorted_multiset(given, false);
        order::lemma_sorted_multiset(given, true);
        order::lemma_sorted_multiset(ordered, true);
        order::lemma_sorted_is_sorted(given, true);
        order::lemma_sorted_is_sorted(ordered, true);
        order::lemma_sorted_distinct(given, true);
        order::lemma_sorted_unique(order::sorted(given, true), keyed, true);
        lemma_first_fault(ordered);
        assert forall|k: int| 0 <= k < keyed.len() implies (#[trigger] keyed[k]).fault() is None by {
            order::lemma_sorted_contains(ordered, true, keyed[k]);
            assert(keyed.contains(keyed[k]));
            let j = choose|j: int| 0 <= j < ordered.len() && ordered[j] == keyed[k];
            assert(ordered[j].fault() is None);
        }
        assert(keyed.take(0) =~= Seq::<MutationView>::empty());
    }
    for tagged in iter: by_key
        invariant
            iter.seq() == by_key@,
            keyed == views::all(by_key@),
            verify == (check == DeltaCheck::Verify),
            (records(frags@), None::<Error>) == folded(
                start,
                keyed.take(iter.index() as int),
                verify,
            ),
            folded(start, keyed, verify) == replayed(records(old(frags)@), views::all(actions@), verify),
            forall|k: int| 0 <= k < keyed.len() ==> (#[trigger] keyed[k]).fault() is None,
    {
        let ghost taken = keyed.take(iter.index() + 1);
        assert(taken.drop_last() =~= keyed.take(iter.index() as int));
        assert(taken.last() == tagged@);
        assert(tagged@.fault() is None) by {
            assert(keyed[iter.index() as int] == tagged@);
        }
        match apply_tagged(frags, tagged, check) {
            Ok(()) => {},
            Err(error) => {
                proof {
                    lemma_folded_prefix(start, keyed, iter.index() + 1, verify);
                }
                return Err(error);
            },
        }
    }
    assert(keyed.take(keyed.len() as int) =~= keyed);
    Ok(())
}

} // verus!
