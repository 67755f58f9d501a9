//! Validation inputs and storage-action semantics.
//!
//! Native transactions are validated against current fragment state before
//! lowering. The tree only replays the resulting state changes.

use std::collections::{BTreeMap, BTreeSet};

use vstd::prelude::*;

use crate::action;
use crate::error::{Error, Reason};
use crate::pb::{Action, ActionView, FragmentAction, FragmentMetadataMutation, MutationView};
use crate::record::{clone_files, DataFile, DataOverlayFile, FileView, Fragment,
    FragmentView, OverlayView};
use crate::replay;
use crate::same;
use crate::views;

verus! {

broadcast use {crate::views::group_views, vstd::std_specs::btree::group_btree_axioms};

/// The current state of the fragments one commit touches, and nothing else.
///
/// `ids` records every id that was resolved, so an id that is absent from
/// `fragments` is known to be missing rather than unresolved. A commit may
/// only mutate ids in this set, or append ids the tree has never assigned.
#[derive(Debug)]
pub struct TouchedFragments {
    pub ids: BTreeSet<u64>,
    pub fragments: BTreeMap<u64, Fragment>,
}

pub struct TouchedView {
    pub ids: Set<u64>,
    pub fragments: Map<u64, FragmentView>,
}

impl View for TouchedFragments {
    type V = TouchedView;

    open spec fn view(&self) -> TouchedView {
        TouchedView { ids: self.ids@, fragments: replay::records(self.fragments@) }
    }
}

impl Default for TouchedFragments {
    fn default() -> (r: Self)
        ensures
            r@.ids == Set::<u64>::empty(),
            r@.fragments == Map::<u64, FragmentView>::empty(),
    {
        let r = TouchedFragments { ids: BTreeSet::new(), fragments: BTreeMap::new() };
        assert(r@.fragments =~= Map::<u64, FragmentView>::empty());
        r
    }
}

impl TouchedFragments {
    pub fn get(&self, fragment_id: u64) -> (r: Option<&Fragment>)
        ensures
            match r {
                Some(fragment) => Some(fragment@),
                None => None,
            } == replay::lookup(self@.fragments, fragment_id),
    {
        self.fragments.get(&fragment_id)
    }

    pub fn resolved(&self, fragment_id: u64) -> (r: bool)
        ensures
            r == self@.ids.contains(fragment_id),
    {
        self.ids.contains(&fragment_id)
    }
}

/// A commit whose every action has been validated against
/// [`TouchedFragments`] and is safe to store.
#[derive(Debug)]
pub struct ValidatedCommit {
    /// Advance the ID allocator, including reservations; never decrease it.
    pub next_fragment_id: Option<u64>,
    pub fragment_actions: Vec<FragmentAction>,
}

impl ValidatedCommit {
    pub fn fragment_actions(fragment_actions: Vec<FragmentAction>) -> (r: Self)
        ensures
            r.next_fragment_id is None,
            r.fragment_actions == fragment_actions,
    {
        ValidatedCommit { next_fragment_id: None, fragment_actions }
    }
}

// Known counts.

/// Why a record may not be stored in the tree, where it may not.
pub open spec fn unknown_counts(fragment: FragmentView) -> Option<Reason> {
    if fragment.id > u32::MAX {
        Some(Reason::FragmentIdExceedsU32 { id: fragment.id })
    } else {
        match (fragment.physical_rows, fragment.deletion_file) {
            (None, _) => Some(Reason::PhysicalRowsUnknown { id: fragment.id }),
            (Some(rows), None) => None,
            (Some(rows), Some(file)) => match file.num_deleted_rows {
                None => Some(Reason::DeletedRowsUnknown { id: fragment.id }),
                Some(deleted) => if deleted > rows {
                    Some(
                        Reason::MoreDeletedThanRows {
                            id: fragment.id,
                            deleted: deleted as u64,
                            rows: rows as u64,
                        },
                    )
                } else {
                    None
                },
            },
        }
    }
}

/// The writer invariant behind exact visible-row aggregates: every fragment
/// stored in the tree has a known physical row count, and every deletion
/// file a known deleted count. Production writers always produce both;
/// conversion of older data must compute the missing count or refuse.
pub fn require_known_counts(fragment: &Fragment) -> (r: Result<(), Error>)
    ensures
        r == match unknown_counts(fragment@) {
            Some(reason) => Err::<(), Error>(Error::InvalidInput { reason }),
            None => Ok(()),
        },
        r is Ok == fragment@.storable(),
{
    if fragment.id > u32::MAX as u64 {
        return Err(
            Error::InvalidInput { reason: Reason::FragmentIdExceedsU32 { id: fragment.id } },
        );
    }
    match fragment.physical_rows {
        None => Err(
            Error::InvalidInput { reason: Reason::PhysicalRowsUnknown { id: fragment.id } },
        ),
        Some(rows) => match &fragment.deletion_file {
            None => Ok(()),
            Some(file) => match file.num_deleted_rows {
                None => Err(
                    Error::InvalidInput { reason: Reason::DeletedRowsUnknown { id: fragment.id } },
                ),
                Some(deleted) => {
                    if deleted > rows {
                        Err(
                            Error::InvalidInput {
                                reason: Reason::MoreDeletedThanRows {
                                    id: fragment.id,
                                    deleted: deleted as u64,
                                    rows: rows as u64,
                                },
                            },
                        )
                    } else {
                        Ok(())
                    }
                },
            },
        },
    }
}

// Aggregate deltas.

/// One action's contribution to the tree aggregates, derived by applying it
/// to the touched snapshot.
#[derive(Debug, Clone, Copy)]
pub struct ActionDeltas {
    pub fragment_count: i64,
    pub physical_rows: i64,
    /// Physical minus deleted rows, exact by [`require_known_counts`].
    pub visible_rows: i64,
}

/// What a commit has come to after some of its actions: the records it
/// touches, the fragments it created, and what each action contributed.
pub struct Progress {
    pub fragments: Map<u64, FragmentView>,
    pub created: Set<u64>,
    pub deltas: Seq<(int, int, int)>,
}

/// A fragment's physical rows as a delta holds them.
pub open spec fn physical(fragment: Option<FragmentView>) -> Result<int, Error> {
    let rows = match fragment {
        Some(f) => match f.physical_rows {
            Some(rows) => rows as int,
            None => 0,
        },
        None => 0,
    };
    if rows > i64::MAX {
        Err(Error::InvalidInput { reason: Reason::PhysicalRowsExceedI64 { rows: rows as u64 } })
    } else {
        Ok(rows)
    }
}

/// A fragment's visible rows as a delta holds them.
pub open spec fn visible(fragment: Option<FragmentView>) -> Result<int, Error> {
    match fragment {
        None => Ok(0),
        Some(f) => match f.num_rows() {
            None => Err(Error::Internal { reason: Reason::CountsUnknown { id: f.id } }),
            Some(rows) => if rows > i64::MAX {
                Err(Error::InvalidInput { reason: Reason::RowsExceedI64 { rows: rows as u64 } })
            } else {
                Ok(rows as int)
            },
        },
    }
}

/// What turning one record into another contributes to the aggregates.
pub open spec fn contribution(before: Option<FragmentView>, after: Option<FragmentView>) -> Result<
    (int, int, int),
    Error,
> {
    match (physical(after), physical(before)) {
        (Err(error), _) => Err(error),
        (Ok(_), Err(error)) => Err(error),
        (Ok(rows_after), Ok(rows_before)) => match (visible(after), visible(before)) {
            (Err(error), _) => Err(error),
            (Ok(_), Err(error)) => Err(error),
            (Ok(seen_after), Ok(seen_before)) => Ok(
                (
                    (if after is Some {
                        1int
                    } else {
                        0
                    }) - (if before is Some {
                        1int
                    } else {
                        0
                    }),
                    rows_after - rows_before,
                    seen_after - seen_before,
                ),
            ),
        },
    }
}

/// The mutation that stands for an action while its deltas are worked out.
pub open spec fn untagged(action: Option<ActionView>, at: u64) -> MutationView {
    MutationView {
        action_sequence: at,
        action: Some(action),
        fragment_count_delta: 0,
        total_rows_delta: 0,
        visible_rows_delta: 0,
    }
}

/// Whether an action appends a fragment the tree has never assigned.
pub open spec fn appends(action: ActionView, next_fragment_id: u64) -> bool {
    action is AddFragment && action.target() >= next_fragment_id
}

/// What a commit comes to after one more action.
pub open spec fn advanced(
    progress: Progress,
    action: Option<ActionView>,
    at: u64,
    ids: Set<u64>,
    next_fragment_id: u64,
) -> Result<Progress, Error> {
    match action {
        None => Err(Error::InvalidInput { reason: Reason::EmptyAction }),
        Some(a) => {
            let id = a.target();
            if !appends(a, next_fragment_id) && !ids.contains(id) && !progress.created.contains(
                id,
            ) {
                Err(Error::InvalidInput { reason: Reason::UnresolvedFragment { id } })
            } else {
                let before = replay::lookup(progress.fragments, id);
                match replay::step(before, untagged(action, at), false) {
                    Err(error) => Err(error),
                    Ok(after) => match refused(after) {
                        Some(error) => Err(error),
                        None => match contribution(before, after) {
                            Err(error) => Err(error),
                            Ok(delta) => Ok(
                                Progress {
                                    fragments: replay::stored(progress.fragments, id, after),
                                    created: if appends(a, next_fragment_id) {
                                        progress.created.insert(id)
                                    } else {
                                        progress.created
                                    },
                                    deltas: progress.deltas.push(delta),
                                },
                            ),
                        },
                    },
                }
            }
        },
    }
}

/// Why a record an action left behind is refused, where it is.
pub open spec fn refused(after: Option<FragmentView>) -> Option<Error> {
    match after {
        Some(fragment) => match unknown_counts(fragment) {
            Some(reason) => Some(Error::InvalidInput { reason }),
            None => None,
        },
        None => None,
    }
}

/// What a commit comes to after all its actions.
pub open spec fn progressed(
    actions: Seq<Option<ActionView>>,
    touched: TouchedView,
    next_fragment_id: u64,
) -> Result<Progress, Error>
    decreases actions.len(),
{
    if actions.len() == 0 {
        Ok(
            Progress {
                fragments: touched.fragments,
                created: Set::empty(),
                deltas: Seq::empty(),
            },
        )
    } else {
        match progressed(actions.drop_last(), touched, next_fragment_id) {
            Err(error) => Err(error),
            Ok(progress) => advanced(
                progress,
                actions.last(),
                (actions.len() - 1) as u64,
                touched.ids,
                next_fragment_id,
            ),
        }
    }
}

/// The views of some deltas.
pub open spec fn deltas_of(s: Seq<ActionDeltas>) -> Seq<(int, int, int)> {
    s.map_values(
        |d: ActionDeltas|
            (d.fragment_count as int, d.physical_rows as int, d.visible_rows as int),
    )
}

proof fn lemma_progressed_prefix(
    actions: Seq<Option<ActionView>>,
    n: int,
    touched: TouchedView,
    next_fragment_id: u64,
)
    requires
        0 <= n <= actions.len(),
        progressed(actions.take(n), touched, next_fragment_id) is Err,
    ensures
        progressed(actions, touched, next_fragment_id) == progressed(
            actions.take(n),
            touched,
            next_fragment_id,
        ),
    decreases actions.len() - n,
{
    if n == actions.len() {
        assert(actions.take(n) =~= actions);
    } else {
        assert(actions.take(n + 1).drop_last() =~= actions.take(n));
        lemma_progressed_prefix(actions, n + 1, touched, next_fragment_id);
    }
}

/// Actions that apply name fragments the tree can hold.
pub proof fn lemma_progressed_targets(
    actions: Seq<Option<ActionView>>,
    touched: TouchedView,
    next_fragment_id: u64,
)
    requires
        progressed(actions, touched, next_fragment_id) is Ok,
    ensures
        progressed(actions, touched, next_fragment_id)->Ok_0.deltas.len() == actions.len(),
        forall|i: int|
            0 <= i < actions.len() ==> (#[trigger] actions[i]) is Some && actions[i]->0.target()
                <= u32::MAX,
    decreases actions.len(),
{
    if actions.len() > 0 {
        let rest = actions.drop_last();
        lemma_progressed_targets(rest, touched, next_fragment_id);
        assert forall|i: int| 0 <= i < actions.len() implies (#[trigger] actions[i]) is Some
            && actions[i]->0.target() <= u32::MAX by {
            if i < rest.len() {
                assert(rest[i] == actions[i]);
            } else {
                assert(untagged(actions[i], i as u64).fault() is None);
            }
        }
    }
}

fn rows_of(fragment: &Option<Fragment>) -> (r: Result<i64, Error>)
    ensures
        match physical(views::opt(*fragment)) {
            Ok(rows) => r is Ok && r->Ok_0 == rows && 0 <= rows,
            Err(error) => r == Err::<i64, Error>(error),
        },
{
    let rows: u64 = match fragment {
        Some(f) => match f.physical_rows {
            Some(rows) => rows as u64,
            None => 0,
        },
        None => 0,
    };
    if rows > i64::MAX as u64 {
        Err(Error::InvalidInput { reason: Reason::PhysicalRowsExceedI64 { rows } })
    } else {
        Ok(rows as i64)
    }
}

fn visible_of(fragment: &Option<Fragment>) -> (r: Result<i64, Error>)
    ensures
        match visible(views::opt(*fragment)) {
            Ok(rows) => r is Ok && r->Ok_0 == rows && 0 <= rows,
            Err(error) => r == Err::<i64, Error>(error),
        },
{
    match fragment {
        None => Ok(0),
        Some(f) => match f.num_rows() {
            None => Err(Error::Internal { reason: Reason::CountsUnknown { id: f.id } }),
            Some(rows) => {
                let rows: u64 = rows as u64;
                if rows > i64::MAX as u64 {
                    Err(Error::InvalidInput { reason: Reason::RowsExceedI64 { rows } })
                } else {
                    Ok(rows as i64)
                }
            },
        },
    }
}

fn contributed(before: &Option<Fragment>, after: &Option<Fragment>) -> (r: Result<
    ActionDeltas,
    Error,
>)
    ensures
        match contribution(views::opt(*before), views::opt(*after)) {
            Ok(delta) => r is Ok && (
                r->Ok_0.fragment_count as int,
                r->Ok_0.physical_rows as int,
                r->Ok_0.visible_rows as int,
            ) == delta,
            Err(error) => r == Err::<ActionDeltas, Error>(error),
        },
{
    let rows_after: i64 = rows_of(after)?;
    let rows_before: i64 = rows_of(before)?;
    let seen_after: i64 = visible_of(after)?;
    let seen_before: i64 = visible_of(before)?;
    let present_after: i64 = if after.is_some() {
        1
    } else {
        0
    };
    let present_before: i64 = if before.is_some() {
        1
    } else {
        0
    };
    Ok(
        ActionDeltas {
            fragment_count: present_after - present_before,
            physical_rows: rows_after - rows_before,
            visible_rows: seen_after - seen_before,
        },
    )
}

fn held(fragments: &BTreeMap<u64, Fragment>, id: u64) -> (r: Option<Fragment>)
    ensures
        views::opt(r) == replay::lookup(replay::records(fragments@), id),
{
    match fragments.get(&id) {
        Some(fragment) => Some(fragment.clone()),
        None => None,
    }
}

/// Check that every storage action targets a fragment the commit resolved,
/// or appends an id the tree has never assigned, then apply the actions to
/// the touched snapshot to derive each action's fragment-count and row-count
/// contribution. Application errors here are storage invariant violations,
/// not user errors: a validated action must always apply.
pub fn aggregate_deltas(
    actions: &Vec<FragmentAction>,
    touched: &TouchedFragments,
    next_fragment_id: u64,
) -> (r: Result<Vec<ActionDeltas>, Error>)
    ensures
        match progressed(views::all(actions@), touched@, next_fragment_id) {
            Ok(progress) => r is Ok && deltas_of(r->Ok_0@) == progress.deltas,
            Err(error) => r == Err::<Vec<ActionDeltas>, Error>(error),
        },
        r is Ok ==> r->Ok_0@.len() == actions@.len(),
{
    let ghost all = views::all(actions@);
    let mut snapshot: BTreeMap<u64, Fragment> = touched.fragments.clone();
    let mut created: BTreeSet<u64> = BTreeSet::new();
    let mut deltas: Vec<ActionDeltas> = Vec::new();
    assert(deltas_of(deltas@) =~= Seq::<(int, int, int)>::empty());
    let mut at: usize = 0;
    while at < actions.len()
        invariant
            at <= actions@.len(),
            all == views::all(actions@),
            deltas@.len() == at,
            progressed(all.take(at as int), touched@, next_fragment_id) == Ok::<Progress, Error>(
                Progress {
                    fragments: replay::records(snapshot@),
                    created: created@,
                    deltas: deltas_of(deltas@),
                },
            ),
        decreases actions@.len() - at,
    {
        let ghost taken = all.take(at + 1);
        let ghost before_state = Progress {
            fragments: replay::records(snapshot@),
            created: created@,
            deltas: deltas_of(deltas@),
        };
        proof {
            assert(taken.drop_last() =~= all.take(at as int));
            assert(taken.last() == actions@[at as int]@);
            assert(progressed(taken, touched@, next_fragment_id) == advanced(
                before_state,
                actions@[at as int]@,
                at as u64,
                touched@.ids,
                next_fragment_id,
            ));
            if progressed(taken, touched@, next_fragment_id) is Err {
                lemma_progressed_prefix(all, at + 1, touched@, next_fragment_id);
            }
        }
        let id: u64 = match action::target_frag_id(&actions[at]) {
            Some(id) => id,
            None => {
                return Err(Error::InvalidInput { reason: Reason::EmptyAction });
            },
        };
        let append: bool = match &actions[at].action {
            Some(Action::AddFragment(_)) => id >= next_fragment_id,
            _ => false,
        };
        if !append && !touched.resolved(id) && !created.contains(&id) {
            return Err(Error::InvalidInput { reason: Reason::UnresolvedFragment { id } });
        }
        let before = held(&snapshot, id);
        let tagged = FragmentMetadataMutation {
            action_sequence: at as u64,
            action: Some(actions[at].clone()),
            fragment_count_delta: 0,
            total_rows_delta: 0,
            visible_rows_delta: 0,
        };
        assert(tagged@ == untagged(actions@[at as int]@, at as u64));
        match replay::apply_single(&mut snapshot, tagged) {
            Ok(()) => {},
            Err(error) => {
                return Err(error);
            },
        }
        if append {
            created.insert(id);
        }
        let after = held(&snapshot, id);
        if let Some(fragment) = &after {
            match require_known_counts(fragment) {
                Ok(()) => {},
                Err(error) => {
                    return Err(error);
                },
            }
        }
        match contributed(&before, &after) {
            Ok(delta) => {
                let ghost old_deltas = deltas@;
                deltas.push(delta);
                assert(deltas_of(deltas@) =~= deltas_of(old_deltas).push(
                    (
                        delta.fragment_count as int,
                        delta.physical_rows as int,
                        delta.visible_rows as int,
                    ),
                ));
            },
            Err(error) => {
                return Err(error);
            },
        }
        at = at + 1;
    }
    assert(all.take(all.len() as int) =~= all);
    Ok(deltas)
}

// Data replacement.

/// Whether a file holds the columns of another in the same file version.
pub open spec fn matching(file: FileView, replacement: FileView) -> bool {
    &&& file.fields == replacement.fields
    &&& file.file_major_version == replacement.file_major_version
    &&& file.file_minor_version == replacement.file_minor_version
}

/// Whether a file is where another one is.
pub open spec fn co_located(file: FileView, replacement: FileView) -> bool {
    &&& file.path == replacement.path
    &&& file.file_size_bytes == replacement.file_size_bytes
    &&& file.base_id == replacement.base_id
}

/// The files of a fragment that a replacement replaces.
pub open spec fn replaced_files(files: Seq<FileView>, replacement: FileView) -> Seq<FileView> {
    files.filter(|file: FileView| matching(file, replacement))
}

/// Whether a fragment holds any field of a replacement.
pub open spec fn covers(files: Seq<FileView>, replacement: FileView) -> bool {
    exists|i: int, j: int|
        0 <= i < files.len() && 0 <= j < files[i].fields.len() && replacement.fields.contains(
            #[trigger] files[i].fields[j],
        )
}

/// Whether two files of a fragment are at one path.
pub open spec fn aliased(files: Seq<FileView>) -> bool {
    exists|i: int, j: int|
        0 <= i < j < files.len() && (#[trigger] files[i]).path == (#[trigger] files[j]).path
}

/// Whether replacing one of several files would give it the path of another.
pub open spec fn collides(replaced: Seq<FileView>, replacement: FileView) -> bool {
    replaced.len() > 1 && exists|i: int|
        0 <= i < replaced.len() && (#[trigger] replaced[i]).path == replacement.path
}

/// A fragment's files after a replacement: every file it replaces has the
/// replacement's location, and a replacement that replaces none is appended.
pub open spec fn after_replacement(files: Seq<FileView>, replacement: FileView) -> Seq<FileView> {
    if replaced_files(files, replacement).len() == 0 {
        files.push(replacement)
    } else {
        files.map_values(
            |file: FileView|
                if matching(file, replacement) {
                    file.replaced(
                        replacement.path,
                        replacement.file_size_bytes,
                        replacement.base_id,
                    )
                } else {
                    file
                },
        )
    }
}

/// The action that swaps one file for a replacement.
pub open spec fn swap(fragment_id: u64, file: FileView, replacement: FileView) -> ActionView {
    ActionView::ReplaceDataFile {
        frag_id: fragment_id,
        expected_path: file.path,
        path: replacement.path,
        file_size_bytes: replacement.file_size_bytes,
        base_id: replacement.base_id,
    }
}

/// The actions a data replacement lowers to, or why it is refused.
/// `overlays` is what the replacement leaves of the fragment's overlays.
pub open spec fn lowered(
    current: Option<FragmentView>,
    fragment_id: u64,
    replacement: FileView,
    overlays: Seq<OverlayView>,
) -> Result<Seq<Option<ActionView>>, Error> {
    match current {
        None => Err(
            Error::InvalidInput { reason: Reason::ReplacementTargetMissing { id: fragment_id } },
        ),
        Some(fragment) => {
            let replaced = replaced_files(fragment.files, replacement);
            if replaced.len() > 0 && forall|i: int|
                0 <= i < replaced.len() ==> co_located(#[trigger] replaced[i], replacement) {
                Err(
                    Error::InvalidInput {
                        reason: Reason::ReplacementUnchanged { id: fragment_id },
                    },
                )
            } else if replaced.len() == 0 && covers(fragment.files, replacement) {
                Err(
                    Error::InvalidInput {
                        reason: Reason::ReplacementOverlaps { id: fragment_id },
                    },
                )
            } else if overlays != fragment.overlays || aliased(fragment.files) || collides(
                replaced,
                replacement,
            ) {
                Ok(
                    seq![
                        Some(
                            ActionView::AddFragment(
                                (FragmentView {
                                    overlays,
                                    files: after_replacement(fragment.files, replacement),
                                    ..fragment
                                }).encoded(),
                            ),
                        ),
                    ],
                )
            } else if replaced.len() > 0 {
                Ok(
                    replaced.map_values(
                        |file: FileView| Some(swap(fragment_id, file, replacement)),
                    ),
                )
            } else {
                Ok(
                    seq![
                        Some(
                            ActionView::AddDataFile {
                                frag_id: fragment_id,
                                file: Some(replacement),
                            },
                        ),
                    ],
                )
            }
        },
    }
}

fn is_matching(file: &DataFile, replacement: &DataFile) -> (r: bool)
    ensures
        r == matching(file@, replacement@),
{
    same::ints(&file.fields, &replacement.fields) && file.file_major_version
        == replacement.file_major_version && file.file_minor_version
        == replacement.file_minor_version
}

fn is_co_located(file: &DataFile, replacement: &DataFile) -> (r: bool)
    ensures
        r == co_located(file@, replacement@),
{
    same::place(&file.path, file.base_id, &replacement.path, replacement.base_id)
        && file.file_size_bytes == replacement.file_size_bytes
}

fn find_matching(files: &Vec<DataFile>, replacement: &DataFile) -> (r: Vec<usize>)
    ensures
        forall|k: int| 0 <= k < r@.len() ==> (#[trigger] r@[k]) < files@.len(),
        r@.map_values(|at: usize| files@[at as int]@) == replaced_files(
            views::all(files@),
            replacement@,
        ),
        r@.len() == replaced_files(views::all(files@), replacement@).len(),
{
    let ghost all = views::all(files@);
    let ghost pred = |file: FileView| matching(file, replacement@);
    let ghost show = |at: usize| files@[at as int]@;
    let mut found: Vec<usize> = Vec::new();
    assert(all.take(0).filter(pred) =~= Seq::<FileView>::empty());
    assert(found@.map_values(show) =~= Seq::<FileView>::empty());
    let mut at: usize = 0;
    while at < files.len()
        invariant
            at <= files@.len(),
            all == views::all(files@),
            pred == (|file: FileView| matching(file, replacement@)),
            show == (|at: usize| files@[at as int]@),
            forall|k: int| 0 <= k < found@.len() ==> (#[trigger] found@[k]) < files@.len(),
            found@.map_values(show) == all.take(at as int).filter(pred),
        decreases files@.len() - at,
    {
        proof {
            assert(all.take(at + 1) =~= all.take(at as int).push(files@[at as int]@));
            all.take(at as int).lemma_filter_push(files@[at as int]@, pred);
        }
        if is_matching(&files[at], replacement) {
            let ghost before = found@;
            found.push(at);
            assert(found@.map_values(show) =~= before.map_values(show).push(files@[at as int]@));
        }
        at = at + 1;
    }
    assert(all.take(all.len() as int) =~= all);
    assert(found@.map_values(show).len() == found@.len());
    found
}

fn holds_int(values: &Vec<i32>, value: i32) -> (r: bool)
    ensures
        r == values@.contains(value),
{
    let mut i: usize = 0;
    while i < values.len()
        invariant
            i <= values@.len(),
            forall|k: int| 0 <= k < i ==> (#[trigger] values@[k]) != value,
        decreases values@.len() - i,
    {
        if values[i] == value {
            return true;
        }
        i = i + 1;
    }
    false
}

fn find_covered(files: &Vec<DataFile>, replacement: &DataFile) -> (r: bool)
    ensures
        r == covers(views::all(files@), replacement@),
{
    let ghost all = views::all(files@);
    let mut i: usize = 0;
    while i < files.len()
        invariant
            i <= files@.len(),
            all == views::all(files@),
            forall|a: int, b: int|
                0 <= a < i && 0 <= b < all[a].fields.len() ==> !replacement@.fields.contains(
                    #[trigger] all[a].fields[b],
                ),
        decreases files@.len() - i,
    {
        let mut j: usize = 0;
        while j < files[i as usize].fields.len()
            invariant
                i < files@.len(),
                j <= files@[i as int].fields@.len(),
                all == views::all(files@),
                forall|b: int|
                    0 <= b < j ==> !replacement@.fields.contains(
                        #[trigger] all[i as int].fields[b],
                    ),
            decreases files@[i as int].fields@.len() - j,
        {
            assert(all[i as int].fields[j as int] == files@[i as int].fields@[j as int]);
            if holds_int(&replacement.fields, files[i].fields[j]) {
                return true;
            }
            j = j + 1;
        }
        i = i + 1;
    }
    false
}

fn find_alias(files: &Vec<DataFile>) -> (r: bool)
    ensures
        r == aliased(views::all(files@)),
{
    let ghost all = views::all(files@);
    let mut j: usize = 0;
    while j < files.len()
        invariant
            j <= files@.len(),
            all == views::all(files@),
            forall|a: int, b: int|
                0 <= a < b < j ==> (#[trigger] all[a]).path != (#[trigger] all[b]).path,
        decreases files@.len() - j,
    {
        let mut i: usize = 0;
        while i < j
            invariant
                i <= j < files@.len(),
                all == views::all(files@),
                forall|a: int| 0 <= a < i ==> (#[trigger] all[a]).path != all[j as int].path,
            decreases j - i,
        {
            assert(all[i as int].path == files@[i as int].path@);
            assert(all[j as int].path == files@[j as int].path@);
            if files[i].path == files[j].path {
                return true;
            }
            i = i + 1;
        }
        j = j + 1;
    }
    false
}

/// Whether every replaced file already is where the replacement is.
fn all_co_located(files: &Vec<DataFile>, found: &Vec<usize>, replacement: &DataFile) -> (r: bool)
    requires
        forall|k: int| 0 <= k < found@.len() ==> (#[trigger] found@[k]) < files@.len(),
    ensures
        r == forall|k: int|
            0 <= k < found@.len() ==> co_located(
                files@[(#[trigger] found@[k]) as int]@,
                replacement@,
            ),
{
    let mut k: usize = 0;
    while k < found.len()
        invariant
            k <= found@.len(),
            forall|k: int| 0 <= k < found@.len() ==> (#[trigger] found@[k]) < files@.len(),
            forall|a: int|
                0 <= a < k ==> co_located(files@[(#[trigger] found@[a]) as int]@, replacement@),
        decreases found@.len() - k,
    {
        assert(found@[k as int] < files@.len());
        if !is_co_located(&files[found[k]], replacement) {
            return false;
        }
        k = k + 1;
    }
    true
}

/// Whether a replaced file is at the replacement's path.
fn any_at_path(files: &Vec<DataFile>, found: &Vec<usize>, replacement: &DataFile) -> (r: bool)
    requires
        forall|k: int| 0 <= k < found@.len() ==> (#[trigger] found@[k]) < files@.len(),
    ensures
        r == exists|k: int|
            0 <= k < found@.len() && files@[(#[trigger] found@[k]) as int]@.path
                == replacement@.path,
{
    let mut k: usize = 0;
    while k < found.len()
        invariant
            k <= found@.len(),
            forall|k: int| 0 <= k < found@.len() ==> (#[trigger] found@[k]) < files@.len(),
            forall|a: int|
                0 <= a < k ==> files@[(#[trigger] found@[a]) as int]@.path != replacement@.path,
        decreases found@.len() - k,
    {
        assert(found@[k as int] < files@.len());
        if files[found[k]].path == replacement.path {
            return true;
        }
        k = k + 1;
    }
    false
}

fn swaps(files: &Vec<DataFile>, found: &Vec<usize>, fragment_id: u64, replacement: &DataFile) -> (r:
    Vec<FragmentAction>)
    requires
        forall|k: int| 0 <= k < found@.len() ==> (#[trigger] found@[k]) < files@.len(),
    ensures
        r@.len() == found@.len(),
        forall|k: int|
            0 <= k < r@.len() ==> (#[trigger] r@[k])@ == Some(
                swap(fragment_id, files@[found@[k] as int]@, replacement@),
            ),
{
    let mut out: Vec<FragmentAction> = Vec::new();
    let mut k: usize = 0;
    while k < found.len()
        invariant
            k <= found@.len(),
            out@.len() == k,
            forall|k: int| 0 <= k < found@.len() ==> (#[trigger] found@[k]) < files@.len(),
            forall|a: int|
                0 <= a < k ==> (#[trigger] out@[a])@ == Some(
                    swap(fragment_id, files@[found@[a] as int]@, replacement@),
                ),
        decreases found@.len() - k,
    {
        assert(found@[k as int] < files@.len());
        out.push(
            action::replace_data_file(fragment_id, files[found[k]].path.as_str(), replacement),
        );
        k = k + 1;
    }
    out
}

fn rewrite_files(files: &Vec<DataFile>, none: bool, replacement: &DataFile) -> (r: Vec<DataFile>)
    requires
        none == (replaced_files(views::all(files@), replacement@).len() == 0),
    ensures
        views::all(r@) == after_replacement(views::all(files@), replacement@),
{
    if none {
        let mut out = clone_files(files);
        out.push(replacement.clone());
        return out;
    }
    let ghost all = views::all(files@);
    let mut out: Vec<DataFile> = Vec::new();
    let mut at: usize = 0;
    while at < files.len()
        invariant
            at <= files@.len(),
            out@.len() == at,
            all == views::all(files@),
            replaced_files(all, replacement@).len() != 0,
            forall|a: int|
                0 <= a < at ==> (#[trigger] out@[a])@ == after_replacement(all, replacement@)[a],
        decreases files@.len() - at,
    {
        let mut file = files[at].clone();
        if is_matching(&files[at], replacement) {
            file.path = replacement.path.clone();
            file.file_size_bytes = replacement.file_size_bytes;
            file.base_id = replacement.base_id;
        }
        assert(file@ == after_replacement(all, replacement@)[at as int]);
        out.push(file);
        at = at + 1;
    }
    assert(views::all(out@) =~= after_replacement(all, replacement@));
    out
}

/// A data replacement for one fragment, decided against the fragment's
/// current state:
///
/// * a data file with the same fields and file version is swapped in place,
///   which becomes a [`crate::pb::ReplaceDataFile`] naming the file it
///   replaces;
/// * a replacement whose fields the fragment does not cover at all is the
///   add-column case and becomes a [`crate::pb::AddDataFile`];
/// * a missing fragment, a partial field overlap, or a replacement identical
///   to the existing file is rejected, as the flat commit rejects them.
///
/// `overlays` is what the replacement leaves of the fragment's overlays once
/// the replaced fields are dropped from them. Validation selects by fields
/// and version, while a storage replacement selects by first path, so
/// aliases, rename collisions and changed overlays become a whole-record
/// update.
pub fn data_replacement(
    current: Option<&Fragment>,
    fragment_id: u64,
    replacement: &DataFile,
    overlays: Vec<DataOverlayFile>,
) -> (r: Result<Vec<FragmentAction>, Error>)
    ensures
        match lowered(
            match current {
                Some(fragment) => Some(fragment@),
                None => None,
            },
            fragment_id,
            replacement@,
            views::all(overlays@),
        ) {
            Ok(actions) => r is Ok && views::all(r->Ok_0@) == actions,
            Err(error) => r == Err::<Vec<FragmentAction>, Error>(error),
        },
{
    let fragment = match current {
        Some(fragment) => fragment,
        None => {
            return Err(
                Error::InvalidInput {
                    reason: Reason::ReplacementTargetMissing { id: fragment_id },
                },
            );
        },
    };
    let ghost replaced = replaced_files(fragment@.files, replacement@);
    let found = find_matching(&fragment.files, replacement);
    proof {
        let shown = found@.map_values(|at: usize| fragment.files@[at as int]@);
        assert forall|k: int| 0 <= k < found@.len() implies replaced[k]
            == fragment.files@[(#[trigger] found@[k]) as int]@ by {
            assert(shown[k] == fragment.files@[found@[k] as int]@);
        }
    }
    if found.len() > 0 {
        if all_co_located(&fragment.files, &found, replacement) {
            assert forall|i: int| 0 <= i < replaced.len() implies co_located(
                #[trigger] replaced[i],
                replacement@,
            ) by {
                assert(found@[i] < fragment.files@.len());
            }
            return Err(
                Error::InvalidInput { reason: Reason::ReplacementUnchanged { id: fragment_id } },
            );
        }
        proof {
            let k = choose|k: int|
                0 <= k < found@.len() && !co_located(
                    fragment.files@[(#[trigger] found@[k]) as int]@,
                    replacement@,
                );
            assert(!co_located(replaced[k], replacement@));
        }
    } else if find_covered(&fragment.files, replacement) {
        return Err(
            Error::InvalidInput { reason: Reason::ReplacementOverlaps { id: fragment_id } },
        );
    }
    let aliases = find_alias(&fragment.files);
    let at_path = any_at_path(&fragment.files, &found, replacement);
    let collision = found.len() > 1 && at_path;
    proof {
        if at_path {
            let k = choose|k: int|
                0 <= k < found@.len() && fragment.files@[(#[trigger] found@[k]) as int]@.path
                    == replacement@.path;
            assert(replaced[k].path == replacement@.path);
        } else {
            assert forall|i: int| 0 <= i < replaced.len() implies (#[trigger] replaced[i]).path
                != replacement@.path by {
                assert(found@[i] < fragment.files@.len());
            }
        }
        assert(collision == collides(replaced, replacement@));
    }
    if same::overlays(&overlays, &fragment.overlays) && !(aliases || collision) {
        if found.len() > 0 {
            let out = swaps(&fragment.files, &found, fragment_id, replacement);
            assert(views::all(out@) =~= replaced.map_values(
                |file: FileView| Some(swap(fragment_id, file, replacement@)),
            ));
            return Ok(out);
        }
        let mut out: Vec<FragmentAction> = Vec::new();
        out.push(action::add_data_file(fragment_id, replacement));
        assert(views::all(out@) =~= seq![out@[0]@]);
        return Ok(out);
    }
    let mut updated = fragment.clone();
    let ghost wanted = FragmentView {
        overlays: views::all(overlays@),
        files: after_replacement(fragment@.files, replacement@),
        ..fragment@
    };
    updated.files = rewrite_files(&fragment.files, found.len() == 0, replacement);
    updated.overlays = overlays;
    assert(updated@ == wanted);
    let mut out: Vec<FragmentAction> = Vec::new();
    out.push(action::add_fragment(&updated));
    assert(views::all(out@) =~= seq![out@[0]@]);
    Ok(out)
}

} // verus!
