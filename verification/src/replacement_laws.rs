//! What the actions of a data replacement make of a fragment.

use vstd::prelude::*;

use crate::commit;
use crate::error::{Error, Reason};
use crate::pb;
use crate::pb::ActionView;
use crate::record::{FileView, FragmentView, OverlayView};
use crate::replay;

verus! {

/// What actions make of a record, one after the other.
pub open spec fn made_of(record: Option<FragmentView>, actions: Seq<Option<ActionView>>) -> Result<
    Option<FragmentView>,
    Error,
>
    decreases actions.len(),
{
    if actions.len() == 0 {
        Ok(record)
    } else {
        match made_of(record, actions.drop_last()) {
            Err(error) => Err(error),
            Ok(before) => replay::step(
                before,
                commit::untagged(actions.last(), (actions.len() - 1) as u64),
                false,
            ),
        }
    }
}

/// The files with the first of them replaced where they match.
spec fn replaced_up_to(files: Seq<FileView>, replacement: FileView, n: int) -> Seq<FileView> {
    Seq::new(
        files.len(),
        |i: int|
            if i < n && commit::matching(files[i], replacement) {
                files[i].replaced(
                    replacement.path,
                    replacement.file_size_bytes,
                    replacement.base_id,
                )
            } else {
                files[i]
            },
    )
}

/// The swaps for some files.
spec fn swaps_for(files: Seq<FileView>, replacement: FileView, id: u64) -> Seq<Option<ActionView>> {
    commit::replaced_files(files, replacement).map_values(
        |file: FileView| Some(commit::swap(id, file, replacement)),
    )
}

proof fn lemma_replaced_grow(files: Seq<FileView>, replacement: FileView, n: int)
    requires
        0 <= n <= files.len(),
    ensures
        commit::replaced_files(files.take(n), replacement).len() <= commit::replaced_files(
            files,
            replacement,
        ).len(),
    decreases files.len() - n,
{
    if n == files.len() {
        assert(files.take(n) =~= files);
    } else {
        lemma_replaced_grow(files, replacement, n + 1);
        assert(files.take(n + 1) =~= files.take(n).push(files[n]));
        files.take(n).lemma_filter_push(
            files[n],
            |file: FileView| commit::matching(file, replacement),
        );
    }
}

/// Swapping the files of a fragment one after the other replaces them, where
/// no two of them share a path and none takes the path of another.
proof fn lemma_swaps(fragment: FragmentView, replacement: FileView, id: u64, n: int)
    requires
        0 <= n <= fragment.files.len(),
        !commit::aliased(fragment.files),
        !commit::collides(commit::replaced_files(fragment.files, replacement), replacement),
        replacement.path.len() > 0,
        forall|i: int|
            0 <= i < fragment.files.len() ==> (#[trigger] fragment.files[i]).path.len() > 0,
        id <= u32::MAX,
    ensures
        made_of(Some(fragment), swaps_for(fragment.files.take(n), replacement, id)) == Ok::<
            Option<FragmentView>,
            Error,
        >(
            Some(
                FragmentView {
                    files: replaced_up_to(fragment.files, replacement, n),
                    ..fragment
                },
            ),
        ),
    decreases n,
{
    let files = fragment.files;
    let pred = |file: FileView| commit::matching(file, replacement);
    if n == 0 {
        assert(commit::replaced_files(files.take(0), replacement) =~= Seq::empty());
        assert(swaps_for(files.take(0), replacement, id) =~= Seq::empty());
        assert(replaced_up_to(files, replacement, 0) =~= files);
    } else {
        let at = n - 1;
        let file = files[at];
        let before = replaced_up_to(files, replacement, at);
        let earlier = commit::replaced_files(files.take(at), replacement);
        lemma_swaps(fragment, replacement, id, at);
        assert(files.take(n) =~= files.take(at).push(file));
        files.take(at).lemma_filter_push(file, pred);
        if commit::matching(file, replacement) {
            let actions = swaps_for(files.take(n), replacement, id);
            assert(actions.drop_last() =~= swaps_for(files.take(at), replacement, id));
            assert(actions.last() == Some(commit::swap(id, file, replacement)));
            assert forall|i: int| 0 <= i < at implies (#[trigger] before[i]).path
                != file.path by {
                assert(files[i].path != files[at].path);
                if commit::matching(files[i], replacement) && file.path == replacement.path {
                    let all = commit::replaced_files(files, replacement);
                    lemma_replaced_grow(files, replacement, n);
                    assert(files.take(at)[i] == files[i]);
                    files.take(at).lemma_filter_contains(pred, i);
                    assert(earlier.contains(files[i]));
                    assert(all.len() > 1);
                    files.lemma_filter_contains(pred, at);
                    let k = choose|k: int| 0 <= k < all.len() && all[k] == file;
                    assert(all[k].path == replacement.path);
                }
            }
            replay::lemma_first_at_is(before, file.path, at);
            let after = before.update(
                at,
                file.replaced(
                    replacement.path,
                    replacement.file_size_bytes,
                    replacement.base_id,
                ),
            );
            assert(after =~= replaced_up_to(files, replacement, n));
            assert(files[at].path.len() > 0);
        } else {
            assert(replaced_up_to(files, replacement, n) =~= before);
        }
    }
}

/// The actions a data replacement lowers to make of the fragment what the
/// replacement is meant to: its files replaced or the new one appended, its
/// overlays as given, and everything else as it was. Every path involved is a
/// name, not an empty text.
pub proof fn law_replacement_takes_effect(
    fragment: FragmentView,
    replacement: FileView,
    overlays: Seq<OverlayView>,
)
    requires
        fragment.storable(),
        replacement.path.len() > 0,
        forall|i: int|
            0 <= i < fragment.files.len() ==> (#[trigger] fragment.files[i]).path.len() > 0,
        commit::lowered(Some(fragment), fragment.id, replacement, overlays) is Ok,
    ensures
        made_of(
            Some(fragment),
            commit::lowered(Some(fragment), fragment.id, replacement, overlays)->Ok_0,
        ) == Ok::<Option<FragmentView>, Error>(
            Some(
                FragmentView {
                    files: commit::after_replacement(fragment.files, replacement),
                    overlays,
                    ..fragment
                },
            ),
        ),
{
    let files = fragment.files;
    let actions = commit::lowered(Some(fragment), fragment.id, replacement, overlays)->Ok_0;
    let replaced = commit::replaced_files(files, replacement);
    let whole = overlays != fragment.overlays || commit::aliased(files) || commit::collides(
        replaced,
        replacement,
    );
    let n = files.len() as int;
    assert(files.take(n) =~= files);
    if whole || replaced.len() == 0 {
        assert(actions.len() == 1);
        assert(actions.drop_last() =~= Seq::empty());
        assert(made_of(Some(fragment), actions.drop_last()) == Ok::<Option<FragmentView>, Error>(
            Some(fragment),
        ));
        if whole {
            let updated = FragmentView {
                overlays,
                files: commit::after_replacement(files, replacement),
                ..fragment
            };
            assert(updated.storable());
            pb::law_stored_record_reads_back(updated);
        }
    } else {
        lemma_swaps(fragment, replacement, fragment.id, n);
        assert(replaced_up_to(files, replacement, n) =~= commit::after_replacement(
            files,
            replacement,
        ));
        assert(actions =~= swaps_for(files, replacement, fragment.id));
    }
}

/// Whether a file has the fields and the version of another.
pub open spec fn same_columns(file: FileView, replacement: FileView) -> bool {
    &&& file.fields == replacement.fields
    &&& file.file_major_version == replacement.file_major_version
    &&& file.file_minor_version == replacement.file_minor_version
}

/// Whether no field is stored twice among some files.
pub open spec fn fields_once(files: Seq<FileView>) -> bool {
    forall|i: int, a: int, j: int, b: int|
        0 <= i < files.len() && 0 <= a < files[i].fields.len() && 0 <= j < files.len() && 0 <= b
            < files[j].fields.len() && #[trigger] files[i].fields[a] == #[trigger] files[j].fields[b]
            ==> i == j && a == b
}

/// A replacement for a fragment that is not there is refused.
pub proof fn law_replacement_needs_its_fragment(
    id: u64,
    replacement: FileView,
    overlays: Seq<OverlayView>,
)
    ensures
        commit::lowered(None, id, replacement, overlays) == Err::<Seq<Option<ActionView>>, Error>(
            Error::InvalidInput { reason: Reason::ReplacementTargetMissing { id } },
        ),
{
}

proof fn lemma_nothing_replaced(files: Seq<FileView>, replacement: FileView)
    ensures
        commit::replaced_files(files, replacement).len() == 0 <==> forall|i: int|
            0 <= i < files.len() ==> !same_columns(#[trigger] files[i], replacement),
{
    let pred = |file: FileView| commit::matching(file, replacement);
    let found = files.filter(pred);
    if found.len() > 0 {
        files.lemma_filter_pred(pred, 0);
        assert(found.contains(found[0]));
        files.lemma_filter_contains_rev(pred, found[0]);
        let i = choose|i: int| 0 <= i < files.len() && files[i] == found[0];
        assert(same_columns(files[i], replacement));
    }
    if exists|i: int| 0 <= i < files.len() && same_columns(#[trigger] files[i], replacement) {
        let i = choose|i: int| 0 <= i < files.len() && same_columns(#[trigger] files[i], replacement);
        files.lemma_filter_contains(pred, i);
        assert(found.contains(files[i]));
    }
}

/// A replacement that no file of the fragment matches in fields and version is
/// accepted exactly where no field of any file of the fragment is among its
/// fields, and is refused as an overlap otherwise.
pub proof fn law_new_columns_may_not_overlap(
    fragment: FragmentView,
    id: u64,
    replacement: FileView,
    overlays: Seq<OverlayView>,
)
    requires
        forall|i: int|
            0 <= i < fragment.files.len() ==> !same_columns(
                #[trigger] fragment.files[i],
                replacement,
            ),
    ensures
        ({
            let r = commit::lowered(Some(fragment), id, replacement, overlays);
            &&& r is Ok <==> forall|i: int, j: int, k: int|
                0 <= i < fragment.files.len() && 0 <= j < fragment.files[i].fields.len() && 0 <= k
                    < replacement.fields.len() ==> #[trigger] fragment.files[i].fields[j]
                    != #[trigger] replacement.fields[k]
            &&& r matches Err(error) ==> error == (Error::InvalidInput {
                reason: Reason::ReplacementOverlaps { id },
            })
        }),
{
    lemma_nothing_replaced(fragment.files, replacement);
    let files = fragment.files;
    let r = commit::lowered(Some(fragment), id, replacement, overlays);
    if r is Ok {
        assert forall|i: int, j: int, k: int|
            0 <= i < files.len() && 0 <= j < files[i].fields.len() && 0 <= k
                < replacement.fields.len() implies #[trigger] files[i].fields[j]
            != #[trigger] replacement.fields[k] by {
            if files[i].fields[j] == replacement.fields[k] {
                assert(replacement.fields.contains(files[i].fields[j]));
                assert(commit::covers(files, replacement));
            }
        }
    } else {
        let (i, j) = choose|i: int, j: int|
            0 <= i < files.len() && 0 <= j < files[i].fields.len() && replacement.fields.contains(
                #[trigger] files[i].fields[j],
            );
        let k = choose|k: int|
            0 <= k < replacement.fields.len() && replacement.fields[k] == files[i].fields[j];
        assert(files[i].fields[j] == replacement.fields[k]);
    }
}

/// A replacement that matches files of the fragment in fields and version is
/// accepted exactly where it moves one of them: to another path, another size
/// or another owner.
pub proof fn law_swap_must_change_a_file(
    fragment: FragmentView,
    id: u64,
    replacement: FileView,
    overlays: Seq<OverlayView>,
    at: int,
)
    requires
        0 <= at < fragment.files.len(),
        same_columns(fragment.files[at], replacement),
    ensures
        ({
            let r = commit::lowered(Some(fragment), id, replacement, overlays);
            &&& r is Ok <==> exists|i: int|
                0 <= i < fragment.files.len() && same_columns(
                    #[trigger] fragment.files[i],
                    replacement,
                ) && (fragment.files[i].path != replacement.path
                    || fragment.files[i].file_size_bytes != replacement.file_size_bytes
                    || fragment.files[i].base_id != replacement.base_id)
            &&& r matches Err(error) ==> error == (Error::InvalidInput {
                reason: Reason::ReplacementUnchanged { id },
            })
        }),
{
    let files = fragment.files;
    let pred = |file: FileView| commit::matching(file, replacement);
    let found = commit::replaced_files(files, replacement);
    lemma_nothing_replaced(files, replacement);
    assert(found.len() > 0);
    let r = commit::lowered(Some(fragment), id, replacement, overlays);
    if r is Ok {
        let k = choose|k: int|
            0 <= k < found.len() && !commit::co_located(#[trigger] found[k], replacement);
        files.lemma_filter_pred(pred, k);
        assert(found.contains(found[k]));
        files.lemma_filter_contains_rev(pred, found[k]);
        let i = choose|i: int| 0 <= i < files.len() && files[i] == found[k];
        assert(same_columns(files[i], replacement));
    } else {
        assert forall|i: int| 0 <= i < files.len() && same_columns(
            #[trigger] files[i],
            replacement,
        ) implies files[i].path == replacement.path && files[i].file_size_bytes
            == replacement.file_size_bytes && files[i].base_id == replacement.base_id by {
            files.lemma_filter_contains(pred, i);
            let k = choose|k: int| 0 <= k < found.len() && found[k] == files[i];
            assert(commit::co_located(found[k], replacement));
        }
    }
}

/// What an accepted replacement makes of a fragment: every file that matches it
/// in fields and version takes its path, size and owner and keeps the rest, the
/// other files stay, and where none matches the replacement stands behind them.
/// The overlays are the given ones, and everything else stays.
pub proof fn law_replacement_changes_only_what_matches(
    fragment: FragmentView,
    replacement: FileView,
    overlays: Seq<OverlayView>,
)
    requires
        fragment.storable(),
        replacement.path.len() > 0,
        forall|i: int|
            0 <= i < fragment.files.len() ==> (#[trigger] fragment.files[i]).path.len() > 0,
        commit::lowered(Some(fragment), fragment.id, replacement, overlays) is Ok,
    ensures
        ({
            let actions = commit::lowered(
                Some(fragment),
                fragment.id,
                replacement,
                overlays,
            )->Ok_0;
            let made = made_of(Some(fragment), actions);
            let files = fragment.files;
            &&& made matches Ok(Some(_))
            &&& {
                let now = made->Ok_0->0;
                &&& now == (FragmentView { files: now.files, overlays, ..fragment })
                &&& now.files.len() == files.len() || now.files.len() == files.len() + 1
                &&& (now.files.len() == files.len() + 1) <==> forall|i: int|
                    0 <= i < files.len() ==> !same_columns(#[trigger] files[i], replacement)
                &&& now.files.len() == files.len() + 1 ==> now.files.last() == replacement
                &&& forall|i: int|
                    0 <= i < files.len() ==> {
                        let was = #[trigger] files[i];
                        let is = now.files[i];
                        if same_columns(was, replacement) {
                            &&& is.path == replacement.path
                            &&& is.file_size_bytes == replacement.file_size_bytes
                            &&& is.base_id == replacement.base_id
                            &&& is.fields == was.fields
                            &&& is.column_indices == was.column_indices
                            &&& is.file_major_version == was.file_major_version
                            &&& is.file_minor_version == was.file_minor_version
                        } else {
                            is == was
                        }
                    }
            }
        }),
{
    law_replacement_takes_effect(fragment, replacement, overlays);
    lemma_nothing_replaced(fragment.files, replacement);
    let now = commit::after_replacement(fragment.files, replacement);
    assert forall|i: int| 0 <= i < fragment.files.len() implies ({
        let was = #[trigger] fragment.files[i];
        same_columns(was, replacement) || now[i] == was
    }) by {}
}

/// An accepted replacement stores no field twice, where the fragment did not
/// and the replacement names no field twice itself.
pub proof fn law_replacement_stores_no_field_twice(
    fragment: FragmentView,
    replacement: FileView,
    overlays: Seq<OverlayView>,
)
    requires
        fragment.storable(),
        replacement.path.len() > 0,
        forall|i: int|
            0 <= i < fragment.files.len() ==> (#[trigger] fragment.files[i]).path.len() > 0,
        commit::lowered(Some(fragment), fragment.id, replacement, overlays) is Ok,
        fields_once(fragment.files),
        forall|a: int, b: int|
            0 <= a < b < replacement.fields.len() ==> #[trigger] replacement.fields[a]
                != #[trigger] replacement.fields[b],
    ensures
        ({
            let actions = commit::lowered(
                Some(fragment),
                fragment.id,
                replacement,
                overlays,
            )->Ok_0;
            made_of(Some(fragment), actions) matches Ok(Some(now)) && fields_once(now.files)
        }),
{
    law_replacement_changes_only_what_matches(fragment, replacement, overlays);
    let actions = commit::lowered(Some(fragment), fragment.id, replacement, overlays)->Ok_0;
    let now = made_of(Some(fragment), actions)->Ok_0->0;
    let files = fragment.files;
    assert forall|i: int| 0 <= i < files.len() implies (#[trigger] now.files[i]).fields
        == files[i].fields by {
        assert(same_columns(files[i], replacement) || now.files[i] == files[i]);
    }
    if now.files.len() == files.len() + 1 {
        law_new_columns_may_not_overlap(fragment, fragment.id, replacement, overlays);
    }
    assert forall|i: int, a: int, j: int, b: int|
        0 <= i < now.files.len() && 0 <= a < now.files[i].fields.len() && 0 <= j < now.files.len()
            && 0 <= b < now.files[j].fields.len() && #[trigger] now.files[i].fields[a]
            == #[trigger] now.files[j].fields[b] implies i == j && a == b by {
        if i < files.len() && j < files.len() {
            assert(files[i].fields[a] == files[j].fields[b]);
        } else if i < files.len() {
            assert(files[i].fields[a] != replacement.fields[b]);
        } else if j < files.len() {
            assert(files[j].fields[b] != replacement.fields[a]);
        } else if a < b {
            assert(replacement.fields[a] != replacement.fields[b]);
        } else if b < a {
            assert(replacement.fields[b] != replacement.fields[a]);
        }
    }
}

/// Where the overlays stay and no two files share a path, a replacement of one
/// file becomes one swap that names it, and one of new columns becomes one
/// added file. The record is not written whole.
pub proof fn law_plain_replacement_is_one_edit(
    fragment: FragmentView,
    id: u64,
    replacement: FileView,
    at: int,
)
    requires
        commit::lowered(Some(fragment), id, replacement, fragment.overlays) is Ok,
        forall|i: int, j: int|
            0 <= i < j < fragment.files.len() ==> (#[trigger] fragment.files[i]).path != (
            #[trigger] fragment.files[j]).path,
        0 <= at <= fragment.files.len(),
        forall|i: int|
            0 <= i < fragment.files.len() ==> same_columns(#[trigger] fragment.files[i], replacement)
                == (i == at),
    ensures
        ({
            let actions = commit::lowered(
                Some(fragment),
                id,
                replacement,
                fragment.overlays,
            )->Ok_0;
            &&& actions.len() == 1
            &&& at < fragment.files.len() ==> actions[0] == Some(
                ActionView::ReplaceDataFile {
                    frag_id: id,
                    expected_path: fragment.files[at].path,
                    path: replacement.path,
                    file_size_bytes: replacement.file_size_bytes,
                    base_id: replacement.base_id,
                },
            )
            &&& at == fragment.files.len() ==> actions[0] == Some(
                ActionView::AddDataFile { frag_id: id, file: Some(replacement) },
            )
        }),
{
    let files = fragment.files;
    let pred = |file: FileView| commit::matching(file, replacement);
    lemma_nothing_replaced(files, replacement);
    if at < files.len() {
        lemma_only_match(files, pred, at);
        assert(commit::replaced_files(files, replacement) =~= seq![files[at]]);
    } else {
        assert(forall|i: int|
            0 <= i < files.len() ==> !same_columns(#[trigger] files[i], replacement));
    }
}

/// Filtering a list with one match gives that match.
proof fn lemma_only_match(files: Seq<FileView>, pred: spec_fn(FileView) -> bool, at: int)
    requires
        0 <= at < files.len(),
        forall|i: int| 0 <= i < files.len() ==> pred(#[trigger] files[i]) == (i == at),
    ensures
        files.filter(pred) == seq![files[at]],
    decreases files.len(),
{
    let rest = files.drop_last();
    assert(files =~= rest.push(files.last()));
    rest.lemma_filter_push(files.last(), pred);
    if at < rest.len() {
        assert forall|i: int| 0 <= i < rest.len() implies pred(#[trigger] rest[i]) == (i
            == at) by {
            assert(rest[i] == files[i]);
        }
        lemma_only_match(rest, pred, at);
        assert(!pred(files[files.len() - 1]));
    } else {
        lemma_no_match(rest, pred);
        assert(pred(files[at]));
        assert(Seq::<FileView>::empty().push(files[at]) =~= seq![files[at]]);
    }
}

proof fn lemma_no_match(files: Seq<FileView>, pred: spec_fn(FileView) -> bool)
    requires
        forall|i: int| 0 <= i < files.len() ==> !pred(#[trigger] files[i]),
    ensures
        files.filter(pred) == Seq::<FileView>::empty(),
{
    if files.filter(pred).len() > 0 {
        let first = files.filter(pred)[0];
        files.lemma_filter_pred(pred, 0);
        assert(files.filter(pred).contains(first));
        files.lemma_filter_contains_rev(pred, first);
        let i = choose|i: int| 0 <= i < files.len() && files[i] == first;
        assert(!pred(files[i]));
    }
    assert(files.filter(pred) =~= Seq::<FileView>::empty());
}

} // verus!
