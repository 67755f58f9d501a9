//! Laws of reduction: a reduced buffer means what the buffer meant.

use vstd::prelude::*;

use crate::error::Error;
use crate::order;
use crate::pb::{ActionView, MutationView};
use crate::record::{FileView, FragmentView};
use crate::replay;
use crate::replay_laws;
use crate::squash;

verus! {

/// Whether a mutation is a file edit or a deletion edit.
pub open spec fn is_edit(m: MutationView) -> bool {
    m.known() is Some && !m.is_reset()
}

pub open spec fn is_file_edit(m: MutationView) -> bool {
    is_edit(m) && !m.is_deletion()
}

pub open spec fn file_edits(s: Seq<MutationView>) -> Seq<MutationView> {
    s.filter(|m: MutationView| !m.is_deletion())
}

pub proof fn lemma_total_push(s: Seq<MutationView>, m: MutationView)
    ensures
        squash::total(s.push(m)) == (
            squash::total(s).0 + m.deltas().0,
            squash::total(s).1 + m.deltas().1,
            squash::total(s).2 + m.deltas().2,
        ),
{
    assert(s.push(m).drop_last() =~= s);
}

pub proof fn lemma_total_add(a: Seq<MutationView>, b: Seq<MutationView>)
    ensures
        squash::total(a + b) == (
            squash::total(a).0 + squash::total(b).0,
            squash::total(a).1 + squash::total(b).1,
            squash::total(a).2 + squash::total(b).2,
        ),
    decreases b.len(),
{
    if b.len() == 0 {
        assert(a + b =~= a);
    } else {
        lemma_total_add(a, b.drop_last());
        assert((a + b).drop_last() =~= a + b.drop_last());
    }
}

pub proof fn lemma_total_sorted(s: Seq<MutationView>, by_key: bool)
    ensures
        squash::total(order::sorted(s, by_key)) == squash::total(s),
    decreases s.len(),
{
    if s.len() > 0 {
        lemma_total_sorted(s.drop_last(), by_key);
        lemma_total_push(order::sorted(s.drop_last(), by_key), s.last());
        lemma_total_inserted(order::sorted(s.drop_last(), by_key), s.last(), by_key);
    }
}

proof fn lemma_total_inserted(s: Seq<MutationView>, m: MutationView, by_key: bool)
    ensures
        squash::total(order::inserted(s, m, by_key)) == squash::total(s.push(m)),
    decreases s.len(),
{
    lemma_total_push(s, m);
    if s.len() > 0 && order::after(s.last(), m, by_key) {
        lemma_total_inserted(s.drop_last(), m, by_key);
        lemma_total_push(s.drop_last(), m);
        lemma_total_push(order::inserted(s.drop_last(), m, by_key), s.last());
    }
}

pub proof fn lemma_combined(s: Seq<MutationView>, action: ActionView)
    requires
        squash::combined_as(s, action) is Some,
    ensures
        squash::combined_as(s, action)->0.deltas() == squash::total(s),
        squash::combined_as(s, action)->0.known() == Some(action),
        squash::combined_as(s, action)->0.action_sequence == s.last().action_sequence,
    decreases s.len(),
{
    lemma_sums(s);
}

proof fn lemma_sums(s: Seq<MutationView>)
    ensures
        squash::checked_sum(squash::fragment_deltas(s)) matches Some(sum) ==> sum == squash::total(
            s,
        ).0,
        squash::checked_sum(squash::row_deltas(s)) matches Some(sum) ==> sum == squash::total(s).1,
        squash::checked_sum(squash::visible_deltas(s)) matches Some(sum) ==> sum == squash::total(
            s,
        ).2,
    decreases s.len(),
{
    if s.len() > 0 {
        let rest = s.drop_last();
        lemma_sums(rest);
        assert(squash::fragment_deltas(s).drop_last() =~= squash::fragment_deltas(rest));
        assert(squash::row_deltas(s).drop_last() =~= squash::row_deltas(rest));
        assert(squash::visible_deltas(s).drop_last() =~= squash::visible_deltas(rest));
    }
}

/// One step of an edit on a record that exists.
proof fn lemma_edit_step(f: FragmentView, m: MutationView, check: bool)
    requires
        is_edit(m),
    ensures
        ({
            let action = m.known()->0;
            let files = replay::edited_files(f.files, action);
            let deletion = replay::edited_deletion(f.deletion_file, action);
            let g = FragmentView { files: files->Ok_0, deletion_file: deletion->Ok_0, ..f };
            match replay::step(Some(f), m, check) {
                Ok(after) => {
                    &&& m.fault() is None
                    &&& files is Ok
                    &&& deletion is Ok
                    &&& after == Some(g)
                    &&& check ==> replay::delta_fault(Some(f), Some(g), m) is None
                },
                Err(_) => m.fault() is Some || files is Err || deletion is Err || (check
                    && replay::delta_fault(Some(f), Some(g), m) is Some),
            }
        }),
{
}

/// A file edit looks at the files alone and changes no count.
proof fn lemma_file_step(f: FragmentView, g: FragmentView, m: MutationView, check: bool)
    requires
        is_file_edit(m),
        f.files == g.files,
    ensures
        (replay::step(Some(f), m, check) is Ok) == (replay::step(Some(g), m, check) is Ok),
        replay::step(Some(f), m, check) is Ok ==> {
            let files = replay::edited_files(f.files, m.known()->0)->Ok_0;
            &&& replay::step(Some(f), m, check)->Ok_0 == Some(FragmentView { files, ..f })
            &&& replay::step(Some(g), m, check)->Ok_0 == Some(FragmentView { files, ..g })
            &&& replay::counts(Some(FragmentView { files, ..f })) == replay::counts(Some(f))
            &&& check ==> m.deltas() == (0int, 0int, 0int)
        },
{
    lemma_edit_step(f, m, check);
    lemma_edit_step(g, m, check);
    let files = replay::edited_files(f.files, m.known()->0)->Ok_0;
    let f2 = FragmentView { files, ..f };
    let g2 = FragmentView { files, ..g };
    assert(f2.num_rows() == f.num_rows());
    assert(g2.num_rows() == g.num_rows());
}

/// A deletion edit looks at the deletion file and the row count alone.
proof fn lemma_deletion_step(f: FragmentView, g: FragmentView, m: MutationView, check: bool)
    requires
        m.is_deletion(),
        f.deletion_file == g.deletion_file,
        f.physical_rows == g.physical_rows,
    ensures
        (replay::step(Some(f), m, check) is Ok) == (replay::step(Some(g), m, check) is Ok),
        replay::step(Some(f), m, check) is Ok ==> {
            let deletion_file = replay::edited_deletion(f.deletion_file, m.known()->0)->Ok_0;
            &&& replay::step(Some(f), m, check)->Ok_0 == Some(FragmentView { deletion_file, ..f })
            &&& replay::step(Some(g), m, check)->Ok_0 == Some(FragmentView { deletion_file, ..g })
        },
{
    lemma_edit_step(f, m, check);
    lemma_edit_step(g, m, check);
    let deletion_file = replay::edited_deletion(f.deletion_file, m.known()->0)->Ok_0;
    let f2 = FragmentView { deletion_file, ..f };
    let g2 = FragmentView { deletion_file, ..g };
    assert(f2.num_rows() == g2.num_rows());
    assert(f.num_rows() == g.num_rows());
}

/// File edits and deletion edits of a record do not see each other.
proof fn lemma_edits_split(f: FragmentView, s: Seq<MutationView>, check: bool)
    requires
        forall|i: int| 0 <= i < s.len() ==> is_edit(#[trigger] s[i]),
        replay::outcome(Some(f), s, check) is Ok,
    ensures
        ({
            let x = replay::outcome(Some(f), s, check)->Ok_0;
            let g = x->0;
            &&& x is Some
            &&& g == FragmentView { files: g.files, deletion_file: g.deletion_file, ..f }
            &&& replay::outcome(Some(f), file_edits(s), check) == Ok::<
                Option<FragmentView>,
                Error,
            >(Some(FragmentView { files: g.files, ..f }))
            &&& replay::outcome(Some(f), squash::deletions(s), check) == Ok::<
                Option<FragmentView>,
                Error,
            >(Some(FragmentView { deletion_file: g.deletion_file, ..f }))
        }),
    decreases s.len(),
{
    let is_del = |m: MutationView| m.is_deletion();
    let is_file = |m: MutationView| !m.is_deletion();
    if s.len() == 0 {
        assert(file_edits(s) =~= s);
        assert(squash::deletions(s) =~= s);
    } else {
        let rest = s.drop_last();
        let last = s.last();
        assert(last == s[s.len() - 1]);
        assert forall|i: int| 0 <= i < rest.len() implies is_edit(#[trigger] rest[i]) by {
            assert(rest[i] == s[i]);
        }
        lemma_edits_split(f, rest, check);
        assert(s =~= rest.push(last));
        rest.lemma_filter_push(last, is_del);
        rest.lemma_filter_push(last, is_file);
        let h = replay::outcome(Some(f), rest, check)->Ok_0->0;
        let hf = FragmentView { files: h.files, ..f };
        let hd = FragmentView { deletion_file: h.deletion_file, ..f };
        if last.is_deletion() {
            lemma_deletion_step(h, hd, last, check);
            assert(squash::deletions(s).drop_last() =~= squash::deletions(rest));
        } else {
            lemma_file_step(h, hf, last, check);
            assert(file_edits(s).drop_last() =~= file_edits(rest));
        }
    }
}

/// Edits that work on their own work in any interleaving.
proof fn lemma_edits_join(f: FragmentView, s: Seq<MutationView>, check: bool)
    requires
        forall|i: int| 0 <= i < s.len() ==> is_edit(#[trigger] s[i]),
        replay::outcome(Some(f), file_edits(s), check) is Ok,
        replay::outcome(Some(f), squash::deletions(s), check) is Ok,
    ensures
        ({
            let a = replay::outcome(Some(f), file_edits(s), check)->Ok_0;
            let b = replay::outcome(Some(f), squash::deletions(s), check)->Ok_0;
            &&& a is Some
            &&& b is Some
            &&& a->0 == FragmentView { files: a->0.files, ..f }
            &&& b->0 == FragmentView { deletion_file: b->0.deletion_file, ..f }
            &&& replay::outcome(Some(f), s, check) == Ok::<Option<FragmentView>, Error>(
                Some(
                    FragmentView {
                        files: a->0.files,
                        deletion_file: b->0.deletion_file,
                        ..f
                    },
                ),
            )
        }),
    decreases s.len(),
{
    let is_del = |m: MutationView| m.is_deletion();
    let is_file = |m: MutationView| !m.is_deletion();
    if s.len() == 0 {
        assert(file_edits(s) =~= s);
        assert(squash::deletions(s) =~= s);
    } else {
        let rest = s.drop_last();
        let last = s.last();
        assert(last == s[s.len() - 1]);
        assert forall|i: int| 0 <= i < rest.len() implies is_edit(#[trigger] rest[i]) by {
            assert(rest[i] == s[i]);
        }
        assert(s =~= rest.push(last));
        rest.lemma_filter_push(last, is_del);
        rest.lemma_filter_push(last, is_file);
        if last.is_deletion() {
            assert(squash::deletions(s).drop_last() =~= squash::deletions(rest));
            assert(file_edits(s) == file_edits(rest));
            lemma_edits_join(f, rest, check);
            let h = replay::outcome(Some(f), rest, check)->Ok_0->0;
            let hd = replay::outcome(Some(f), squash::deletions(rest), check)->Ok_0->0;
            lemma_deletion_step(h, hd, last, check);
        } else {
            assert(file_edits(s).drop_last() =~= file_edits(rest));
            assert(squash::deletions(s) == squash::deletions(rest));
            lemma_edits_join(f, rest, check);
            let h = replay::outcome(Some(f), rest, check)->Ok_0->0;
            let hf = replay::outcome(Some(f), file_edits(rest), check)->Ok_0->0;
            lemma_file_step(h, hf, last, check);
        }
    }
}

proof fn lemma_without_path_twice(files: Seq<FileView>, path: Seq<char>)
    ensures
        replay::without_path(replay::without_path(files, path), path) == replay::without_path(
            files,
            path,
        ),
    decreases files.len(),
{
    let pred = |file: FileView| file.path != path;
    if files.len() == 0 {
        assert(replay::without_path(files, path) =~= files);
    } else {
        let rest = files.drop_last();
        lemma_without_path_twice(rest, path);
        assert(files =~= rest.push(files.last()));
        rest.lemma_filter_push(files.last(), pred);
        rest.filter(pred).lemma_filter_push(files.last(), pred);
    }
}

/// A merged pair of file edits makes of a record what the two make of it.
proof fn lemma_pair(
    record: Option<FragmentView>,
    a: MutationView,
    b: MutationView,
    merged: MutationView,
    check: bool,
)
    requires
        is_file_edit(a),
        is_file_edit(b),
        squash::pair_as(a.known()->0, b.known()->0) is Some,
        squash::combined_as(
            seq![a, b],
            squash::pair_as(a.known()->0, b.known()->0)->0,
        ) == Some(merged),
        replay::step(record, a, check) is Ok,
        replay::step(replay::step(record, a, check)->Ok_0, b, check) is Ok,
        a.key() == b.key(),
    ensures
        replay::step(record, merged, check) == replay::step(
            replay::step(record, a, check)->Ok_0,
            b,
            check,
        ),
{
    assert(record is Some);
    let f = record->0;
    let action = squash::pair_as(a.known()->0, b.known()->0)->0;
    lemma_file_step(f, f, a, check);
    let g = replay::step(record, a, check)->Ok_0->0;
    lemma_file_step(g, g, b, check);
    lemma_combined(seq![a, b], action);
    assert(seq![a, b].drop_last() =~= seq![a]);
    assert(seq![a].drop_last() =~= Seq::<MutationView>::empty());
    reveal_with_fuel(squash::total, 3);
    assert(check ==> merged.deltas() == (0int, 0int, 0int));
    assert(merged.fault() is None);
    match (a.known()->0, b.known()->0) {
        (ActionView::RemoveDataFile { path, .. }, ActionView::RemoveDataFile { .. }) => {
            lemma_without_path_twice(f.files, path);
        },
        (ActionView::AddDataFile { file, .. }, ActionView::RemoveDataFile { path, .. }) => {
            f.files.lemma_filter_push(file->0, |file: FileView| file.path != path);
        },
        (
            ActionView::ReplaceDataFile { expected_path, .. },
            ActionView::ReplaceDataFile { .. },
        ) => {
            let at = replay::first_at(f.files, expected_path);
            replay::lemma_first_at(f.files, expected_path);
            assert forall|i: int| 0 <= i < at implies (#[trigger] g.files[i]).path
                != expected_path by {
                assert(g.files[i] == f.files[i]);
            }
            replay::lemma_first_at_is(g.files, expected_path, at);
            let files = replay::edited_files(f.files, action)->Ok_0;
            assert(files =~= replay::edited_files(g.files, b.known()->0)->Ok_0);
        },
        _ => {},
    }
    assert(replay::edited_files(f.files, action) == replay::edited_files(g.files, b.known()->0));
    let files = replay::edited_files(f.files, action)->Ok_0;
    let h = FragmentView { files, ..f };
    assert(h.num_rows() == f.num_rows());
    lemma_edit_step(f, merged, check);
}

/// What putting a file edit behind others does.
proof fn lemma_pushed(
    files: Seq<MutationView>,
    current: MutationView,
    key: u64,
    record: Option<FragmentView>,
    check: bool,
) -> (r: (int, MutationView))
    requires
        squash::pushed(files, current) is Some,
        is_file_edit(current),
        current.key() == key,
        forall|i: int|
            0 <= i < files.len() ==> is_file_edit(#[trigger] files[i]) && files[i].key() == key,
    ensures
        ({
            let (n, m) = r;
            let list = squash::pushed(files, current)->0;
            &&& 0 <= n <= files.len()
            &&& list == files.take(n).push(m)
            &&& is_file_edit(m)
            &&& m.key() == key
            &&& m.action_sequence == current.action_sequence
            &&& squash::total(list) == squash::total(files.push(current))
            &&& replay::outcome(record, files.push(current), check) is Ok ==> replay::outcome(
                record,
                list,
                check,
            ) == replay::outcome(record, files.push(current), check)
        }),
    decreases files.len(),
{
    if files.len() == 0 || squash::pair_as(files.last().known()->0, current.known()->0) is None {
        assert(files.take(files.len() as int) =~= files);
        if files.len() > 0 {
            assert(is_file_edit(files[files.len() - 1]));
        }
        (files.len() as int, current)
    } else {
        let last = files.last();
        let rest = files.drop_last();
        assert(is_file_edit(files[files.len() - 1]));
        let action = squash::pair_as(last.known()->0, current.known()->0)->0;
        let merged = squash::combined_as(seq![last, current], action)->0;
        lemma_combined(seq![last, current], action);
        assert(is_file_edit(merged));
        assert forall|i: int| 0 <= i < rest.len() implies is_file_edit(#[trigger] rest[i])
            && rest[i].key() == key by {
            assert(rest[i] == files[i]);
        }
        let r = lemma_pushed(rest, merged, key, record, check);
        let (n, m) = r;
        assert(rest.take(n) =~= files.take(n));
        lemma_total_push(files, current);
        lemma_total_push(rest, merged);
        lemma_total_push(rest, last);
        assert(rest.push(last) =~= files);
        assert(seq![last, current].drop_last() =~= seq![last]);
        assert(seq![last].drop_last() =~= Seq::<MutationView>::empty());
        reveal_with_fuel(squash::total, 3);
        if replay::outcome(record, files.push(current), check) is Ok {
            assert(files.push(current).drop_last() =~= files);
            assert(rest.push(merged).drop_last() =~= rest);
            assert(replay::outcome(record, files, check) is Ok);
            assert(replay::outcome(record, rest, check) is Ok);
            let x = replay::outcome(record, rest, check)->Ok_0;
            lemma_pair(x, last, current, merged, check);
        }
        r
    }
}

/// What merging the file edits of a run does.
pub proof fn lemma_merged_files(
    s: Seq<MutationView>,
    key: u64,
    record: Option<FragmentView>,
    check: bool,
)
    requires
        squash::merged_files(s) is Some,
        forall|i: int|
            0 <= i < s.len() ==> is_edit(#[trigger] s[i]) && s[i].key() == key,
        order::is_sorted(s, false),
    ensures
        ({
            let list = squash::merged_files(s)->0;
            let files = file_edits(s);
            let all = squash::total(s);
            let dels = squash::total(squash::deletions(s));
            &&& forall|i: int|
                0 <= i < list.len() ==> is_file_edit(#[trigger] list[i]) && list[i].key() == key
            &&& order::is_sorted(list, false)
            &&& forall|i: int|
                0 <= i < list.len() ==> exists|j: int|
                    0 <= j < s.len() && (#[trigger] list[i]).action_sequence == (
                    #[trigger] s[j]).action_sequence && !s[j].is_deletion()
            &&& order::distinct(s) ==> order::distinct(list)
            &&& files.len() > 0 ==> list.len() > 0 && list.last().action_sequence
                == files.last().action_sequence
            &&& squash::total(list) == (all.0 - dels.0, all.1 - dels.1, all.2 - dels.2)
            &&& replay::outcome(record, files, check) is Ok ==> replay::outcome(
                record,
                list,
                check,
            ) == replay::outcome(record, files, check)
        }),
    decreases s.len(),
{
    let is_del = |m: MutationView| m.is_deletion();
    let is_file = |m: MutationView| !m.is_deletion();
    if s.len() == 0 {
        assert(file_edits(s) =~= s);
        assert(squash::deletions(s) =~= s);
        assert(squash::merged_files(s)->0 =~= s);
    } else {
        let rest = s.drop_last();
        let last = s.last();
        assert(last == s[s.len() - 1]);
        assert forall|i: int| 0 <= i < rest.len() implies is_edit(#[trigger] rest[i])
            && rest[i].key() == key by {
            assert(rest[i] == s[i]);
        }
        lemma_sorted_prefix(s);
        lemma_merged_files(rest, key, record, check);
        assert(s =~= rest.push(last));
        rest.lemma_filter_push(last, is_del);
        rest.lemma_filter_push(last, is_file);
        lemma_total_push(rest, last);
        let before = squash::merged_files(rest)->0;
        let list = squash::merged_files(s)->0;
        if order::distinct(s) {
            assert(order::distinct(rest)) by {
                assert forall|i: int, j: int| 0 <= i < j < rest.len() implies (
                #[trigger] rest[i]).action_sequence != (#[trigger] rest[j]).action_sequence by {
                    assert(rest[i] == s[i] && rest[j] == s[j]);
                }
            }
        }
        if last.is_deletion() {
            lemma_total_push(squash::deletions(rest), last);
            assert forall|i: int| 0 <= i < list.len() implies exists|j: int|
                0 <= j < s.len() && (#[trigger] list[i]).action_sequence == (
                #[trigger] s[j]).action_sequence && !s[j].is_deletion() by {
                let j = choose|j: int|
                    0 <= j < rest.len() && before[i].action_sequence == (
                    #[trigger] rest[j]).action_sequence && !rest[j].is_deletion();
                assert(s[j] == rest[j]);
            }
        } else {
            let (n, m) = lemma_pushed(before, last, key, record, check);
            lemma_total_push(before, last);
            assert(file_edits(s).drop_last() =~= file_edits(rest));
            assert(before.push(last).drop_last() =~= before);
            assert forall|i: int| 0 <= i < n implies #[trigger] list[i] == before[i] by {}
            assert forall|i: int| 0 <= i < before.len() implies (
            #[trigger] before[i]).action_sequence <= last.action_sequence by {
                let j = choose|j: int|
                    0 <= j < rest.len() && before[i].action_sequence == (
                    #[trigger] rest[j]).action_sequence && !rest[j].is_deletion();
                assert(rest[j] == s[j]);
                assert(!order::after(s[j], s[s.len() - 1], false));
            }
            assert forall|i: int| 0 <= i < list.len() implies is_file_edit(#[trigger] list[i])
                && list[i].key() == key by {
                if i < n {
                    assert(list[i] == before[i]);
                }
            }
            assert forall|i: int, j: int| 0 <= i < j < list.len() implies !order::after(
                #[trigger] list[i],
                #[trigger] list[j],
                false,
            ) by {
                assert(list[i] == before[i]);
                if j < n {
                    assert(list[j] == before[j]);
                }
            }
            assert forall|i: int| 0 <= i < list.len() implies exists|j: int|
                0 <= j < s.len() && (#[trigger] list[i]).action_sequence == (
                #[trigger] s[j]).action_sequence && !s[j].is_deletion() by {
                if i < n {
                    assert(list[i] == before[i]);
                    let j = choose|j: int|
                        0 <= j < rest.len() && before[i].action_sequence == (
                        #[trigger] rest[j]).action_sequence && !rest[j].is_deletion();
                    assert(s[j] == rest[j]);
                } else {
                    assert(s[s.len() - 1] == last);
                }
            }
            if order::distinct(s) {
                assert forall|i: int, j: int| 0 <= i < j < list.len() implies (
                #[trigger] list[i]).action_sequence != (#[trigger] list[j]).action_sequence by {
                    assert(list[i] == before[i]);
                    if j < n {
                        assert(list[j] == before[j]);
                    } else {
                        let k = choose|k: int|
                            0 <= k < rest.len() && before[i].action_sequence == (
                            #[trigger] rest[k]).action_sequence && !rest[k].is_deletion();
                        assert(rest[k] == s[k]);
                        assert(s[k].action_sequence != s[s.len() - 1].action_sequence);
                    }
                }
            }
            if replay::outcome(record, file_edits(s), check) is Ok {
                assert(replay::outcome(record, file_edits(rest), check) is Ok);
                assert(replay::outcome(record, before.push(last), check) == replay::outcome(
                    record,
                    file_edits(s),
                    check,
                ));
            }
        }
    }
}

proof fn lemma_sorted_prefix(s: Seq<MutationView>)
    requires
        order::is_sorted(s, false),
        s.len() > 0,
    ensures
        order::is_sorted(s.drop_last(), false),
{
    let rest = s.drop_last();
    assert forall|i: int, j: int| 0 <= i < j < rest.len() implies !order::after(
        #[trigger] rest[i],
        #[trigger] rest[j],
        false,
    ) by {
        assert(rest[i] == s[i] && rest[j] == s[j]);
    }
}

pub proof fn lemma_last_reset_bounds(s: Seq<MutationView>)
    ensures
        -1 <= squash::last_reset(s) < s.len(),
        squash::last_reset(s) >= 0 ==> s[squash::last_reset(s)].is_reset(),
        squash::last_reset(s) == -1 ==> forall|i: int|
            0 <= i < s.len() ==> !(#[trigger] s[i]).is_reset(),
    decreases s.len(),
{
    if s.len() > 0 && !s.last().is_reset() {
        let rest = s.drop_last();
        lemma_last_reset_bounds(rest);
        if squash::last_reset(s) == -1 {
            assert forall|i: int| 0 <= i < s.len() implies !(#[trigger] s[i]).is_reset() by {
                if i < rest.len() {
                    assert(rest[i] == s[i]);
                }
            }
        }
    }
}

/// Selecting the last element that matches, where the last one does.
proof fn lemma_filter_last(s: Seq<MutationView>, pred: spec_fn(MutationView) -> bool)
    requires
        s.len() > 0,
        pred(s.last()),
    ensures
        s.filter(pred).len() > 0,
        s.filter(pred).last() == s.last(),
{
    assert(s =~= s.drop_last().push(s.last()));
    s.drop_last().lemma_filter_push(s.last(), pred);
}

/// Every place a reduced run uses is one the run used.
pub open spec fn places_within(a: Seq<MutationView>, b: Seq<MutationView>) -> bool {
    forall|i: int|
        0 <= i < a.len() ==> exists|j: int|
            0 <= j < b.len() && (#[trigger] a[i]).action_sequence == (
            #[trigger] b[j]).action_sequence
}

/// The merged deletion edit of a run has a place no file edit has.
proof fn lemma_register_place(s: Seq<MutationView>, files: Seq<MutationView>)
    requires
        squash::deletions(s).len() > 0,
        order::distinct(s),
        forall|i: int|
            0 <= i < files.len() ==> exists|j: int|
                0 <= j < s.len() && (#[trigger] files[i]).action_sequence == (
                #[trigger] s[j]).action_sequence && !s[j].is_deletion(),
    ensures
        forall|i: int|
            0 <= i < files.len() ==> (#[trigger] files[i]).action_sequence != squash::deletions(
                s,
            ).last().action_sequence,
{
    let pred = |m: MutationView| m.is_deletion();
    let register = squash::deletions(s);
    let last = register.last();
    let k = lemma_register_member(s);
    assert forall|i: int| 0 <= i < files.len() implies (#[trigger] files[i]).action_sequence
        != last.action_sequence by {
        let j = choose|j: int|
            0 <= j < s.len() && files[i].action_sequence == (#[trigger] s[j]).action_sequence
                && !s[j].is_deletion();
        assert(j != k);
        if j < k {
            assert(s[j].action_sequence != s[k].action_sequence);
        } else {
            assert(s[k].action_sequence != s[j].action_sequence);
        }
    }
}

pub proof fn lemma_register_member(s: Seq<MutationView>) -> (k: int)
    requires
        squash::deletions(s).len() > 0,
    ensures
        0 <= k < s.len(),
        s[k] == squash::deletions(s).last(),
        s[k].is_deletion(),
{
    let pred = |m: MutationView| m.is_deletion();
    let register = squash::deletions(s);
    assert(register.contains(register[register.len() - 1]));
    s.lemma_filter_contains_rev(pred, register.last());
    s.lemma_filter_pred(pred, register.len() - 1);
    choose|k: int| 0 <= k < s.len() && s[k] == register.last()
}

/// The shape of a reduced run: in commit order, of the same fragment, at
/// places the run used, summing to what the run summed to, ending where the
/// run ended.
pub proof fn law_reduction_keeps_shape(key: u64, s: Seq<MutationView>)
    requires
        order::is_sorted(s, false),
        forall|i: int| 0 <= i < s.len() ==> (#[trigger] s[i]).key() == key,
    ensures
        ({
            let r = squash::reduced(key, s);
            &&& order::is_sorted(r, false)
            &&& forall|i: int| 0 <= i < r.len() ==> (#[trigger] r[i]).key() == key
            &&& places_within(r, s)
            &&& order::distinct(s) ==> order::distinct(r)
            &&& squash::total(r) == squash::total(s)
            &&& s.len() > 0 ==> r.len() > 0 && r.last().action_sequence
                == s.last().action_sequence
        }),
{
    let r = squash::reduced(key, s);
    let at = squash::last_reset(s);
    lemma_last_reset_bounds(s);
    if r == s {
    } else if at >= 0 {
        let suffix = s.skip(at);
        let (state, error) = replay::replayed(Map::empty(), suffix, false);
        let record = replay::lookup(state, key);
        replay_laws::law_fragments_replay_independently(Map::empty(), suffix, false);
        let own = order::run(suffix, key);
        assert(replay::outcome(None, own, false) == Ok::<Option<FragmentView>, Error>(record));
        assert forall|i: int| 0 <= i < own.len() implies (#[trigger] own[i]).key() == key by {
            assert(own.contains(own[i]));
            order::lemma_sorted_contains(order::of_key(suffix, key), false, own[i]);
            order::lemma_of_key_contains(suffix, key, own[i]);
        }
        replay_laws::law_replay_keeps_identity(None, own, false, key);
        let one = squash::combined_as(s, squash::setting(key, record))->0;
        lemma_combined(s, squash::setting(key, record));
        assert(r == seq![one]);
        assert(r.drop_last() =~= Seq::<MutationView>::empty());
        reveal_with_fuel(squash::total, 2);
        assert(s[s.len() - 1].action_sequence == r[0].action_sequence);
    } else {
        assert forall|i: int| 0 <= i < s.len() implies is_edit(#[trigger] s[i])
            && s[i].key() == key by {
            assert(!s[i].is_reset());
        }
        lemma_merged_files(s, key, None, false);
        let files = squash::merged_files(s)->0;
        let register = squash::deletions(s);
        let list = if register.len() == 0 {
            files
        } else {
            files.push(squash::combined_as(register, register.last().known()->0)->0)
        };
        if register.len() > 0 {
            let merged = squash::combined_as(register, register.last().known()->0)->0;
            let k = lemma_register_member(s);
            lemma_combined(register, register.last().known()->0);
            lemma_total_push(files, merged);
            if order::distinct(s) {
                lemma_register_place(s, files);
            }
        }
        assert(r == order::sorted(list, false));
        order::lemma_sorted_is_sorted(list, false);
        lemma_total_sorted(list, false);
        order::lemma_sorted_distinct(list, false);
        assert forall|i: int| 0 <= i < list.len() implies (#[trigger] list[i]).key() == key && (
        exists|j: int|
            0 <= j < s.len() && list[i].action_sequence == (
            #[trigger] s[j]).action_sequence) by {
            if i < files.len() {
                assert(list[i] == files[i]);
                let j = choose|j: int|
                    0 <= j < s.len() && files[i].action_sequence == (
                    #[trigger] s[j]).action_sequence && !s[j].is_deletion();
                assert(list[i].action_sequence == s[j].action_sequence);
            } else {
                let k = lemma_register_member(s);
                assert(list[i].action_sequence == s[k].action_sequence);
            }
        }
        assert forall|i: int| 0 <= i < r.len() implies (#[trigger] r[i]).key() == key && (
        exists|j: int|
            0 <= j < s.len() && r[i].action_sequence == (#[trigger] s[j]).action_sequence) by {
            assert(r.contains(r[i]));
            order::lemma_sorted_contains(list, false, r[i]);
            let k = choose|k: int| 0 <= k < list.len() && list[k] == r[i];
            assert(list[k].key() == key);
        }
        // The last place of the run is still used and still the last.
        let last = s.last();
        let witness = if last.is_deletion() {
            lemma_filter_last(s, |m: MutationView| m.is_deletion());
            list[list.len() - 1]
        } else {
            lemma_filter_last(s, |m: MutationView| !m.is_deletion());
            files[files.len() - 1]
        };
        assert(witness.action_sequence == last.action_sequence);
        assert(list.contains(witness)) by {
            if !last.is_deletion() {
                assert(list[files.len() - 1] == witness);
            }
        }
        order::lemma_sorted_contains(list, false, witness);
        let w = choose|w: int| 0 <= w < r.len() && r[w] == witness;
        if w < r.len() - 1 {
            assert(!order::after(r[w], r[r.len() - 1], false));
        }
        let j = choose|j: int|
            0 <= j < s.len() && r[r.len() - 1].action_sequence == (
            #[trigger] s[j]).action_sequence;
        if j < s.len() - 1 {
            assert(!order::after(s[j], s[s.len() - 1], false));
        }
    }
}

pub proof fn lemma_filter_all(s: Seq<MutationView>, pred: spec_fn(MutationView) -> bool)
    requires
        forall|i: int| 0 <= i < s.len() ==> pred(#[trigger] s[i]),
    ensures
        s.filter(pred) == s,
    decreases s.len(),
{
    if s.len() > 0 {
        let rest = s.drop_last();
        assert forall|i: int| 0 <= i < rest.len() implies pred(#[trigger] rest[i]) by {
            assert(rest[i] == s[i]);
        }
        lemma_filter_all(rest, pred);
        assert(s =~= rest.push(s.last()));
        assert(pred(s[s.len() - 1]));
        rest.lemma_filter_push(s.last(), pred);
    } else {
        assert(s.filter(pred) =~= s);
    }
}

pub proof fn lemma_filter_none(s: Seq<MutationView>, pred: spec_fn(MutationView) -> bool)
    requires
        forall|i: int| 0 <= i < s.len() ==> !pred(#[trigger] s[i]),
    ensures
        s.filter(pred) == Seq::<MutationView>::empty(),
    decreases s.len(),
{
    if s.len() > 0 {
        let rest = s.drop_last();
        assert forall|i: int| 0 <= i < rest.len() implies !pred(#[trigger] rest[i]) by {
            assert(rest[i] == s[i]);
        }
        lemma_filter_none(rest, pred);
        assert(s =~= rest.push(s.last()));
        assert(!pred(s[s.len() - 1]));
        rest.lemma_filter_push(s.last(), pred);
    } else {
        assert(s.filter(pred) =~= s);
    }
}

/// Putting a deletion edit among file edits leaves both as they are.
pub proof fn lemma_register_among_files(files: Seq<MutationView>, merged: MutationView)
    requires
        order::is_sorted(files, false),
        forall|i: int| 0 <= i < files.len() ==> is_file_edit(#[trigger] files[i]),
        merged.is_deletion(),
    ensures
        file_edits(order::sorted(files.push(merged), false)) == files,
        squash::deletions(order::sorted(files.push(merged), false)) == seq![merged],
{
    let is_del = |m: MutationView| m.is_deletion();
    let is_file = |m: MutationView| !m.is_deletion();
    assert(files.push(merged).drop_last() =~= files);
    order::lemma_sorted_fixed(files, false);
    let at = order::lemma_inserted(files, merged, false);
    let r = order::sorted(files.push(merged), false);
    assert(r == files.insert(at, merged));
    let left = files.take(at);
    let right = files.skip(at);
    assert(r =~= left.push(merged) + right);
    assert forall|i: int| 0 <= i < left.len() implies is_file(#[trigger] left[i]) && !is_del(
        left[i],
    ) by {
        assert(left[i] == files[i]);
        assert(is_file_edit(files[i]));
    }
    assert forall|i: int| 0 <= i < right.len() implies is_file(#[trigger] right[i]) && !is_del(
        right[i],
    ) by {
        assert(right[i] == files[at + i]);
        assert(is_file_edit(files[at + i]));
    }
    lemma_filter_all(left, is_file);
    lemma_filter_all(right, is_file);
    lemma_filter_none(left, is_del);
    lemma_filter_none(right, is_del);
    left.lemma_filter_push(merged, is_file);
    left.lemma_filter_push(merged, is_del);
    Seq::filter_distributes_over_add(left.push(merged), right, is_file);
    Seq::filter_distributes_over_add(left.push(merged), right, is_del);
    assert(left + right =~= files);
    assert(Seq::<MutationView>::empty().push(merged) + Seq::<MutationView>::empty() =~= seq![
        merged,
    ]);
}

/// The last of some deletion edits, with their summed deltas, does what they do.
proof fn lemma_register(f: FragmentView, register: Seq<MutationView>, check: bool)
    requires
        register.len() > 0,
        forall|i: int| 0 <= i < register.len() ==> (#[trigger] register[i]).is_deletion(),
        replay::outcome(Some(f), register, check) is Ok,
        squash::combined_as(register, register.last().known()->0) is Some,
    ensures
        replay::step(
            Some(f),
            squash::combined_as(register, register.last().known()->0)->0,
            check,
        ) == replay::outcome(Some(f), register, check),
{
    let last = register.last();
    let rest = register.drop_last();
    let merged = squash::combined_as(register, last.known()->0)->0;
    lemma_combined(register, last.known()->0);
    assert(register[register.len() - 1].is_deletion());
    assert forall|i: int| 0 <= i < register.len() implies is_edit(#[trigger] register[i]) by {
        assert(register[i].is_deletion());
    }
    assert forall|i: int| 0 <= i < rest.len() implies is_edit(#[trigger] rest[i]) by {
        assert(rest[i] == register[i]);
        assert(register[i].is_deletion());
    }
    lemma_edits_split(f, register, check);
    lemma_edits_split(f, rest, check);
    let is_file = |m: MutationView| !m.is_deletion();
    lemma_filter_none(register, is_file);
    let h = replay::outcome(Some(f), rest, check)->Ok_0->0;
    let g = replay::outcome(Some(f), register, check)->Ok_0->0;
    lemma_deletion_step(h, h, last, check);
    lemma_edit_step(f, merged, check);
    if check {
        replay_laws::law_deltas_account_for_replay(Some(f), register);
    }
}

proof fn lemma_reduced_with_reset(
    record: Option<FragmentView>,
    key: u64,
    s: Seq<MutationView>,
    check: bool,
)
    requires
        order::is_sorted(s, false),
        order::distinct(s),
        forall|i: int| 0 <= i < s.len() ==> (#[trigger] s[i]).key() == key,
        replay::outcome(record, s, check) is Ok,
        replay::outcome(record, s, check)->Ok_0 matches Some(f) ==> f.storable(),
        squash::last_reset(s) >= 0,
        squash::reduced(key, s) != s,
    ensures
        replay::outcome(record, squash::reduced(key, s), check) == replay::outcome(
            record,
            s,
            check,
        ),
{
    let x = replay::outcome(record, s, check)->Ok_0;
    let r = squash::reduced(key, s);
    let at = squash::last_reset(s);
    lemma_last_reset_bounds(s);
    let before = s.take(at);
    let suffix = s.skip(at);
    assert(before + suffix =~= s);
    assert(suffix[0] == s[at]);
    if check {
        replay_laws::law_verified_replay_is_trusted(record, s);
        replay_laws::law_deltas_account_for_replay(record, s);
    }
    replay_laws::law_replay_joins(record, before, suffix, false);
    replay_laws::law_reset_forgets(
        replay::outcome(record, before, false)->Ok_0,
        None,
        suffix,
    );
    assert(replay::outcome(None, suffix, false) == Ok::<Option<FragmentView>, Error>(x));
    assert forall|i: int| 0 <= i < suffix.len() implies (#[trigger] suffix[i]).key() == key by {
        assert(suffix[i] == s[at + i]);
    }
    assert(order::is_sorted(suffix, false) && order::distinct(suffix)) by {
        assert forall|i: int, j: int| 0 <= i < j < suffix.len() implies !order::after(
            #[trigger] suffix[i],
            #[trigger] suffix[j],
            false,
        ) && suffix[i].action_sequence != suffix[j].action_sequence by {
            assert(suffix[i] == s[at + i] && suffix[j] == s[at + j]);
        }
    }
    order::lemma_of_key_all(suffix, key);
    order::lemma_sorted_fixed(suffix, false);
    let state = replay::replayed(Map::empty(), suffix, false).0;
    replay_laws::law_fragments_replay_independently(Map::empty(), suffix, false);
    assert(order::run(suffix, key) == suffix);
    assert(replay::lookup(state, key) == x);
    let action = squash::setting(key, x);
    let one = squash::combined_as(s, action)->0;
    lemma_combined(s, action);
    assert(r == seq![one]);
    assert(r.drop_last() =~= Seq::<MutationView>::empty());
    assert(s.contains(s[at]));
    replay_laws::lemma_outcome_faults(record, s, check, s[at]);
    assert(replay::outcome(record, r.drop_last(), check) == Ok::<
        Option<FragmentView>,
        Error,
    >(record));
    if let Some(f) = x {
        crate::pb::law_stored_record_reads_back(f);
    }
    assert(replay::applied(record, action) == Ok::<Option<FragmentView>, Error>(x));
    assert(one.fault() is None);
}

proof fn lemma_reduced_edits(
    record: Option<FragmentView>,
    key: u64,
    s: Seq<MutationView>,
    check: bool,
)
    requires
        order::is_sorted(s, false),
        order::distinct(s),
        forall|i: int| 0 <= i < s.len() ==> (#[trigger] s[i]).key() == key,
        replay::outcome(record, s, check) is Ok,
        replay::outcome(record, s, check)->Ok_0 matches Some(f) ==> f.storable(),
        squash::last_reset(s) < 0,
        squash::reduced(key, s) != s,
    ensures
        replay::outcome(record, squash::reduced(key, s), check) == replay::outcome(
            record,
            s,
            check,
        ),
{
    let r = squash::reduced(key, s);
    lemma_last_reset_bounds(s);
    assert forall|i: int| 0 <= i < s.len() implies is_edit(#[trigger] s[i])
        && s[i].key() == key by {
        assert(!s[i].is_reset());
    }
    // An edit needs a record to work on.
    assert(record is Some) by {
        let head = s.take(1);
        let tail = s.skip(1);
        assert(head + tail =~= s);
        replay_laws::law_replay_joins(record, head, tail, check);
        assert(head.drop_last() =~= Seq::<MutationView>::empty());
        assert(head.last() == s[0]);
        assert(is_edit(s[0]));
        assert(replay::outcome(record, head.drop_last(), check) == Ok::<
            Option<FragmentView>,
            Error,
        >(record));
        assert(replay::outcome(record, head, check) is Ok);
        assert(replay::step(record, s[0], check) is Ok);
        assert(s[0].known() is Some && !s[0].known()->0.is_reset());
    }
    let f = record->0;
    lemma_edits_split(f, s, check);
    lemma_merged_files(s, key, record, check);
    let files = squash::merged_files(s)->0;
    let register = squash::deletions(s);
    let is_del = |m: MutationView| m.is_deletion();
    let is_file = |m: MutationView| !m.is_deletion();
    if register.len() == 0 {
        order::lemma_sorted_fixed(files, false);
        lemma_filter_all(files, is_file);
        lemma_filter_none(files, is_del);
        assert(r == files);
    } else {
        let merged = squash::combined_as(register, register.last().known()->0)->0;
        lemma_combined(register, register.last().known()->0);
        let k = lemma_register_member(s);
        assert forall|i: int| 0 <= i < register.len() implies (
        #[trigger] register[i]).is_deletion() by {
            s.lemma_filter_pred(is_del, i);
        }
        lemma_register(f, register, check);
        lemma_register_among_files(files, merged);
        assert(seq![merged].drop_last() =~= Seq::<MutationView>::empty());
        assert(replay::outcome(Some(f), seq![merged], check) == replay::step(
            Some(f),
            merged,
            check,
        )) by {
            assert(replay::outcome(Some(f), seq![merged].drop_last(), check) == Ok::<
                Option<FragmentView>,
                Error,
            >(Some(f)));
        }
        assert forall|i: int| 0 <= i < r.len() implies is_edit(#[trigger] r[i]) by {
            assert(r.contains(r[i]));
            order::lemma_sorted_contains(files.push(merged), false, r[i]);
            let j = choose|j: int|
                0 <= j < files.push(merged).len() && files.push(merged)[j] == r[i];
            if j < files.len() {
                assert(is_file_edit(files[j]));
            }
        }
    }
    lemma_edits_join(f, r, check);
}

/// A reduced run makes of every record what the run makes of it, wherever the
/// run succeeds and leaves a record that can be stored.
pub proof fn law_reduced_run_means_the_same(
    record: Option<FragmentView>,
    key: u64,
    s: Seq<MutationView>,
    check: bool,
)
    requires
        order::is_sorted(s, false),
        order::distinct(s),
        forall|i: int| 0 <= i < s.len() ==> (#[trigger] s[i]).key() == key,
        replay::outcome(record, s, check) is Ok,
        replay::outcome(record, s, check)->Ok_0 matches Some(f) ==> f.storable(),
    ensures
        replay::outcome(record, squash::reduced(key, s), check) == replay::outcome(
            record,
            s,
            check,
        ),
{
    if squash::reduced(key, s) != s {
        if squash::last_reset(s) >= 0 {
            lemma_reduced_with_reset(record, key, s, check);
        } else {
            lemma_reduced_edits(record, key, s, check);
        }
    }
}

/// Whether `out` holds the reduced mutations of `s`, fragment by fragment.
pub open spec fn grouped(s: Seq<MutationView>, out: Seq<MutationView>) -> bool {
    &&& forall|key: u64| #[trigger]
        order::of_key(out, key) == squash::reduced(key, order::of_key(s, key))
    &&& squash::total(out) == squash::total(s)
}

/// Whether mutations are in the order of their fragments.
pub open spec fn keys_ascend(s: Seq<MutationView>) -> bool {
    forall|i: int, j: int|
        0 <= i < j < s.len() ==> (#[trigger] s[i]).key() <= (#[trigger] s[j]).key()
}

/// A reduced run behind those of earlier fragments.
pub proof fn lemma_keys_ascend(
    head: Seq<MutationView>,
    run: Seq<MutationView>,
    out: Seq<MutationView>,
    key: u64,
)
    requires
        keys_ascend(out),
        order::is_sorted(head + run, true),
        forall|i: int| 0 <= i < run.len() ==> (#[trigger] run[i]).key() == key,
        forall|i: int| 0 <= i < out.len() ==> (#[trigger] out[i]).key() < key,
    ensures
        keys_ascend(out + squash::reduced(key, run)),
        ({
            let all = out + squash::reduced(key, run);
            forall|i: int| 0 <= i < all.len() ==> (#[trigger] all[i]).key() <= key
        }),
{
    let group = squash::reduced(key, run);
    assert(order::is_sorted(run, false)) by {
        assert forall|i: int, j: int| 0 <= i < j < run.len() implies !order::after(
            #[trigger] run[i],
            #[trigger] run[j],
            false,
        ) by {
            let all = head + run;
            assert(all[head.len() + i] == run[i] && all[head.len() + j] == run[j]);
            assert(!order::after(all[head.len() + i], all[head.len() + j], true));
        }
    }
    law_reduction_keeps_shape(key, run);
    let all = out + group;
    assert forall|i: int| 0 <= i < all.len() implies (#[trigger] all[i]).key() <= key && (i
        >= out.len() ==> all[i].key() == key) by {
        if i < out.len() {
            assert(all[i] == out[i]);
        } else {
            assert(all[i] == group[i - out.len()]);
        }
    }
    assert forall|i: int, j: int| 0 <= i < j < all.len() implies (#[trigger] all[i]).key() <= (
    #[trigger] all[j]).key() by {
        if j < out.len() {
            assert(all[i] == out[i] && all[j] == out[j]);
        }
    }
}

pub proof fn lemma_grouped_empty()
    ensures
        grouped(Seq::empty(), Seq::empty()),
{
    let none = Seq::<MutationView>::empty();
    assert forall|key: u64| #[trigger]
        order::of_key(none, key) == squash::reduced(key, order::of_key(none, key)) by {
        order::lemma_of_key_none(none, key);
    }
}

pub proof fn lemma_grouped_flush(
    head: Seq<MutationView>,
    run: Seq<MutationView>,
    out: Seq<MutationView>,
    key: u64,
)
    requires
        grouped(head, out),
        order::is_sorted(head + run, true),
        forall|i: int| 0 <= i < run.len() ==> (#[trigger] run[i]).key() == key,
        forall|i: int| 0 <= i < head.len() ==> (#[trigger] head[i]).key() < key,
    ensures
        grouped(head + run, out + squash::reduced(key, run)),
{
    let group = squash::reduced(key, run);
    assert(order::is_sorted(run, false)) by {
        assert forall|i: int, j: int| 0 <= i < j < run.len() implies !order::after(
            #[trigger] run[i],
            #[trigger] run[j],
            false,
        ) by {
            let all = head + run;
            assert(all[head.len() + i] == run[i] && all[head.len() + j] == run[j]);
            assert(run[i].key() == key && run[j].key() == key);
            assert(!order::after(all[head.len() + i], all[head.len() + j], true));
        }
    }
    law_reduction_keeps_shape(key, run);
    lemma_total_add(head, run);
    lemma_total_add(out, group);
    assert forall|k: u64| #[trigger]
        order::of_key(out + group, k) == squash::reduced(k, order::of_key(head + run, k)) by {
        let pred = |m: MutationView| m.key() == k;
        Seq::filter_distributes_over_add(out, group, pred);
        Seq::filter_distributes_over_add(head, run, pred);
        assert(order::of_key(out, k) == squash::reduced(k, order::of_key(head, k)));
        if k == key {
            order::lemma_of_key_none(head, k);
            order::lemma_of_key_all(run, k);
            order::lemma_of_key_all(group, k);
            assert(Seq::<MutationView>::empty() + run =~= run);
            assert(Seq::<MutationView>::empty() + group =~= group);
        } else {
            order::lemma_of_key_none(run, k);
            order::lemma_of_key_none(group, k);
            let mine = order::of_key(head, k);
            assert(mine + Seq::<MutationView>::empty() =~= mine);
            let theirs = order::of_key(out, k);
            assert(theirs + Seq::<MutationView>::empty() =~= theirs);
        }
    }
}

/// A fragment's mutations in commit order: sorted, its own, and from the list.
pub proof fn lemma_run(s: Seq<MutationView>, key: u64)
    ensures
        order::is_sorted(order::run(s, key), false),
        forall|i: int|
            0 <= i < order::run(s, key).len() ==> (#[trigger] order::run(s, key)[i]).key() == key
                && s.contains(order::run(s, key)[i]),
        order::distinct(s) ==> order::distinct(order::run(s, key)),
{
    let own = order::of_key(s, key);
    let run = order::run(s, key);
    order::lemma_sorted_is_sorted(own, false);
    assert forall|i: int| 0 <= i < run.len() implies (#[trigger] run[i]).key() == key
        && s.contains(run[i]) by {
        assert(run.contains(run[i]));
        order::lemma_sorted_contains(own, false, run[i]);
        order::lemma_of_key_contains(s, key, run[i]);
    }
    order::lemma_sorted_distinct(own, false);
    if order::distinct(s) {
        lemma_of_key_distinct(s, key);
    }
}

pub proof fn lemma_of_key_distinct(s: Seq<MutationView>, key: u64)
    requires
        order::distinct(s),
    ensures
        order::distinct(order::of_key(s, key)),
    decreases s.len(),
{
    if s.len() == 0 {
        order::lemma_of_key_none(s, key);
    } else {
        let rest = s.drop_last();
        let last = s.last();
        assert forall|i: int, j: int| 0 <= i < j < rest.len() implies (
        #[trigger] rest[i]).action_sequence != (#[trigger] rest[j]).action_sequence by {
            assert(rest[i] == s[i] && rest[j] == s[j]);
        }
        lemma_of_key_distinct(rest, key);
        assert(s =~= rest.push(last));
        rest.lemma_filter_push(last, |m: MutationView| m.key() == key);
        let own = order::of_key(rest, key);
        if last.key() == key {
            let all = own.push(last);
            assert forall|i: int, j: int| 0 <= i < j < all.len() implies (
            #[trigger] all[i]).action_sequence != (#[trigger] all[j]).action_sequence by {
                if j == own.len() {
                    assert(own.contains(own[i]));
                    order::lemma_of_key_contains(rest, key, own[i]);
                    let k = choose|k: int| 0 <= k < rest.len() && rest[k] == own[i];
                    assert(s[k] == rest[k] && s[s.len() - 1] == last);
                } else {
                    assert(all[i] == own[i] && all[j] == own[j]);
                }
            }
        }
    }
}

pub proof fn lemma_grouped_sorted(given: Seq<MutationView>, out: Seq<MutationView>)
    requires
        grouped(order::sorted(given, true), out),
        keys_ascend(out),
    ensures
        squash::normalized(given, order::sorted(out, false)),
{
    let t = order::sorted(given, true);
    let r = order::sorted(out, false);
    order::lemma_sorted_is_sorted(out, false);
    order::lemma_sorted_ties(out);
    lemma_total_sorted(given, true);
    lemma_total_sorted(out, false);
    assert forall|key: u64| #[trigger]
        order::run(r, key) == squash::reduced(key, order::run(given, key)) by {
        let run = order::run(given, key);
        order::lemma_of_key_sorted(given, true, key);
        lemma_run(given, key);
        law_reduction_keeps_shape(key, run);
        let small = squash::reduced(key, run);
        assert(order::of_key(out, key) == small);
        order::lemma_of_key_sorted(out, false, key);
        order::lemma_sorted_fixed(small, false);
    }
}

/// Distinct places within each fragment and across fragments are distinct.
proof fn lemma_distinct_by_key(s: Seq<MutationView>)
    requires
        forall|key: u64| order::distinct(#[trigger] order::of_key(s, key)),
        forall|i: int, j: int|
            0 <= i < j < s.len() && (#[trigger] s[i]).key() != (#[trigger] s[j]).key()
                ==> s[i].action_sequence != s[j].action_sequence,
    ensures
        order::distinct(s),
    decreases s.len(),
{
    if s.len() > 0 {
        let rest = s.drop_last();
        let last = s.last();
        assert(s =~= rest.push(last));
        assert forall|key: u64| order::distinct(#[trigger] order::of_key(rest, key)) by {
            rest.lemma_filter_push(last, |m: MutationView| m.key() == key);
            let all = order::of_key(s, key);
            let own = order::of_key(rest, key);
            assert(order::distinct(all));
            assert forall|i: int, j: int| 0 <= i < j < own.len() implies (
            #[trigger] own[i]).action_sequence != (#[trigger] own[j]).action_sequence by {
                assert(own[i] == all[i] && own[j] == all[j]);
            }
        }
        assert forall|i: int, j: int|
            0 <= i < j < rest.len() && (#[trigger] rest[i]).key() != (
            #[trigger] rest[j]).key() implies rest[i].action_sequence
            != rest[j].action_sequence by {
            assert(rest[i] == s[i] && rest[j] == s[j]);
        }
        lemma_distinct_by_key(rest);
        assert forall|i: int, j: int| 0 <= i < j < s.len() implies (
        #[trigger] s[i]).action_sequence != (#[trigger] s[j]).action_sequence by {
            if j < rest.len() {
                assert(rest[i] == s[i] && rest[j] == s[j]);
            } else if s[i].key() == last.key() {
                let key = last.key();
                rest.lemma_filter_push(last, |m: MutationView| m.key() == key);
                let own = order::of_key(rest, key);
                let all = order::of_key(s, key);
                assert(rest[i] == s[i]);
                assert(rest.contains(rest[i]));
                order::lemma_of_key_contains(rest, key, rest[i]);
                let k = choose|k: int| 0 <= k < own.len() && own[k] == rest[i];
                assert(order::distinct(all));
                assert(all[k] == own[k] && all[own.len() as int] == last);
            }
        }
    }
}

/// A normalized buffer uses no place in the commit order twice if the buffer
/// did not.
pub proof fn law_squash_keeps_places_distinct(s: Seq<MutationView>, r: Seq<MutationView>)
    requires
        squash::normalized(s, r),
        order::distinct(s),
    ensures
        order::distinct(r),
{
    assert forall|key: u64| order::distinct(#[trigger] order::of_key(r, key)) by {
        lemma_run(s, key);
        law_reduction_keeps_shape(key, order::run(s, key));
        assert(order::run(r, key) == squash::reduced(key, order::run(s, key)));
        order::lemma_sorted_distinct(order::of_key(r, key), false);
    }
    assert forall|i: int, j: int|
        0 <= i < j < r.len() && (#[trigger] r[i]).key() != (
        #[trigger] r[j]).key() implies r[i].action_sequence != r[j].action_sequence by {
        let a = lemma_squashed_origin(s, r, i);
        let b = lemma_squashed_origin(s, r, j);
        assert(a != b);
        if a < b {
            assert(s[a].action_sequence != s[b].action_sequence);
        } else {
            assert(s[b].action_sequence != s[a].action_sequence);
        }
    }
    lemma_distinct_by_key(r);
}

/// Every mutation of a normalized buffer has the place and the fragment of a
/// mutation of the buffer.
pub proof fn lemma_squashed_origin(s: Seq<MutationView>, r: Seq<MutationView>, i: int) -> (a: int)
    requires
        squash::normalized(s, r),
        0 <= i < r.len(),
    ensures
        0 <= a < s.len(),
        s[a].key() == r[i].key(),
        s[a].action_sequence == r[i].action_sequence,
{
    let key = r[i].key();
    let run = order::run(s, key);
    let small = squash::reduced(key, run);
    assert(order::run(r, key) == small);
    assert(r.contains(r[i]));
    order::lemma_of_key_contains(r, key, r[i]);
    order::lemma_sorted_contains(order::of_key(r, key), false, r[i]);
    let x = choose|x: int| 0 <= x < small.len() && small[x] == r[i];
    lemma_run(s, key);
    law_reduction_keeps_shape(key, run);
    let y = choose|y: int|
        0 <= y < run.len() && small[x].action_sequence == (#[trigger] run[y]).action_sequence;
    assert(s.contains(run[y]));
    choose|a: int| 0 <= a < s.len() && s[a] == run[y]
}

/// A normalized buffer replays to what the buffer replays to, wherever the
/// buffer replays and leaves records that can be stored.
pub proof fn law_squash_preserves_replay(
    state: Map<u64, FragmentView>,
    s: Seq<MutationView>,
    r: Seq<MutationView>,
    check: bool,
)
    requires
        squash::normalized(s, r),
        replay::replayed(state, s, check).1 is None,
        forall|key: u64| #[trigger]
            replay::replayed(state, s, check).0.contains_key(key) ==> replay::replayed(
                state,
                s,
                check,
            ).0[key].storable(),
    ensures
        replay::replayed(state, r, check) == replay::replayed(state, s, check),
{
    let end = replay::replayed(state, s, check).0;
    replay_laws::law_fragments_replay_independently(state, s, check);
    law_squash_keeps_places_distinct(s, r);
    assert forall|key: u64|
        #![trigger order::run(r, key)]
        replay::outcome(replay::lookup(state, key), order::run(r, key), check) == Ok::<
            Option<FragmentView>,
            Error,
        >(replay::lookup(end, key)) by {
        let run = order::run(s, key);
        lemma_run(s, key);
        assert(replay::outcome(replay::lookup(state, key), run, check) == Ok::<
            Option<FragmentView>,
            Error,
        >(replay::lookup(end, key)));
        law_reduced_run_means_the_same(replay::lookup(state, key), key, run, check);
    }
    replay_laws::law_fragments_replay_independently(state, r, check);
    let done = replay::replayed(state, r, check).0;
    assert forall|key: u64| replay::lookup(done, key) == #[trigger] replay::lookup(end, key) by {
        let run = order::run(r, key);
    }
    lemma_lookup_decides(done, end);
}

/// Maps that look up the same are the same.
pub proof fn lemma_lookup_decides(a: Map<u64, FragmentView>, b: Map<u64, FragmentView>)
    requires
        forall|key: u64| replay::lookup(a, key) == #[trigger] replay::lookup(b, key),
    ensures
        a == b,
{
    assert forall|key: u64| a.dom().contains(key) == #[trigger] b.dom().contains(key) by {
        assert(replay::lookup(a, key) == replay::lookup(b, key));
    }
    assert(a.dom() =~= b.dom());
    assert forall|key: u64| #[trigger] a.contains_key(key) implies a[key] == b[key] by {
        assert(replay::lookup(a, key) == replay::lookup(b, key));
    }
    assert(a =~= b);
}

// Sizes.

proof fn lemma_pushed_len(files: Seq<MutationView>, current: MutationView)
    ensures
        squash::pushed(files, current) matches Some(out) ==> out.len() <= files.len() + 1,
    decreases files.len(),
{
    if !(files.len() == 0 || files.last().known() is None || current.known() is None) {
        if let Some(action) = squash::pair_as(files.last().known()->0, current.known()->0) {
            if let Some(merged) = squash::combined_as(seq![files.last(), current], action) {
                lemma_pushed_len(files.drop_last(), merged);
            }
        }
    }
}

proof fn lemma_merged_files_len(s: Seq<MutationView>)
    ensures
        squash::merged_files(s) matches Some(files) ==> files.len() + squash::deletions(s).len()
            <= s.len(),
    decreases s.len(),
{
    broadcast use Seq::lemma_filter_push;

    let pred = |m: MutationView| m.is_deletion();
    if s.len() > 0 {
        let rest = s.drop_last();
        lemma_merged_files_len(rest);
        assert(s =~= rest.push(s.last()));
        rest.lemma_filter_push(s.last(), pred);
        if let Some(files) = squash::merged_files(rest) {
            lemma_pushed_len(files, s.last());
        }
    } else {
        assert(s.filter(pred) =~= Seq::<MutationView>::empty());
    }
}

proof fn lemma_sorted_len(s: Seq<MutationView>, by_key: bool)
    ensures
        order::sorted(s, by_key).len() == s.len(),
{
    order::lemma_sorted_multiset(s, by_key);
    order::sorted(s, by_key).to_multiset_ensures();
    s.to_multiset_ensures();
}

proof fn lemma_reduced_len(key: u64, s: Seq<MutationView>)
    ensures
        squash::reduced(key, s).len() <= s.len(),
{
    lemma_merged_files_len(s);
    if let Some(files) = squash::merged_files(s) {
        let register = squash::deletions(s);
        lemma_sorted_len(files, false);
        if register.len() > 0 {
            if let Some(merged) = squash::combined_as(register, register.last().known()->0) {
                lemma_sorted_len(files.push(merged), false);
            }
        }
    }
}

/// The mutations of every fragment but one.
spec fn but_key(s: Seq<MutationView>, key: u64) -> Seq<MutationView> {
    s.filter(|m: MutationView| m.key() != key)
}

proof fn lemma_but_key(s: Seq<MutationView>, key: u64)
    ensures
        but_key(s, key).len() + order::of_key(s, key).len() == s.len(),
        forall|other: u64| other != key ==> #[trigger] order::of_key(but_key(s, key), other)
            == order::of_key(s, other),
        order::of_key(but_key(s, key), key) == Seq::<MutationView>::empty(),
    decreases s.len(),
{
    broadcast use Seq::lemma_filter_push;

    let rest_pred = |m: MutationView| m.key() != key;
    let own = |m: MutationView| m.key() == key;
    if s.len() > 0 {
        let rest = s.drop_last();
        let last = s.last();
        lemma_but_key(rest, key);
        assert(s =~= rest.push(last));
        rest.lemma_filter_push(last, rest_pred);
        rest.lemma_filter_push(last, own);
        assert forall|other: u64| other != key implies #[trigger] order::of_key(
            but_key(s, key),
            other,
        ) == order::of_key(s, other) by {
            let pred = |m: MutationView| m.key() == other;
            rest.lemma_filter_push(last, pred);
            but_key(rest, key).lemma_filter_push(last, pred);
            assert(order::of_key(but_key(rest, key), other) == order::of_key(rest, other));
        }
        but_key(rest, key).lemma_filter_push(last, own);
    } else {
        assert(s.filter(rest_pred) =~= s);
        assert(s.filter(own) =~= s);
        assert(but_key(s, key) =~= s);
    }
}

proof fn lemma_runs_len(s: Seq<MutationView>, r: Seq<MutationView>)
    requires
        forall|key: u64| #[trigger]
            order::run(r, key) == squash::reduced(key, order::run(s, key)),
    ensures
        r.len() <= s.len(),
    decreases r.len(),
{
    if r.len() > 0 {
        let key = r[0].key();
        lemma_but_key(r, key);
        lemma_but_key(s, key);
        let a = but_key(s, key);
        let b = but_key(r, key);
        assert(order::of_key(r, key).len() > 0) by {
            order::lemma_of_key_contains(r, key, r[0]);
            assert(r.contains(r[0]));
        }
        assert forall|other: u64| #[trigger] order::run(b, other) == squash::reduced(
            other,
            order::run(a, other),
        ) by {
            assert(order::run(r, other) == squash::reduced(other, order::run(s, other)));
            if other == key {
                assert(order::of_key(a, key) == Seq::<MutationView>::empty());
                assert(order::of_key(b, key) == Seq::<MutationView>::empty());
            } else {
                assert(order::of_key(a, other) == order::of_key(s, other));
                assert(order::of_key(b, other) == order::of_key(r, other));
            }
        }
        lemma_runs_len(a, b);
        lemma_reduced_len(key, order::run(s, key));
        lemma_sorted_len(order::of_key(s, key), false);
        lemma_sorted_len(order::of_key(r, key), false);
        assert(order::run(r, key) == squash::reduced(key, order::run(s, key)));
    }
}

/// Normalizing a buffer never makes it longer.
pub proof fn law_squash_never_grows(s: Seq<MutationView>, r: Seq<MutationView>)
    requires
        squash::normalized(s, r),
    ensures
        r.len() <= s.len(),
{
    lemma_runs_len(s, r);
}

/// Whether no two neighbours among some file edits merge.
pub open spec fn settled(files: Seq<MutationView>) -> bool {
    forall|i: int, j: int|
        0 <= i && j == i + 1 && j < files.len() ==> squash::pair_as(
            (#[trigger] files[i]).known()->0,
            (#[trigger] files[j]).known()->0,
        ) is None
}

proof fn lemma_pushed_settled(files: Seq<MutationView>, current: MutationView)
    requires
        squash::pushed(files, current) is Some,
        current.known() is Some,
        forall|i: int| 0 <= i < files.len() ==> (#[trigger] files[i]).known() is Some,
        settled(files),
    ensures
        settled(squash::pushed(files, current)->0),
        forall|i: int|
            0 <= i < squash::pushed(files, current)->0.len() ==> (#[trigger] squash::pushed(
                files,
                current,
            )->0[i]).known() is Some,
    decreases files.len(),
{
    if files.len() > 0 {
        assert(files[files.len() - 1].known() is Some);
        match squash::pair_as(files.last().known()->0, current.known()->0) {
            None => {},
            Some(action) => {
                let merged = squash::combined_as(seq![files.last(), current], action)->0;
                let rest = files.drop_last();
                lemma_combined(seq![files.last(), current], action);
                assert forall|i: int, j: int|
                    0 <= i && j == i + 1 && j < rest.len() implies squash::pair_as(
                    (#[trigger] rest[i]).known()->0,
                    (#[trigger] rest[j]).known()->0,
                ) is None by {
                    assert(rest[i] == files[i] && rest[j] == files[j]);
                }
                assert forall|i: int| 0 <= i < rest.len() implies (
                #[trigger] rest[i]).known() is Some by {
                    assert(rest[i] == files[i]);
                }
                lemma_pushed_settled(rest, merged);
            },
        }
    }
}

/// Merged file edits have no neighbours left that merge.
pub proof fn lemma_merged_files_settled(s: Seq<MutationView>)
    requires
        squash::merged_files(s) is Some,
        forall|i: int| 0 <= i < s.len() ==> (#[trigger] s[i]).known() is Some,
    ensures
        settled(squash::merged_files(s)->0),
        forall|i: int|
            0 <= i < squash::merged_files(s)->0.len() ==> (#[trigger] squash::merged_files(
                s,
            )->0[i]).known() is Some,
    decreases s.len(),
{
    if s.len() > 0 {
        let rest = s.drop_last();
        assert forall|i: int| 0 <= i < rest.len() implies (#[trigger] rest[i]).known() is Some by {
            assert(rest[i] == s[i]);
        }
        assert(s[s.len() - 1].known() is Some);
        lemma_merged_files_settled(rest);
        if !s.last().is_deletion() {
            lemma_pushed_settled(squash::merged_files(rest)->0, s.last());
        }
    }
}

/// File edits whose neighbours do not merge stay as they are.
proof fn lemma_settled_files(s: Seq<MutationView>)
    requires
        forall|i: int| 0 <= i < s.len() ==> (#[trigger] s[i]).known() is Some,
        settled(file_edits(s)),
    ensures
        squash::merged_files(s) == Some(file_edits(s)),
    decreases s.len(),
{
    let is_file = |m: MutationView| !m.is_deletion();
    if s.len() == 0 {
        assert(file_edits(s) =~= Seq::empty());
    } else {
        let rest = s.drop_last();
        let last = s.last();
        let files = file_edits(rest);
        assert(s =~= rest.push(last));
        rest.lemma_filter_push(last, is_file);
        assert forall|i: int| 0 <= i < rest.len() implies (#[trigger] rest[i]).known() is Some by {
            assert(rest[i] == s[i]);
        }
        assert(s[s.len() - 1].known() is Some);
        let all = file_edits(s);
        assert(last.is_deletion() ==> all == files);
        assert(!last.is_deletion() ==> all == files.push(last));
        assert forall|i: int, j: int|
            0 <= i && j == i + 1 && j < files.len() implies squash::pair_as(
            (#[trigger] files[i]).known()->0,
            (#[trigger] files[j]).known()->0,
        ) is None by {
            assert(all[i] == files[i] && all[j] == files[j]);
        }
        lemma_settled_files(rest);
        if !last.is_deletion() && files.len() > 0 {
            let n = files.len() as int;
            assert(all[n - 1] == files[n - 1] && all[n] == last);
        }
    }
}

/// A reduced run is reduced: reducing it again changes nothing.
pub proof fn law_reduction_is_final(key: u64, s: Seq<MutationView>)
    requires
        order::is_sorted(s, false),
        forall|i: int| 0 <= i < s.len() ==> (#[trigger] s[i]).key() == key,
    ensures
        squash::reduced(key, squash::reduced(key, s)) == squash::reduced(key, s),
{
    let r = squash::reduced(key, s);
    lemma_last_reset_bounds(s);
    if r != s && squash::last_reset(s) < 0 {
        let files = squash::merged_files(s)->0;
        let register = squash::deletions(s);
        assert forall|i: int| 0 <= i < s.len() implies is_edit(#[trigger] s[i]) by {
            assert(s[i].known() is Some);
        }
        lemma_merged_files(s, key, None, false);
        lemma_merged_files_settled(s);
        order::lemma_sorted_fixed(files, false);
        if register.len() == 0 {
            assert(r == files);
            assert forall|i: int| 0 <= i < r.len() implies !(#[trigger] r[i]).is_deletion()
                && r[i].known() is Some && !r[i].is_reset() by {
                assert(is_file_edit(files[i]));
            }
            lemma_filter_all(r, |m: MutationView| !m.is_deletion());
            lemma_filter_none(r, |m: MutationView| m.is_deletion());
            lemma_settled_files(r);
            lemma_last_reset_bounds(r);
        } else {
            let k = lemma_register_member(s);
            let action = register.last().known()->0;
            let merged = squash::combined_as(register, action)->0;
            lemma_combined(register, action);
            assert(register.last() == s[k]);
            assert(merged.is_deletion());
            lemma_register_among_files(files, merged);
            assert(r == order::sorted(files.push(merged), false));
            assert forall|i: int| 0 <= i < r.len() implies (#[trigger] r[i]).known() is Some
                && !r[i].is_reset() by {
                assert(r.contains(r[i]));
                order::lemma_sorted_contains(files.push(merged), false, r[i]);
                let at = choose|at: int|
                    0 <= at < files.push(merged).len() && files.push(merged)[at] == r[i];
                if at < files.len() {
                    assert(is_file_edit(files[at]));
                }
            }
            lemma_settled_files(r);
            lemma_last_reset_bounds(r);
            let one = seq![merged];
            lemma_one(merged, action);
            assert(squash::deletions(r) == one);
            assert(one.last() == merged);
        }
    }
}

/// One mutation combines to itself.
proof fn lemma_one(m: MutationView, action: ActionView)
    requires
        m.action == Some(Some(action)),
    ensures
        squash::combined_as(seq![m], action) == Some(m),
{
    let one = seq![m];
    reveal_with_fuel(squash::checked_sum, 2);
    assert(squash::fragment_deltas(one) =~= seq![m.fragment_count_delta]);
    assert(squash::row_deltas(one) =~= seq![m.total_rows_delta]);
    assert(squash::visible_deltas(one) =~= seq![m.visible_rows_delta]);
}

/// Lists in commit order that hold the same of every fragment are the same.
proof fn lemma_runs_decide(a: Seq<MutationView>, b: Seq<MutationView>)
    requires
        order::is_sorted(a, false),
        order::is_sorted(b, false),
        order::ties_by_key(a),
        order::ties_by_key(b),
        forall|key: u64| #[trigger] order::of_key(a, key) == order::of_key(b, key),
    ensures
        a == b,
    decreases a.len(),
{
    if a.len() == 0 {
        if b.len() > 0 {
            let m = b[0];
            order::lemma_of_key_contains(b, m.key(), m);
            order::lemma_of_key_contains(a, m.key(), m);
            assert(b.contains(m));
            assert(order::of_key(a, m.key()) == order::of_key(b, m.key()));
        }
        assert(a =~= b);
    } else {
        let x = a.last();
        assert(a.contains(x));
        order::lemma_of_key_contains(a, x.key(), x);
        order::lemma_of_key_contains(b, x.key(), x);
        assert(order::of_key(a, x.key()) == order::of_key(b, x.key()));
        assert(b.contains(x));
        let y = b.last();
        assert(b.contains(y));
        order::lemma_of_key_contains(a, y.key(), y);
        order::lemma_of_key_contains(b, y.key(), y);
        assert(order::of_key(a, y.key()) == order::of_key(b, y.key()));
        assert(a.contains(y));
        let i = choose|i: int| 0 <= i < b.len() && b[i] == x;
        let j = choose|j: int| 0 <= j < a.len() && a[j] == y;
        if i < b.len() - 1 {
            assert(!order::after(b[i], b[b.len() - 1], false));
        }
        if j < a.len() - 1 {
            assert(!order::after(a[j], a[a.len() - 1], false));
        }
        assert(x.key() == y.key());
        a.drop_last().lemma_filter_push(x, |m: MutationView| m.key() == x.key());
        b.drop_last().lemma_filter_push(y, |m: MutationView| m.key() == x.key());
        assert(a =~= a.drop_last().push(x));
        assert(b =~= b.drop_last().push(y));
        assert(order::of_key(a, x.key()).last() == x);
        assert(order::of_key(b, x.key()).last() == y);
        assert(x == y);
        let c = a.drop_last();
        let d = b.drop_last();
        assert(a =~= c.push(x));
        assert(b =~= d.push(x));
        assert forall|key: u64| #[trigger] order::of_key(c, key) == order::of_key(d, key) by {
            c.lemma_filter_push(x, |m: MutationView| m.key() == key);
            d.lemma_filter_push(x, |m: MutationView| m.key() == key);
            assert(order::of_key(a, key) == order::of_key(b, key));
            if x.key() == key {
                let left = order::of_key(c, key);
                let right = order::of_key(d, key);
                assert(left.push(x) == right.push(x));
                assert(left =~= left.push(x).drop_last());
                assert(right =~= right.push(x).drop_last());
            }
        }
        lemma_sorted_prefix(a);
        lemma_sorted_prefix(b);
        assert forall|p: int, q: int|
            0 <= p < q < c.len() && (#[trigger] c[p]).action_sequence == (
            #[trigger] c[q]).action_sequence implies c[p].key() <= c[q].key() by {
            assert(c[p] == a[p] && c[q] == a[q]);
        }
        assert forall|p: int, q: int|
            0 <= p < q < d.len() && (#[trigger] d[p]).action_sequence == (
            #[trigger] d[q]).action_sequence implies d[p].key() <= d[q].key() by {
            assert(d[p] == b[p] && d[q] == b[q]);
        }
        lemma_runs_decide(c, d);
    }
}

/// A fragment's mutations in a list in commit order are its run.
proof fn lemma_run_held(s: Seq<MutationView>, key: u64)
    requires
        order::is_sorted(s, false),
    ensures
        order::of_key(s, key) == order::run(s, key),
{
    order::lemma_of_key_sorted(s, false, key);
    order::lemma_sorted_fixed(s, false);
}

/// There is one list a buffer is normalized to.
pub proof fn law_normal_form_is_unique(
    s: Seq<MutationView>,
    a: Seq<MutationView>,
    b: Seq<MutationView>,
)
    requires
        squash::normalized(s, a),
        squash::normalized(s, b),
    ensures
        a == b,
{
    assert forall|key: u64| #[trigger] order::of_key(a, key) == order::of_key(b, key) by {
        lemma_run_held(a, key);
        lemma_run_held(b, key);
        assert(order::run(a, key) == squash::reduced(key, order::run(s, key)));
        assert(order::run(b, key) == squash::reduced(key, order::run(s, key)));
    }
    lemma_runs_decide(a, b);
}

pub proof fn lemma_normal(s: Seq<MutationView>, r: Seq<MutationView>)
    requires
        squash::normalized(s, r),
    ensures
        r == squash::normal(s),
{
    law_normal_form_is_unique(s, r, squash::normal(s));
}

/// Squashing reaches a normal form: a squashed buffer is squashed to itself.
pub proof fn law_squash_is_idempotent(
    s: Seq<MutationView>,
    r: Seq<MutationView>,
    again: Seq<MutationView>,
)
    requires
        squash::normalized(s, r),
        squash::normalized(r, again),
    ensures
        again == r,
{
    assert forall|key: u64| #[trigger] order::of_key(again, key) == order::of_key(r, key) by {
        lemma_run(s, key);
        law_reduction_is_final(key, order::run(s, key));
        assert(order::run(r, key) == squash::reduced(key, order::run(s, key)));
        assert(order::run(again, key) == squash::reduced(key, order::run(r, key)));
        lemma_run_held(r, key);
        lemma_run_held(again, key);
    }
    lemma_runs_decide(again, r);
}

} // verus!
