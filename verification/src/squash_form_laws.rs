//! How short a normalized buffer is: what is left of the mutations of one
//! fragment.

use vstd::prelude::*;

use crate::order;
use crate::pb::{ActionView, MutationView};
use crate::replay;
use crate::squash;
use crate::squash_laws;

verus! {

pub open spec fn magnitude(value: i64) -> int {
    if value < 0 {
        -value
    } else {
        value as int
    }
}

/// The magnitudes of a mutation's deltas.
pub open spec fn mass(m: MutationView) -> int {
    magnitude(m.fragment_count_delta) + magnitude(m.total_rows_delta) + magnitude(
        m.visible_rows_delta,
    )
}

/// The magnitudes of all deltas of some mutations. Where they fit 64 bits, so
/// does the sum of any of the deltas.
pub open spec fn weight(s: Seq<MutationView>) -> int
    decreases s.len(),
{
    if s.len() == 0 {
        0
    } else {
        weight(s.drop_last()) + mass(s.last())
    }
}

proof fn lemma_sums_fit(s: Seq<MutationView>)
    requires
        weight(s) <= i64::MAX,
    ensures
        ({
            let a = squash::checked_sum(squash::fragment_deltas(s));
            let b = squash::checked_sum(squash::row_deltas(s));
            let c = squash::checked_sum(squash::visible_deltas(s));
            &&& a is Some && b is Some && c is Some
            &&& magnitude(a->0) + magnitude(b->0) + magnitude(c->0) <= weight(s)
        }),
        weight(s) >= 0,
    decreases s.len(),
{
    if s.len() > 0 {
        let rest = s.drop_last();
        lemma_weight(rest);
        lemma_sums_fit(rest);
        assert(squash::fragment_deltas(s).drop_last() =~= squash::fragment_deltas(rest));
        assert(squash::row_deltas(s).drop_last() =~= squash::row_deltas(rest));
        assert(squash::visible_deltas(s).drop_last() =~= squash::visible_deltas(rest));
    }
}

proof fn lemma_weight(s: Seq<MutationView>)
    ensures
        weight(s) >= 0,
    decreases s.len(),
{
    if s.len() > 0 {
        lemma_weight(s.drop_last());
    }
}

proof fn lemma_weight_push(s: Seq<MutationView>, m: MutationView)
    ensures
        weight(s.push(m)) == weight(s) + mass(m),
{
    assert(s.push(m).drop_last() =~= s);
}

proof fn lemma_combined_fits(s: Seq<MutationView>, action: ActionView)
    requires
        s.len() > 0,
        weight(s) <= i64::MAX,
    ensures
        squash::combined_as(s, action) matches Some(one) && mass(one) <= weight(s),
{
    lemma_sums_fit(s);
}

proof fn lemma_pushed_fits(files: Seq<MutationView>, current: MutationView)
    requires
        weight(files) + mass(current) <= i64::MAX,
    ensures
        squash::pushed(files, current) matches Some(out) && weight(out) <= weight(files) + mass(
            current,
        ),
    decreases files.len(),
{
    lemma_weight_push(files, current);
    if files.len() > 0 && files.last().known() is Some && current.known() is Some {
        if let Some(action) = squash::pair_as(files.last().known()->0, current.known()->0) {
            let pair = seq![files.last(), current];
            let none = Seq::<MutationView>::empty();
            assert(pair =~= none.push(files.last()).push(current));
            lemma_weight_push(none, files.last());
            lemma_weight_push(none.push(files.last()), current);
            lemma_weight(files.drop_last());
            lemma_combined_fits(pair, action);
            lemma_pushed_fits(files.drop_last(), squash::combined_as(pair, action)->0);
        }
    }
}

proof fn lemma_merged_fits(s: Seq<MutationView>)
    requires
        weight(s) <= i64::MAX,
    ensures
        squash::merged_files(s) matches Some(files) && weight(files) <= weight(s),
    decreases s.len(),
{
    if s.len() > 0 {
        lemma_merged_fits(s.drop_last());
        if !s.last().is_deletion() {
            lemma_pushed_fits(squash::merged_files(s.drop_last())->0, s.last());
        }
    }
}

proof fn lemma_register_fits(s: Seq<MutationView>)
    ensures
        weight(squash::deletions(s)) <= weight(s),
    decreases s.len(),
{
    let pred = |m: MutationView| m.is_deletion();
    if s.len() > 0 {
        let rest = s.drop_last();
        lemma_register_fits(rest);
        assert(s =~= rest.push(s.last()));
        rest.lemma_filter_push(s.last(), pred);
        lemma_weight_push(squash::deletions(rest), s.last());
    } else {
        assert(squash::deletions(s) =~= s);
    }
}

/// Whether a mutation sets or removes a whole record.
pub open spec fn sets_record(m: MutationView) -> bool {
    m.action matches Some(Some(action)) && (action is AddFragment || action is RemoveFragment)
}

/// Whether a mutation attaches or clears a deletion file.
pub open spec fn sets_deletion(m: MutationView) -> bool {
    m.action matches Some(Some(action)) && (action is AddDeletionFile
        || action is ClearDeletionFile)
}

/// Whether two file edits next to each other can be told as one: removing one
/// path twice, removing what was just added, or replacing twice in one place.
pub open spec fn told_as_one(a: MutationView, b: MutationView) -> bool {
    match (a.action, b.action) {
        (
            Some(Some(ActionView::RemoveDataFile { path: x, .. })),
            Some(Some(ActionView::RemoveDataFile { path: y, .. })),
        ) => x == y,
        (
            Some(Some(ActionView::AddDataFile { file, .. })),
            Some(Some(ActionView::RemoveDataFile { path, .. })),
        ) => file matches Some(file) && file.path == path,
        (
            Some(Some(ActionView::ReplaceDataFile { expected_path: x, path, .. })),
            Some(Some(ActionView::ReplaceDataFile { expected_path: y, .. })),
        ) => x == path && x == y,
        _ => false,
    }
}

proof fn lemma_last_reset_is(s: Seq<MutationView>, at: int)
    requires
        0 <= at < s.len(),
        sets_record(s[at]),
        forall|i: int| at < i < s.len() ==> !sets_record(#[trigger] s[i]),
    ensures
        squash::last_reset(s) == at,
    decreases s.len(),
{
    if at < s.len() - 1 {
        assert(!sets_record(s[s.len() - 1]));
        let rest = s.drop_last();
        assert forall|i: int| at < i < rest.len() implies !sets_record(#[trigger] rest[i]) by {
            assert(rest[i] == s[i]);
        }
        lemma_last_reset_is(rest, at);
    }
}

/// Of a fragment whose record is set or removed within a buffer, one mutation
/// is left: the record that the last such mutation and the edits behind it come
/// to, or its removal, at the place of the last one.
pub proof fn law_reset_run_becomes_one(
    s: Seq<MutationView>,
    r: Seq<MutationView>,
    key: u64,
    at: int,
)
    requires
        squash::normalized(s, r),
        ({
            let run = order::run(s, key);
            &&& run.len() > 1
            &&& weight(run) <= i64::MAX
            &&& 0 <= at < run.len()
            &&& sets_record(run[at])
            &&& forall|i: int| at < i < run.len() ==> !sets_record(#[trigger] run[i])
            &&& forall|i: int|
                0 <= i < run.len() ==> ((#[trigger] run[i]).action matches Some(Some(_)))
            &&& replay::replayed(Map::empty(), run.skip(at), false).1 is None
        }),
    ensures
        ({
            let run = order::run(s, key);
            let left = order::run(r, key);
            let state = replay::replayed(Map::empty(), run.skip(at), false).0;
            &&& left.len() == 1
            &&& left[0].action_sequence == run.last().action_sequence
            &&& left[0].action == Some(
                Some(
                    if state.contains_key(key) {
                        ActionView::AddFragment(state[key].encoded())
                    } else {
                        ActionView::RemoveFragment(key)
                    },
                ),
            )
        }),
{
    let run = order::run(s, key);
    lemma_last_reset_is(run, at);
    let state = replay::replayed(Map::empty(), run.skip(at), false).0;
    lemma_combined_fits(run, squash::setting(key, replay::lookup(state, key)));
    assert forall|i: int| 0 <= i < run.len() implies (#[trigger] run[i]).known() is Some by {
        assert(run[i].action matches Some(Some(_)));
    }
}

/// Of a fragment that a buffer only edits, at most one edit of its deletion
/// file is left, and no two file edits next to each other could be told as one.
/// Where there was an edit of the deletion file, the last one is left, at its
/// place.
pub proof fn law_edit_run_is_short(s: Seq<MutationView>, r: Seq<MutationView>, key: u64)
    requires
        squash::normalized(s, r),
        ({
            let run = order::run(s, key);
            &&& run.len() > 1
            &&& weight(run) <= i64::MAX
            &&& forall|i: int|
                0 <= i < run.len() ==> ((#[trigger] run[i]).action matches Some(Some(_)))
                    && !sets_record(run[i])
        }),
    ensures
        ({
            let run = order::run(s, key);
            let left = order::run(r, key);
            let files = left.filter(|m: MutationView| !m.is_deletion());
            let old = run.filter(|m: MutationView| m.is_deletion());
            let now = left.filter(|m: MutationView| m.is_deletion());
            &&& forall|m: MutationView| #[trigger] m.is_deletion() == sets_deletion(m)
            &&& now.len() == if old.len() == 0 {
                0int
            } else {
                1
            }
            &&& old.len() > 0 ==> now[0].action == old.last().action && now[0].action_sequence
                == old.last().action_sequence
            &&& forall|i: int, j: int|
                0 <= i && j == i + 1 && j < files.len() ==> !told_as_one(
                    #[trigger] files[i],
                    #[trigger] files[j],
                )
        }),
{
    let s0 = order::run(s, key);
    let left = order::run(r, key);
    squash_laws::lemma_run(s, key);
    assert forall|i: int| 0 <= i < s0.len() implies squash_laws::is_edit(#[trigger] s0[i])
        && s0[i].key() == key && s0[i].known() is Some by {
        assert(!sets_record(s0[i]));
        assert(s0[i].action matches Some(Some(_)));
    }
    squash_laws::lemma_last_reset_bounds(s0);
    lemma_merged_fits(s0);
    lemma_register_fits(s0);
    let files = squash::merged_files(s0)->0;
    let register = squash::deletions(s0);
    squash_laws::lemma_merged_files(s0, key, None, false);
    squash_laws::lemma_merged_files_settled(s0);
    order::lemma_sorted_fixed(files, false);
    assert forall|i: int| 0 <= i < files.len() implies !(#[trigger] files[i]).is_deletion() by {
        assert(squash_laws::is_file_edit(files[i]));
    }
    if register.len() == 0 {
        assert(left == files);
        squash_laws::lemma_filter_all(left, |m: MutationView| !m.is_deletion());
        squash_laws::lemma_filter_none(left, |m: MutationView| m.is_deletion());
    } else {
        let k = squash_laws::lemma_register_member(s0);
        let action = register.last().known()->0;
        lemma_combined_fits(register, action);
        squash_laws::lemma_combined(register, action);
        let merged = squash::combined_as(register, action)->0;
        assert(register.last() == s0[k]);
        assert(merged.is_deletion());
        squash_laws::lemma_register_among_files(files, merged);
        assert(left == order::sorted(files.push(merged), false));
        assert(register.last().action matches Some(Some(_)));
    }
    let kept = left.filter(|m: MutationView| !m.is_deletion());
    assert(kept == files);
    assert forall|i: int, j: int| 0 <= i && j == i + 1 && j < kept.len() implies !told_as_one(
        #[trigger] kept[i],
        #[trigger] kept[j],
    ) by {
        assert(squash::pair_as(files[i].known()->0, files[j].known()->0) is None);
    }
}

/// A fragment's mutations in a normalized buffer are in commit order, and no
/// fragment is left that the buffer did not name.
pub proof fn law_normalized_buffer_is_in_commit_order(s: Seq<MutationView>, r: Seq<MutationView>)
    requires
        squash::normalized(s, r),
    ensures
        forall|i: int, j: int|
            0 <= i < j < r.len() ==> (#[trigger] r[i]).action_sequence <= (
            #[trigger] r[j]).action_sequence,
        forall|i: int|
            0 <= i < r.len() ==> exists|j: int|
                0 <= j < s.len() && (#[trigger] s[j]).key() == (#[trigger] r[i]).key(),
{
    assert forall|i: int, j: int| 0 <= i < j < r.len() implies (#[trigger] r[i]).action_sequence
        <= (#[trigger] r[j]).action_sequence by {
        assert(!order::after(r[i], r[j], false));
    }
    assert forall|i: int| 0 <= i < r.len() implies exists|j: int|
        0 <= j < s.len() && (#[trigger] s[j]).key() == (#[trigger] r[i]).key() by {
        let key = r[i].key();
        let own = order::run(s, key);
        assert(r.contains(r[i]));
        order::lemma_of_key_contains(r, key, r[i]);
        order::lemma_sorted_contains(order::of_key(r, key), false, r[i]);
        assert(order::run(r, key).contains(r[i]));
        squash_laws::lemma_run(s, key);
        if own.len() == 0 {
            assert(squash::reduced(key, own) == own);
        }
        assert(s.contains(own[0]));
        let j = choose|j: int| 0 <= j < s.len() && s[j] == own[0];
        assert(s[j].key() == key);
    }
}

/// The mutations of a fragment in commit order are those of the buffer that
/// name it, each as often as it stands there, by their places.
pub proof fn law_run_holds_the_fragments_mutations(s: Seq<MutationView>, key: u64)
    ensures
        ({
            let run = order::run(s, key);
            &&& run.to_multiset() == s.filter(|m: MutationView| m.key() == key).to_multiset()
            &&& forall|i: int, j: int|
                0 <= i < j < run.len() ==> (#[trigger] run[i]).action_sequence <= (
                #[trigger] run[j]).action_sequence
        }),
{
    let own = order::of_key(s, key);
    order::lemma_sorted_multiset(own, false);
    order::lemma_sorted_is_sorted(own, false);
    let run = order::run(s, key);
    assert forall|i: int, j: int| 0 <= i < j < run.len() implies (
    #[trigger] run[i]).action_sequence <= (#[trigger] run[j]).action_sequence by {
        assert(!order::after(run[i], run[j], false));
    }
}

} // verus!
