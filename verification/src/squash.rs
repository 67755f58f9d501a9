//! Normalizing buffered actions without changing what they mean.

use std::collections::BTreeMap;
use vstd::prelude::*;

use crate::order;
use crate::pb::{Action, ActionView, DataFragment, FragmentAction, FragmentMetadataMutation,
    MutationView, ReplaceDataFile};
use crate::record::{Fragment, FragmentView};
use crate::replay;
use crate::squash_laws;
use crate::views;

verus! {

broadcast use {crate::views::group_views, vstd::std_specs::btree::group_btree_axioms};

/// The sum of some deltas, where every partial sum can be represented.
pub open spec fn checked_sum(s: Seq<i64>) -> Option<i64>
    decreases s.len(),
{
    if s.len() == 0 {
        Some(0)
    } else {
        match checked_sum(s.drop_last()) {
            None => None,
            Some(sum) => if i64::MIN <= sum + s.last() <= i64::MAX {
                Some((sum + s.last()) as i64)
            } else {
                None
            },
        }
    }
}

pub open spec fn fragment_deltas(s: Seq<MutationView>) -> Seq<i64> {
    Seq::new(s.len(), |i: int| s[i].fragment_count_delta)
}

pub open spec fn row_deltas(s: Seq<MutationView>) -> Seq<i64> {
    Seq::new(s.len(), |i: int| s[i].total_rows_delta)
}

pub open spec fn visible_deltas(s: Seq<MutationView>) -> Seq<i64> {
    Seq::new(s.len(), |i: int| s[i].visible_rows_delta)
}

/// One mutation in place of several: the last place, the summed deltas and
/// the given action. `None` where a sum cannot be represented.
pub open spec fn combined_as(s: Seq<MutationView>, action: ActionView) -> Option<MutationView> {
    match (
        checked_sum(fragment_deltas(s)),
        checked_sum(row_deltas(s)),
        checked_sum(visible_deltas(s)),
    ) {
        (Some(fragments), Some(rows), Some(visible)) if s.len() > 0 => Some(
            MutationView {
                action_sequence: s.last().action_sequence,
                action: Some(Some(action)),
                fragment_count_delta: fragments,
                total_rows_delta: rows,
                visible_rows_delta: visible,
            },
        ),
        _ => None,
    }
}

/// The one file edit that does what two adjacent ones do, where there is one.
/// Only identities valid for ordered lists with arbitrary path aliases belong
/// here. Path uniqueness is not part of the storage action contract.
pub open spec fn pair_as(first: ActionView, second: ActionView) -> Option<ActionView> {
    match (first, second) {
        (
            ActionView::RemoveDataFile { path: a, .. },
            ActionView::RemoveDataFile { path: b, .. },
        ) => if a == b {
            Some(second)
        } else {
            None
        },
        // The remove still has to delete any same-path files in the base.
        (ActionView::AddDataFile { file, .. }, ActionView::RemoveDataFile { path, .. }) => {
            if file matches Some(file) && file.path == path {
                Some(second)
            } else {
                None
            }
        },
        // The first edit did not rename the slot, so both find the same
        // first matching path, including when the base has duplicate paths.
        (
            ActionView::ReplaceDataFile { frag_id, expected_path: a, path: renamed, .. },
            ActionView::ReplaceDataFile {
                expected_path: b,
                path,
                file_size_bytes,
                base_id,
                ..
            },
        ) => if a == renamed && a == b {
            Some(
                ActionView::ReplaceDataFile {
                    frag_id,
                    expected_path: a,
                    path,
                    file_size_bytes,
                    base_id,
                },
            )
        } else {
            None
        },
        _ => None,
    }
}

impl MutationView {
    pub open spec fn is_reset(self) -> bool {
        self.known() matches Some(action) && action.is_reset()
    }

    pub open spec fn is_deletion(self) -> bool {
        self.known() matches Some(action) && action.is_deletion()
    }
}

/// A file edit put behind others, merged backwards while it merges. `None`
/// where merged deltas cannot be represented.
pub open spec fn pushed(files: Seq<MutationView>, current: MutationView) -> Option<
    Seq<MutationView>,
>
    decreases files.len(),
{
    if files.len() == 0 || files.last().known() is None || current.known() is None {
        Some(files.push(current))
    } else {
        match pair_as(files.last().known()->0, current.known()->0) {
            None => Some(files.push(current)),
            Some(action) => match combined_as(seq![files.last(), current], action) {
                None => None,
                Some(merged) => pushed(files.drop_last(), merged),
            },
        }
    }
}

/// The file edits of a run, merged.
pub open spec fn merged_files(s: Seq<MutationView>) -> Option<Seq<MutationView>>
    decreases s.len(),
{
    if s.len() == 0 {
        Some(Seq::empty())
    } else {
        match merged_files(s.drop_last()) {
            None => None,
            Some(files) => if s.last().is_deletion() {
                Some(files)
            } else {
                pushed(files, s.last())
            },
        }
    }
}

/// The deletion edits of a run.
pub open spec fn deletions(s: Seq<MutationView>) -> Seq<MutationView> {
    s.filter(|m: MutationView| m.is_deletion())
}

/// The position of the last reset of a run, or -1.
pub open spec fn last_reset(s: Seq<MutationView>) -> int
    decreases s.len(),
{
    if s.len() == 0 {
        -1
    } else if s.last().is_reset() {
        s.len() - 1
    } else {
        last_reset(s.drop_last())
    }
}

/// The action that sets a record whatever it was.
pub open spec fn setting(key: u64, record: Option<FragmentView>) -> ActionView {
    match record {
        Some(fragment) => ActionView::AddFragment(fragment.encoded()),
        None => ActionView::RemoveFragment(key),
    }
}

/// The normal form of one fragment's mutations in commit order.
///
/// The last whole-record action establishes a known state, so its suffix is
/// evaluated once. Otherwise deletion edits are a last-writer-wins register,
/// while file edits keep their order and first-path matching.
pub open spec fn reduced(key: u64, s: Seq<MutationView>) -> Seq<MutationView> {
    let at = last_reset(s);
    if s.len() <= 1 || (exists|i: int| 0 <= i < s.len() && (#[trigger] s[i]).known() is None) {
        s
    } else if at >= 0 {
        let (state, error) = replay::replayed(Map::empty(), s.skip(at), false);
        match error {
            Some(_) => s,
            None => match combined_as(s, setting(key, replay::lookup(state, key))) {
                Some(one) => seq![one],
                None => s,
            },
        }
    } else {
        match merged_files(s) {
            None => s,
            Some(files) => {
                let register = deletions(s);
                if register.len() == 0 {
                    order::sorted(files, false)
                } else {
                    match combined_as(register, register.last().known()->0) {
                        None => s,
                        Some(merged) => order::sorted(files.push(merged), false),
                    }
                }
            },
        }
    }
}

/// What a list of mutations adds to the aggregates of its ancestors.
pub open spec fn total(s: Seq<MutationView>) -> (int, int, int)
    decreases s.len(),
{
    if s.len() == 0 {
        (0, 0, 0)
    } else {
        let rest = total(s.drop_last());
        let last = s.last().deltas();
        (rest.0 + last.0, rest.1 + last.1, rest.2 + last.2)
    }
}

fn sum_deltas(run: &Vec<FragmentMetadataMutation>) -> (r: Option<(i64, i64, i64)>)
    ensures
        ({
            let s = views::all(run@);
            r == match (
                checked_sum(fragment_deltas(s)),
                checked_sum(row_deltas(s)),
                checked_sum(visible_deltas(s)),
            ) {
                (Some(fragments), Some(rows), Some(visible)) => Some((fragments, rows, visible)),
                _ => None,
            }
        }),
{
    let ghost s = views::all(run@);
    let mut fragments: Option<i64> = Some(0);
    let mut rows: Option<i64> = Some(0);
    let mut visible: Option<i64> = Some(0);
    let mut i: usize = 0;
    while i < run.len()
        invariant
            i <= run@.len(),
            s == views::all(run@),
            fragments == checked_sum(fragment_deltas(s).take(i as int)),
            rows == checked_sum(row_deltas(s).take(i as int)),
            visible == checked_sum(visible_deltas(s).take(i as int)),
        decreases run@.len() - i,
    {
        proof {
            let n = i + 1;
            assert(fragment_deltas(s).take(n).drop_last() =~= fragment_deltas(s).take(i as int));
            assert(row_deltas(s).take(n).drop_last() =~= row_deltas(s).take(i as int));
            assert(visible_deltas(s).take(n).drop_last() =~= visible_deltas(s).take(i as int));
        }
        fragments = match fragments {
            Some(sum) => sum.checked_add(run[i].fragment_count_delta),
            None => None,
        };
        rows = match rows {
            Some(sum) => sum.checked_add(run[i].total_rows_delta),
            None => None,
        };
        visible = match visible {
            Some(sum) => sum.checked_add(run[i].visible_rows_delta),
            None => None,
        };
        i = i + 1;
    }
    proof {
        assert(fragment_deltas(s).take(s.len() as int) =~= fragment_deltas(s));
        assert(row_deltas(s).take(s.len() as int) =~= row_deltas(s));
        assert(visible_deltas(s).take(s.len() as int) =~= visible_deltas(s));
    }
    match (fragments, rows, visible) {
        (Some(fragments), Some(rows), Some(visible)) => Some((fragments, rows, visible)),
        _ => None,
    }
}

fn combined(run: &Vec<FragmentMetadataMutation>, action: Action) -> (r: Option<
    FragmentMetadataMutation,
>)
    ensures
        views::opt(r) == combined_as(views::all(run@), action@),
{
    let Some((fragments, rows, visible)) = sum_deltas(run) else {
        return None;
    };
    if run.len() == 0 {
        return None;
    }
    Some(
        FragmentMetadataMutation {
            action_sequence: run[run.len() - 1].action_sequence,
            action: Some(FragmentAction { action: Some(action) }),
            fragment_count_delta: fragments,
            total_rows_delta: rows,
            visible_rows_delta: visible,
        },
    )
}

fn combine_file_pair(first: &Action, second: &Action) -> (r: Option<Action>)
    ensures
        views::opt(r) == pair_as(first@, second@),
{
    match (first, second) {
        (Action::RemoveDataFile(a), Action::RemoveDataFile(b)) => if a.path == b.path {
            Some(second.clone())
        } else {
            None
        },
        (Action::AddDataFile(a), Action::RemoveDataFile(b)) => match &a.file {
            Some(file) => if file.path == b.path {
                Some(second.clone())
            } else {
                None
            },
            None => None,
        },
        (Action::ReplaceDataFile(a), Action::ReplaceDataFile(b)) => if a.expected_path == a.path
            && a.expected_path == b.expected_path {
            Some(
                Action::ReplaceDataFile(
                    ReplaceDataFile {
                        frag_id: a.frag_id,
                        expected_path: a.expected_path.clone(),
                        path: b.path.clone(),
                        file_size_bytes: b.file_size_bytes,
                        base_id: b.base_id,
                    },
                ),
            )
        } else {
            None
        },
        _ => None,
    }
}

/// The action of a mutation, where there is one that this version knows.
pub fn known_action(tagged: &FragmentMetadataMutation) -> (r: Option<&Action>)
    ensures
        match r {
            Some(action) => tagged@.known() == Some(action@),
            None => tagged@.known() is None,
        },
{
    match &tagged.action {
        Some(action) => match &action.action {
            Some(action) => Some(action),
            None => None,
        },
        None => None,
    }
}

/// Put a file edit behind others, merging backwards while it merges.
fn push_file_edit(
    files: Vec<FragmentMetadataMutation>,
    current: FragmentMetadataMutation,
) -> (r: Option<Vec<FragmentMetadataMutation>>)
    ensures
        match r {
            Some(list) => pushed(views::all(files@), current@) == Some(views::all(list@)),
            None => pushed(views::all(files@), current@) is None,
        },
{
    let mut stack = files;
    let mut edit = current;
    let ghost goal = pushed(views::all(files@), current@);
    loop
        invariant
            goal == pushed(views::all(files@), current@),
            pushed(views::all(stack@), edit@) == goal,
        ensures
            goal == Some(views::all(stack@).push(edit@)),
        decreases stack@.len(),
    {
        let ghost before = views::all(stack@);
        let merged_action: Option<Action> = if stack.len() == 0 {
            None
        } else {
            match (known_action(&stack[stack.len() - 1]), known_action(&edit)) {
                (Some(first), Some(second)) => combine_file_pair(first, second),
                _ => None,
            }
        };
        let Some(action) = merged_action else {
            break ;
        };
        let Some(last) = stack.pop() else {
            break ;
        };
        let ghost pair_view = seq![last@, edit@];
        let mut pair: Vec<FragmentMetadataMutation> = Vec::new();
        pair.push(last);
        pair.push(edit);
        assert(views::all(pair@) =~= pair_view);
        assert(views::all(stack@) =~= before.drop_last());
        match combined(&pair, action) {
            None => {
                return None;
            },
            Some(merged) => {
                edit = merged;
            },
        }
    }
    stack.push(edit);
    Some(stack)
}

/// Whether a mutation sets the whole record.
fn is_reset(tagged: &FragmentMetadataMutation) -> (r: bool)
    ensures
        r == tagged@.is_reset(),
{
    match known_action(tagged) {
        Some(Action::AddFragment(_)) => true,
        Some(Action::RemoveFragment(_)) => true,
        _ => false,
    }
}

fn is_deletion(tagged: &FragmentMetadataMutation) -> (r: bool)
    ensures
        r == tagged@.is_deletion(),
{
    match known_action(tagged) {
        Some(Action::AddDeletionFile(_)) => true,
        Some(Action::ClearDeletionFile(_)) => true,
        _ => false,
    }
}

proof fn lemma_last_reset(s: Seq<MutationView>, n: int)
    requires
        0 <= n <= s.len(),
        forall|i: int| n <= i < s.len() ==> !(#[trigger] s[i]).is_reset(),
    ensures
        last_reset(s) == last_reset(s.take(n)),
    decreases s.len(),
{
    if n < s.len() {
        assert(!s[s.len() - 1].is_reset());
        let rest = s.drop_last();
        assert(rest.take(n) =~= s.take(n));
        assert forall|i: int| n <= i < rest.len() implies !(#[trigger] rest[i]).is_reset() by {
            assert(rest[i] == s[i]);
        }
        lemma_last_reset(rest, n);
    } else {
        assert(s.take(n) =~= s);
    }
}

/// How much of a run lies before its last reset, where it has one.
fn reset_position(run: &Vec<FragmentMetadataMutation>) -> (r: Option<usize>)
    ensures
        match r {
            Some(at) => at == last_reset(views::all(run@)) && at < run@.len(),
            None => last_reset(views::all(run@)) == -1,
        },
{
    let ghost s = views::all(run@);
    let mut n: usize = run.len();
    while n > 0
        invariant
            n <= run@.len(),
            s == views::all(run@),
            forall|i: int| n <= i < s.len() ==> !(#[trigger] s[i]).is_reset(),
        decreases n,
    {
        if is_reset(&run[n - 1]) {
            proof {
                lemma_last_reset(s, n as int);
                assert(s.take(n as int).last() == s[n - 1]);
            }
            return Some(n - 1);
        }
        assert(s[n - 1] == run@[n - 1]@);
        n = n - 1;
    }
    proof {
        lemma_last_reset(s, 0);
    }
    None
}

/// The part of a run from a position on.
fn suffix(run: &Vec<FragmentMetadataMutation>, from: usize) -> (r: Vec<FragmentMetadataMutation>)
    requires
        from <= run@.len(),
    ensures
        views::all(r@) == views::all(run@).skip(from as int),
{
    let mut list: Vec<FragmentMetadataMutation> = Vec::new();
    let mut i: usize = from;
    while i < run.len()
        invariant
            from <= i <= run@.len(),
            views::all(list@) == views::all(run@).subrange(from as int, i as int),
        decreases run@.len() - i,
    {
        list.push(run[i].clone());
        assert(views::all(run@).subrange(from as int, i + 1) =~= views::all(run@).subrange(
            from as int,
            i as int,
        ).push(run@[i as int]@));
        i = i + 1;
    }
    assert(views::all(run@).subrange(from as int, run@.len() as int) =~= views::all(run@).skip(
        from as int,
    ));
    list
}

fn squash_run(key: u64, run: Vec<FragmentMetadataMutation>) -> (r: Vec<FragmentMetadataMutation>)
    requires
        run@.len() > 1,
    ensures
        views::all(r@) == reduced(key, views::all(run@)),
{
    let ghost s = views::all(run@);
    let mut i: usize = 0;
    while i < run.len()
        invariant
            i <= run@.len(),
            s == views::all(run@),
            run@.len() > 1,
            forall|j: int| 0 <= j < i ==> (#[trigger] s[j]).known() is Some,
        decreases run@.len() - i,
    {
        if known_action(&run[i]).is_none() {
            assert(s[i as int].known() is None);
            return run;
        }
        assert(s[i as int] == run@[i as int]@);
        i = i + 1;
    }
    if let Some(reset) = reset_position(&run) {
        let mut state: BTreeMap<u64, Fragment> = BTreeMap::new();
        assert(replay::records(state@) =~= Map::<u64, FragmentView>::empty());
        if replay::apply_actions(&mut state, suffix(&run, reset)).is_err() {
            return run;
        }
        let action = match state.get(&key) {
            Some(fragment) => Action::AddFragment(DataFragment::encode(fragment)),
            None => Action::RemoveFragment(key),
        };
        return match combined(&run, action) {
            Some(one) => {
                let mut list: Vec<FragmentMetadataMutation> = Vec::new();
                list.push(one);
                assert(views::all(list@) =~= seq![one@]);
                list
            },
            None => run,
        };
    }
    // File edits leave the deletion register and fragment existence unchanged.
    // Its assignments therefore commute across those edits on validated input.
    let ghost pred = |m: MutationView| m.is_deletion();
    let mut register: Vec<FragmentMetadataMutation> = Vec::new();
    let mut files: Vec<FragmentMetadataMutation> = Vec::new();
    let mut n: usize = 0;
    assert(s.take(0).filter(pred) =~= Seq::<MutationView>::empty());
    while n < run.len()
        invariant
            n <= run@.len(),
            s == views::all(run@),
            run@.len() > 1,
            pred == (|m: MutationView| m.is_deletion()),
            last_reset(s) == -1,
            forall|j: int| 0 <= j < s.len() ==> (#[trigger] s[j]).known() is Some,
            views::all(register@) == s.take(n as int).filter(pred),
            merged_files(s.take(n as int)) == Some(views::all(files@)),
        decreases run@.len() - n,
    {
        let ghost taken = s.take(n + 1);
        proof {
            assert(taken.drop_last() =~= s.take(n as int));
            assert(taken.last() == run@[n as int]@);
            assert(taken =~= s.take(n as int).push(run@[n as int]@));
            s.take(n as int).lemma_filter_push(run@[n as int]@, pred);
        }
        if is_deletion(&run[n]) {
            register.push(run[n].clone());
        } else {
            match push_file_edit(files, run[n].clone()) {
                Some(list) => {
                    files = list;
                },
                None => {
                    proof {
                        lemma_merged_files_prefix(s, n + 1);
                    }
                    return run;
                },
            }
        }
        n = n + 1;
    }
    assert(s.take(s.len() as int) =~= s);
    if register.len() > 0 {
        proof {
            let last = register@.len() - 1;
            assert(views::all(register@)[last] == register@[last]@);
            assert(s.filter(pred).contains(s.filter(pred)[last]));
            s.lemma_filter_contains_rev(pred, s.filter(pred)[last]);
            let k = choose|k: int| 0 <= k < s.len() && s[k] == s.filter(pred)[last];
            assert(s[k].known() is Some);
        }
        let Some(action) = known_action(&register[register.len() - 1]) else {
            return run;
        };
        match combined(&register, action.clone()) {
            Some(merged) => {
                files.push(merged);
            },
            None => {
                return run;
            },
        }
    }
    order::sort_mutations(files, false)
}

/// What a buffer is normalized to: in commit order, and in the order of the
/// fragments where a place is shared, each fragment's mutations reduced on
/// their own, and the aggregates it adds unchanged.
pub open spec fn normalized(s: Seq<MutationView>, r: Seq<MutationView>) -> bool {
    &&& order::is_sorted(r, false)
    &&& order::ties_by_key(r)
    &&& forall|key: u64| #[trigger] order::run(r, key) == reduced(key, order::run(s, key))
    &&& total(r) == total(s)
}

/// The one list a buffer is normalized to.
pub open spec fn normal(s: Seq<MutationView>) -> Seq<MutationView> {
    choose|r: Seq<MutationView>| normalized(s, r)
}

/// Normalize validated current-state actions, preserving each fragment's effect.
///
/// This is not a transaction validator: superseding a prefix is legal only
/// after that prefix has been validated. Committed transaction history must
/// retain the original actions. A run must also be a contiguous per-fragment
/// segment of the action sequence number history; never normalize across an
/// unapplied message held by another node.
///
/// The last whole-fragment reset establishes a known state, so its suffix can
/// be evaluated once. Otherwise, deletion-file assignments form an independent
/// last-writer-wins register, while file edits retain their order and
/// first-path matching semantics. In particular, a path-changing replacement
/// chain cannot be combined blindly: the second edit might match a different
/// file slot.
///
/// Combined actions retain the last contributing action sequence number and
/// the sum of aggregate deltas. If a sum cannot be represented, that run is
/// left unchanged.
pub fn squash_buffer(buffer: Vec<FragmentMetadataMutation>) -> (r: Vec<FragmentMetadataMutation>)
    ensures
        normalized(views::all(buffer@), views::all(r@)),
        views::all(r@) == normal(views::all(buffer@)),
{
    let ghost given = views::all(buffer@);
    let keyed = order::sort_mutations(buffer, true);
    let ghost t = views::all(keyed@);
    let mut squashed: Vec<FragmentMetadataMutation> = Vec::new();
    let mut run: Vec<FragmentMetadataMutation> = Vec::new();
    let mut key: u64 = 0;
    let ghost mut head: Seq<MutationView> = Seq::empty();
    proof {
        order::lemma_sorted_is_sorted(given, true);
        assert(t.take(0) =~= head + views::all(run@));
        squash_laws::lemma_grouped_empty();
    }
    for tagged in iter: keyed
        invariant
            iter.seq() == keyed@,
            t == views::all(keyed@),
            order::is_sorted(t, true),
            t.take(iter.index() as int) == head + views::all(run@),
            squash_laws::grouped(head, views::all(squashed@)),
            forall|i: int| 0 <= i < run@.len() ==> (#[trigger] run@[i])@.key() == key,
            forall|i: int| 0 <= i < head.len() ==> (#[trigger] head[i]).key() < key,
            run@.len() == 0 ==> head.len() == 0,
            squash_laws::keys_ascend(views::all(squashed@)),
            forall|i: int|
                0 <= i < squashed@.len() ==> (#[trigger] views::all(squashed@)[i]).key() < key,
            run@.len() == 0 ==> squashed@.len() == 0,
    {
        let next_key: u64 = crate::node::action_key(&tagged);
        let ghost n = iter.index() as int;
        assert(t[n] == tagged@);
        assert(t.take(n + 1) =~= t.take(n).push(tagged@));
        if run.len() > 0 && next_key != key {
            proof {
                let last = run@.len() - 1;
                assert(t.take(n)[n - 1] == views::all(run@)[last]);
                assert(t[n - 1] == run@[last]@);
                assert(!order::after(t[n - 1], t[n], true));
                assert forall|i: int| 0 <= i < n implies (#[trigger] t.take(n)[i]).key()
                    < next_key by {
                    if i < head.len() {
                        assert(t.take(n)[i] == head[i]);
                    } else {
                        assert(t.take(n)[i] == run@[i - head.len()]@);
                    }
                }
                squash_laws::lemma_grouped_flush(head, views::all(run@), views::all(squashed@), key);
                squash_laws::lemma_keys_ascend(head, views::all(run@), views::all(squashed@), key);
            }
            let mut full: Vec<FragmentMetadataMutation> = Vec::new();
            core::mem::swap(&mut full, &mut run);
            let mut group = reduce_run(key, full);
            squashed.append(&mut group);
            proof {
                head = t.take(n);
            }
        }
        proof {
            if run@.len() == 0 {
                assert(head =~= t.take(n));
            } else {
                assert(key == next_key);
            }
            assert(t.take(n + 1) =~= head + views::all(run@).push(tagged@));
        }
        key = next_key;
        run.push(tagged);
    }
    proof {
        assert(t.take(t.len() as int) =~= t);
        squash_laws::lemma_grouped_flush(head, views::all(run@), views::all(squashed@), key);
        squash_laws::lemma_keys_ascend(head, views::all(run@), views::all(squashed@), key);
    }
    let mut group = reduce_run(key, run);
    squashed.append(&mut group);
    proof {
        let out = views::all(squashed@);
        squash_laws::lemma_grouped_sorted(given, out);
        squash_laws::lemma_normal(given, order::sorted(out, false));
    }
    order::sort_mutations(squashed, false)
}

fn reduce_run(key: u64, run: Vec<FragmentMetadataMutation>) -> (r: Vec<FragmentMetadataMutation>)
    ensures
        views::all(r@) == reduced(key, views::all(run@)),
{
    if run.len() > 1 {
        squash_run(key, run)
    } else {
        run
    }
}

proof fn lemma_merged_files_prefix(s: Seq<MutationView>, n: int)
    requires
        0 <= n <= s.len(),
        merged_files(s.take(n)) is None,
    ensures
        merged_files(s) is None,
    decreases s.len() - n,
{
    if n < s.len() {
        assert(s.take(n + 1).drop_last() =~= s.take(n));
        lemma_merged_files_prefix(s, n + 1);
    } else {
        assert(s.take(n) =~= s);
    }
}

} // verus!
