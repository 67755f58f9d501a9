//! What a refused request is answered, and what the answer names.

use vstd::prelude::*;

use crate::commit;
use crate::commit::ActionDeltas;
use crate::delta_laws;
use crate::error::{EditKind, Error, Reason};
use crate::node;
use crate::pb::{ActionView, ChildView, MutationView};
use crate::policy_laws;
use crate::reading_laws;
use crate::record::FragmentView;
use crate::split;
use crate::store;
use crate::store::StoreView;
use crate::tree::publication;
use crate::tree::TreeView;
use crate::validation;

verus! {

/// Whether a refusal names a child with what it says of itself.
pub open spec fn names_child(reason: Reason, position: int, child: ChildView) -> bool {
    reason == (Reason::InvalidChild {
        position: position as u64,
        min_key: child.min_key,
        num_keys: child.num_keys,
        height: child.height,
        num_children: child.num_children,
        object_size: child.object_size,
    })
}

/// A list of children is refused by naming its first child with which the list
/// is not sound.
pub proof fn law_first_unsound_child_is_named(
    children: Seq<ChildView>,
    next_action_sequence: u64,
    lower_bound: u64,
    n: int,
)
    requires
        0 <= n <= children.len(),
    ensures
        validation::children_fault(children, n, next_action_sequence, lower_bound) matches Some(
            reason,
        ) ==> exists|p: int|
            0 <= p < n && #[trigger] names_child(reason, p, children[p])
                && reading_laws::sound_children(
                children.take(p),
                next_action_sequence,
                lower_bound,
            ) && !reading_laws::sound_children(
                children.take(p + 1),
                next_action_sequence,
                lower_bound,
            ),
    decreases n,
{
    if n > 0 {
        law_first_unsound_child_is_named(children, next_action_sequence, lower_bound, n - 1);
        reading_laws::lemma_children_accepted(
            children,
            n - 1,
            next_action_sequence,
            lower_bound,
        );
        reading_laws::lemma_children_accepted(children, n, next_action_sequence, lower_bound);
        if validation::children_fault(children, n - 1, next_action_sequence, lower_bound) is None {
            if let Some(reason) = validation::children_fault(
                children,
                n,
                next_action_sequence,
                lower_bound,
            ) {
                assert(names_child(reason, n - 1, children[n - 1]));
            }
        }
    }
}

/// A mutation is refused by what is wrong with it: its action is missing, is of
/// no known kind, names an id over 32 bits, or lacks the file or the path that
/// it needs.
pub proof fn law_refused_mutation_is_told_why(m: MutationView)
    ensures
        match m.action {
            None => m.fault() == Some(
                Error::CorruptFile {
                    reason: Reason::ActionMissing { action_sequence: m.action_sequence },
                },
            ),
            Some(None) => m.fault() == Some(Error::CorruptFile { reason: Reason::ActionUnknown }),
            Some(Some(action)) => if action.target() > u32::MAX {
                m.fault() == Some(
                    Error::CorruptFile {
                        reason: Reason::ActionIdExceedsU32 { id: action.target() },
                    },
                )
            } else {
                match action {
                    ActionView::AddFragment(f) => match f.deletion_file {
                        _ if f.physical_rows > usize::MAX => m.fault() == Some(
                            Error::CorruptFile {
                                reason: Reason::RowCountExceedsUsize { id: f.id },
                            },
                        ),
                        Some(d) if d.num_deleted_rows > f.physical_rows => m.fault() == Some(
                            Error::CorruptFile {
                                reason: Reason::FragmentCounts {
                                    id: f.id,
                                    physical_rows: f.physical_rows,
                                    deleted_rows: Some(d.num_deleted_rows),
                                },
                            },
                        ),
                        Some(d) if d.file_type != 0 && d.file_type != 1 => m.fault() == Some(
                            Error::NotSupported {
                                reason: Reason::UnknownDeletionFileType { file_type: d.file_type },
                            },
                        ),
                        _ => m.fault() is None,
                    },
                    ActionView::AddDataFile { frag_id, file: None } => m.fault() == Some(
                        Error::CorruptFile {
                            reason: Reason::EditWithoutFile {
                                kind: EditKind::AddDataFile,
                                id: frag_id,
                            },
                        },
                    ),
                    ActionView::AddDeletionFile { frag_id, deletion_file: None } => m.fault()
                        == Some(
                        Error::CorruptFile {
                            reason: Reason::EditWithoutFile {
                                kind: EditKind::AddDeletionFile,
                                id: frag_id,
                            },
                        },
                    ),
                    ActionView::ReplaceDataFile { frag_id, expected_path, path, .. } => {
                        (expected_path.len() == 0 || path.len() == 0) ==> m.fault() == Some(
                            Error::CorruptFile {
                                reason: Reason::ReplaceWithoutPath { id: frag_id },
                            },
                        )
                    },
                    _ => m.fault() is None,
                }
            },
        },
{
}

/// Whether a mutation has no place of its own in a range of the commit order.
pub open spec fn misplaced(buffer: Seq<MutationView>, p: int, first: u64, next: u64) -> bool {
    let place = buffer[p].action_sequence;
    place < first || place >= next || exists|j: int|
        0 <= j < p && (#[trigger] buffer[j]).action_sequence == place
}

/// Whether a refusal is that of the mutation at a position.
pub open spec fn refuses_at(
    buffer: Seq<MutationView>,
    first: u64,
    next: u64,
    error: Error,
    p: int,
) -> bool {
    if misplaced(buffer, p, first, next) {
        error == (Error::CorruptFile {
            reason: Reason::BufferSequence {
                action_sequence: buffer[p].action_sequence,
                first_action_sequence: first,
                next_action_sequence: next,
            },
        })
    } else {
        buffer[p].fault() == Some(error)
    }
}

/// A buffer is refused by its first mutation with which it is not sound: by its
/// place where that is taken or out of range, and otherwise by what is wrong
/// with the mutation itself.
pub proof fn law_first_unsound_mutation_is_named(
    buffer: Seq<MutationView>,
    first: u64,
    next: u64,
    n: int,
)
    requires
        0 <= n <= buffer.len(),
    ensures
        validation::buffer_fault(buffer, n, first, next) matches Some(error) ==> exists|p: int|
            0 <= p < n && #[trigger] refuses_at(buffer, first, next, error, p)
                && reading_laws::sound_buffer(buffer.take(p), first, next)
                && !reading_laws::sound_buffer(buffer.take(p + 1), first, next),
    decreases n,
{
    if n > 0 {
        law_first_unsound_mutation_is_named(buffer, first, next, n - 1);
        reading_laws::lemma_buffer_accepted(buffer, n - 1, first, next);
        reading_laws::lemma_buffer_accepted(buffer, n, first, next);
        if validation::buffer_fault(buffer, n - 1, first, next) is None {
            if let Some(error) = validation::buffer_fault(buffer, n, first, next) {
                assert(validation::used_before(buffer, n - 1, buffer[n - 1].action_sequence) == (
                exists|j: int|
                    0 <= j < n - 1 && (#[trigger] buffer[j]).action_sequence
                        == buffer[n - 1].action_sequence));
                assert(refuses_at(buffer, first, next, error, n - 1));
            }
        }
    }
}

/// A record that may not be stored is refused by the first count that is not
/// known or does not fit.
pub proof fn law_unstorable_record_is_told_why(f: FragmentView)
    ensures
        commit::unknown_counts(f) == match (f.physical_rows, f.deletion_file) {
            _ if f.id > u32::MAX => Some(Reason::FragmentIdExceedsU32 { id: f.id }),
            (None, _) => Some(Reason::PhysicalRowsUnknown { id: f.id }),
            (Some(rows), Some(file)) => match file.num_deleted_rows {
                None => Some(Reason::DeletedRowsUnknown { id: f.id }),
                Some(deleted) if deleted > rows => Some(
                    Reason::MoreDeletedThanRows {
                        id: f.id,
                        deleted: deleted as u64,
                        rows: rows as u64,
                    },
                ),
                _ => None,
            },
            _ => None,
        },
{
}

/// A mutation that was routed to the wrong child is named with its fragment and
/// the child's range, and one that its leaf already holds with the leaf's mark.
pub proof fn law_misrouted_mutation_is_named(child: ChildView, end: u64, m: MutationView)
    ensures
        split::misrouted(child, end, m) is None == policy_laws::may_wait_above(child, end, m),
        !(child.min_key <= m.key() < end) ==> split::misrouted(child, end, m) == Some(
            Reason::ActionOutsideRange {
                action_sequence: m.action_sequence,
                target: m.key(),
                min_key: child.min_key,
                exclusive_end: end,
            },
        ),
        child.min_key <= m.key() < end && !policy_laws::may_wait_above(child, end, m)
            ==> split::misrouted(child, end, m) == Some(
            Reason::ActionBelowWatermark {
                action_sequence: m.action_sequence,
                target: m.key(),
                watermark: child.materialized_through_action_sequence,
            },
        ),
{
}

/// A leaf that is not what its reference says is refused by the first thing
/// that differs: its size, the order of its records, where they start, or what
/// they come to.
pub proof fn law_differing_leaf_is_told_why(known: StoreView, child: ChildView, at: int)
    requires
        0 <= at < known.leaves.len(),
        reading_laws::at_place(known.leaves[at].loc.path, known.leaves[at].loc.base_id, child),
        forall|i: int|
            0 <= i < at ==> !reading_laws::at_place(
                (#[trigger] known.leaves[i]).loc.path,
                known.leaves[i].loc.base_id,
                child,
            ),
        child.object_size <= usize::MAX,
        known.leaves[at].fragments.len() <= u64::MAX,
    ensures
        ({
            let stored = known.leaves[at];
            let records = stored.fragments;
            match store::leaf_read(known, child) {
                Err(Some(Error::CorruptFile { reason: Reason::LeafSize { declared, found } })) => {
                    &&& declared == child.object_size
                    &&& found == stored.object_size
                    &&& declared != found
                },
                Err(Some(Error::CorruptFile { reason: Reason::LeafOrder { id } })) => exists|i: int|
                    0 < i < records.len() && (#[trigger] records[i]).id == id && records[i - 1].id
                        >= id,
                Err(Some(Error::CorruptFile { reason: Reason::LeafFence { fence, first } })) => {
                    &&& fence == child.min_key
                    &&& fence > first
                    &&& records.len() > 0 ==> first == records[0].id
                },
                Err(Some(Error::CorruptFile { reason: Reason::LeafContentsDiffer })) => {
                    child.num_keys != records.len() || child.total_rows != reading_laws::rows_of(
                        records,
                    ) || child.visible_rows != reading_laws::rows_left_of(records)
                },
                Err(Some(Error::InvalidInput { reason: Reason::SumOverflow { .. } })) => {
                    reading_laws::rows_of(records) > u64::MAX
                },
                Err(_) => false,
                Ok(_) => true,
            }
        }),
{
    let stored = known.leaves[at];
    let records = stored.fragments;
    let found = store::leaf_index(known.leaves, child.loc());
    store::lemma_leaf_index(known.leaves, child.loc());
    assert(stored.loc == child.loc());
    if found < at {
        assert(known.leaves[found].loc == child.loc());
    }
    assert(found == at);
    reading_laws::law_leaf_reference_counts_its_records(
        child.path,
        records,
        child.object_size,
        child.materialized_through_action_sequence,
    );
    let n = records.len() as int;
    if store::misordered(records, n) is Some {
        lemma_misordered(records, n);
        let i = store::misordered(records, n)->0;
        assert(records[i].id == records[i].id);
    }
    lemma_sum_error(node::row_counts(records), crate::error::Aggregate::TotalRows);
    lemma_sum_error(node::visible_counts(records), crate::error::Aggregate::VisibleRows);
}

proof fn lemma_sum_error(values: Seq<u64>, name: crate::error::Aggregate)
    ensures
        node::summed(values, name) matches Err(error) ==> (error matches Error::InvalidInput {
            reason: Reason::SumOverflow { .. },
        }),
    decreases values.len(),
{
    if values.len() > 0 {
        lemma_sum_error(values.drop_last(), name);
    }
}

pub proof fn lemma_misordered(records: Seq<FragmentView>, n: int)
    requires
        0 <= n <= records.len(),
        store::misordered(records, n) is Some,
    ensures
        ({
            let i = store::misordered(records, n)->0;
            0 < i < n && records[i - 1].id >= records[i].id
        }),
    decreases n,
{
    if store::misordered(records, n - 1) is Some {
        lemma_misordered(records, n - 1);
    }
}

/// A commit is not staged where its actions do not fit the commit order, where
/// the version cannot grow, or where it reserves fewer ids than it adds or more
/// than there are, and is answered with the numbers at fault.
pub proof fn law_unstaged_commit_is_told_why(
    t: TreeView,
    actions: Seq<Option<ActionView>>,
    deltas: Seq<ActionDeltas>,
    next: Option<u64>,
)
    requires
        actions.len() <= u64::MAX,
        publication::staging(t, actions, deltas, next) is Err,
    ensures
        match publication::staging(t, actions, deltas, next)->Err_0 {
            Error::InvalidInput {
                reason: Reason::ActionSequenceExhausted { next_action_sequence, action_count },
            } => {
                &&& next_action_sequence == t.next_action_sequence
                &&& action_count == actions.len()
                &&& t.next_action_sequence + actions.len() > u64::MAX
            },
            Error::InvalidInput { reason: Reason::VersionExhausted } => t.version == u64::MAX,
            Error::InvalidInput { reason: Reason::FrontierOutOfRange { next: n, at_least } } => {
                &&& next == Some(n)
                &&& n < publication::allocated(t.next_fragment_id, actions) || n > 0x1_0000_0000
            },
            Error::InvalidInput { reason: Reason::DeltaSumOverflow { .. } } => true,
            Error::InvalidInput { reason: Reason::AggregateOverflow { delta, .. } } => delta >= 0,
            Error::InvalidInput { reason: Reason::AggregateUnderflow { delta, .. } } => delta < 0,
            _ => false,
        },
        t.next_action_sequence + actions.len() > u64::MAX ==> (publication::staging(
            t,
            actions,
            deltas,
            next,
        )->Err_0 matches Error::InvalidInput { reason: Reason::ActionSequenceExhausted { .. } }),
{
    lemma_delta_error(
        publication::fragment_counts(deltas),
        crate::error::Aggregate::FragmentCountDelta,
    );
    lemma_delta_error(
        publication::physical_counts(deltas),
        crate::error::Aggregate::TotalRowsDelta,
    );
    lemma_delta_error(
        publication::visible_counts(deltas),
        crate::error::Aggregate::VisibleRowsDelta,
    );
}

proof fn lemma_delta_error(values: Seq<i64>, name: crate::error::Aggregate)
    ensures
        node::summed_deltas(values, name) matches Err(error) ==> (error matches Error::InvalidInput {
            reason: Reason::DeltaSumOverflow { .. },
        }),
    decreases values.len(),
{
    if values.len() > 0 {
        lemma_delta_error(values.drop_last(), name);
    }
}

/// A count that a delta takes out of range is refused with the count and the
/// delta, as an overflow or an underflow by the delta's sign.
pub proof fn law_count_out_of_range_is_told(
    base: u64,
    delta: i64,
    name: crate::error::Aggregate,
)
    ensures
        0 <= base + delta <= u64::MAX ==> (node::changed(base, delta, name) matches Ok(sum) && sum
            == base + delta),
        base + delta > u64::MAX ==> node::changed(base, delta, name) == Err::<u64, Error>(
            Error::InvalidInput { reason: Reason::AggregateOverflow { name, base, delta } },
        ),
        base + delta < 0 ==> node::changed(base, delta, name) == Err::<u64, Error>(
            Error::InvalidInput { reason: Reason::AggregateUnderflow { name, base, delta } },
        ),
{
}

/// A count of a fragment is refused as a delta only where it does not fit one,
/// with the count.
pub proof fn law_count_over_a_delta_is_told(f: FragmentView)
    requires
        delta_laws::counts_known(f),
    ensures
        f.physical_rows->0 <= i64::MAX ==> (commit::physical(Some(f)) matches Ok(rows) && rows
            == reading_laws::rows_in(f)),
        f.physical_rows->0 > i64::MAX ==> commit::physical(Some(f)) == Err::<int, Error>(
            Error::InvalidInput {
                reason: Reason::PhysicalRowsExceedI64 { rows: f.physical_rows->0 as u64 },
            },
        ),
        reading_laws::rows_left(f) <= i64::MAX ==> (commit::visible(Some(f)) matches Ok(rows)
            && rows == reading_laws::rows_left(f)),
        commit::physical(None) == Ok::<int, Error>(0),
        commit::visible(None) == Ok::<int, Error>(0),
{
}

} // verus!
