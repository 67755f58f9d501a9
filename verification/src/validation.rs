//! Validate persisted metadata before routing or replay can discard information.

use std::collections::BTreeSet;
use vstd::prelude::*;

use crate::error::{EditKind, Error, Reason};
use crate::node;
use crate::pb::{Action, ChildView, DataFragment, FragmentAction, FragmentMetadataChild,
    FragmentMetadataMutation, FragmentMetadataRoot, MutationView};
use crate::record::Fragment;
use crate::replay;
use crate::views;

verus! {

broadcast use {crate::views::group_views, vstd::std_specs::btree::group_btree_axioms};

/// The record a stored fragment stands for. Counts in this format are always
/// known, including zero.
pub fn fragment(encoded: DataFragment) -> (r: Result<Fragment, Error>)
    ensures
        match encoded@.decoded() {
            Ok(record) => r is Ok && r->Ok_0@ == record,
            Err(error) => r == Err::<Fragment, Error>(error),
        },
{
    if encoded.physical_rows > usize::MAX as u64 {
        return Err(
            Error::CorruptFile { reason: Reason::RowCountExceedsUsize { id: encoded.id } },
        );
    }
    let deleted: Option<u64> = match &encoded.deletion_file {
        Some(file) => Some(file.num_deleted_rows),
        None => None,
    };
    let too_many = match deleted {
        Some(count) => count > encoded.physical_rows,
        None => false,
    };
    if encoded.id > u32::MAX as u64 || too_many {
        return Err(
            Error::CorruptFile {
                reason: Reason::FragmentCounts {
                    id: encoded.id,
                    physical_rows: encoded.physical_rows,
                    deleted_rows: deleted,
                },
            },
        );
    }
    let deletion_file = match &encoded.deletion_file {
        Some(file) => match file.decode() {
            Ok(file) => Some(file),
            Err(error) => {
                return Err(error);
            },
        },
        None => None,
    };
    Ok(
        Fragment {
            id: encoded.id,
            files: encoded.files,
            overlays: encoded.overlays,
            deletion_file,
            row_id_meta: encoded.row_id_sequence,
            physical_rows: Some(encoded.physical_rows as usize),
            last_updated_at_version_meta: encoded.last_updated_at_version_sequence,
            created_at_version_meta: encoded.created_at_version_sequence,
        },
    )
}

/// The target of a stored action that is complete.
pub fn action(encoded: &FragmentAction) -> (r: Result<u64, Error>)
    ensures
        match replay::stored_fault(encoded@) {
            Some(error) => r == Err::<u64, Error>(error),
            None => r == Ok::<u64, Error>(encoded@->0.target()),
        },
{
    let id: u64 = match crate::action::target_frag_id(encoded) {
        Some(id) => id,
        None => {
            return Err(Error::CorruptFile { reason: Reason::ActionUnknown });
        },
    };
    if id > u32::MAX as u64 {
        return Err(Error::CorruptFile { reason: Reason::ActionIdExceedsU32 { id } });
    }
    match &encoded.action {
        Some(Action::AddFragment(value)) => {
            match fragment(value.clone()) {
                Ok(_) => {},
                Err(error) => {
                    return Err(error);
                },
            }
        },
        Some(Action::AddDataFile(value)) => {
            if value.file.is_none() {
                return Err(
                    Error::CorruptFile {
                        reason: Reason::EditWithoutFile { kind: EditKind::AddDataFile, id },
                    },
                );
            }
        },
        Some(Action::ReplaceDataFile(value)) => {
            if replay::is_empty(&value.expected_path) || replay::is_empty(&value.path) {
                return Err(Error::CorruptFile { reason: Reason::ReplaceWithoutPath { id } });
            }
        },
        Some(Action::AddDeletionFile(value)) => {
            if value.deletion_file.is_none() {
                return Err(
                    Error::CorruptFile {
                        reason: Reason::EditWithoutFile { kind: EditKind::AddDeletionFile, id },
                    },
                );
            }
        },
        _ => {},
    }
    Ok(id)
}

/// The target of a buffered mutation that is complete.
pub fn mutation(tagged: &FragmentMetadataMutation) -> (r: Result<u64, Error>)
    ensures
        match tagged@.fault() {
            Some(error) => r == Err::<u64, Error>(error),
            None => r == Ok::<u64, Error>(tagged@.key()),
        },
{
    match &tagged.action {
        Some(encoded) => action(encoded),
        None => Err(
            Error::CorruptFile {
                reason: Reason::ActionMissing { action_sequence: tagged.action_sequence },
            },
        ),
    }
}

/// Whether a place is used by one of the first `n` mutations.
pub open spec fn used_before(actions: Seq<MutationView>, n: int, action_sequence: u64) -> bool {
    exists|j: int| 0 <= j < n && (#[trigger] actions[j]).action_sequence == action_sequence
}

/// Why the mutation at a position of a buffer is refused.
pub open spec fn buffered_fault(
    actions: Seq<MutationView>,
    i: int,
    first_action_sequence: u64,
    next_action_sequence: u64,
) -> Option<Error> {
    let m = actions[i];
    if m.action_sequence < first_action_sequence || m.action_sequence >= next_action_sequence
        || used_before(actions, i, m.action_sequence) {
        Some(
            Error::CorruptFile {
                reason: Reason::BufferSequence {
                    action_sequence: m.action_sequence,
                    first_action_sequence,
                    next_action_sequence,
                },
            },
        )
    } else {
        m.fault()
    }
}

/// The first refusal among the first `n` mutations of a buffer.
pub open spec fn buffer_fault(
    actions: Seq<MutationView>,
    n: int,
    first_action_sequence: u64,
    next_action_sequence: u64,
) -> Option<Error>
    decreases n,
{
    if n <= 0 {
        None
    } else {
        match buffer_fault(actions, n - 1, first_action_sequence, next_action_sequence) {
            Some(error) => Some(error),
            None => buffered_fault(actions, n - 1, first_action_sequence, next_action_sequence),
        }
    }
}

proof fn lemma_buffer_fault_prefix(
    actions: Seq<MutationView>,
    n: int,
    m: int,
    first_action_sequence: u64,
    next_action_sequence: u64,
)
    requires
        0 <= n <= m,
        buffer_fault(actions, n, first_action_sequence, next_action_sequence) is Some,
    ensures
        buffer_fault(actions, m, first_action_sequence, next_action_sequence) == buffer_fault(
            actions,
            n,
            first_action_sequence,
            next_action_sequence,
        ),
    decreases m - n,
{
    if n < m {
        lemma_buffer_fault_prefix(
            actions,
            n + 1,
            m,
            first_action_sequence,
            next_action_sequence,
        );
    }
}

/// What a buffer that passes is known to be.
pub proof fn lemma_buffer_passes(
    actions: Seq<MutationView>,
    n: int,
    first_action_sequence: u64,
    next_action_sequence: u64,
)
    requires
        0 <= n <= actions.len(),
        buffer_fault(actions, n, first_action_sequence, next_action_sequence) is None,
    ensures
        crate::order::distinct(actions.take(n)),
        forall|i: int|
            0 <= i < n ==> first_action_sequence <= (#[trigger] actions[i]).action_sequence
                < next_action_sequence && actions[i].fault() is None,
    decreases n,
{
    if n > 0 {
        lemma_buffer_passes(actions, n - 1, first_action_sequence, next_action_sequence);
        let shorter = actions.take(n - 1);
        let taken = actions.take(n);
        assert forall|i: int, j: int| 0 <= i < j < taken.len() implies (
        #[trigger] taken[i]).action_sequence != (#[trigger] taken[j]).action_sequence by {
            assert(taken[i] == actions[i] && taken[j] == actions[j]);
            if j < n - 1 {
                assert(shorter[i] == actions[i] && shorter[j] == actions[j]);
            } else if actions[i].action_sequence == actions[j].action_sequence {
                assert(used_before(actions, n - 1, actions[n - 1].action_sequence));
            }
        }
    }
}

/// Refuse a buffer that uses a place twice or outside the given range, or
/// holds an incomplete action.
pub fn buffer(
    actions: &Vec<FragmentMetadataMutation>,
    first_action_sequence: u64,
    next_action_sequence: u64,
) -> (r: Result<(), Error>)
    ensures
        r == match buffer_fault(
            views::all(actions@),
            actions@.len() as int,
            first_action_sequence,
            next_action_sequence,
        ) {
            Some(error) => Err::<(), Error>(error),
            None => Ok(()),
        },
{
    let ghost all = views::all(actions@);
    let ghost n = actions@.len() as int;
    let mut seen: BTreeSet<u64> = BTreeSet::new();
    let mut i: usize = 0;
    while i < actions.len()
        invariant
            i <= actions@.len(),
            all == views::all(actions@),
            n == actions@.len(),
            forall|s: u64| #[trigger] seen@.contains(s) == used_before(all, i as int, s),
            buffer_fault(all, i as int, first_action_sequence, next_action_sequence) is None,
        decreases actions@.len() - i,
    {
        let tagged = &actions[i];
        assert(all[i as int] == tagged@);
        let ghost before = seen@;
        let fresh = seen.insert(tagged.action_sequence);
        if tagged.action_sequence < first_action_sequence || tagged.action_sequence
            >= next_action_sequence || !fresh {
            proof {
                assert(before.contains(tagged.action_sequence) == used_before(
                    all,
                    i as int,
                    tagged.action_sequence,
                ));
                lemma_buffer_fault_prefix(
                    all,
                    i + 1,
                    n,
                    first_action_sequence,
                    next_action_sequence,
                );
            }
            return Err(
                Error::CorruptFile {
                    reason: Reason::BufferSequence {
                        action_sequence: tagged.action_sequence,
                        first_action_sequence,
                        next_action_sequence,
                    },
                },
            );
        }
        match mutation(tagged) {
            Ok(_) => {},
            Err(error) => {
                proof {
                    assert(before.contains(tagged.action_sequence) == used_before(
                        all,
                        i as int,
                        tagged.action_sequence,
                    ));
                    lemma_buffer_fault_prefix(
                        all,
                        i + 1,
                        n,
                        first_action_sequence,
                        next_action_sequence,
                    );
                }
                return Err(error);
            },
        }
        proof {
            assert(before.contains(tagged.action_sequence) == used_before(
                all,
                i as int,
                tagged.action_sequence,
            ));
            assert forall|s: u64| #[trigger] seen@.contains(s) == used_before(
                all,
                i + 1,
                s,
            ) by {
                assert(before.contains(s) == used_before(all, i as int, s));
                if used_before(all, i as int, s) {
                    let j = choose|j: int|
                        0 <= j < i && (#[trigger] all[j]).action_sequence == s;
                    assert(all[j].action_sequence == s);
                }
                if s == tagged.action_sequence {
                    assert(all[i as int].action_sequence == s);
                }
            }
        }
        i = i + 1;
    }
    Ok(())
}

/// Whether an earlier reference names the same object: the same path in the
/// same dataset.
pub open spec fn named_before(children: Seq<ChildView>, i: int) -> bool {
    exists|j: int| 0 <= j < i && (#[trigger] children[j]).loc() == children[i].loc()
}

/// Whether the reference at a position is one no writer stores.
pub open spec fn child_invalid(
    children: Seq<ChildView>,
    i: int,
    next_action_sequence: u64,
    lower_bound: u64,
) -> bool {
    let child = children[i];
    ||| i == 0 && child.min_key != lower_bound
    ||| child.path.len() == 0
    ||| named_before(children, i)
    ||| child.min_key > u32::MAX
    ||| child.object_size == 0
    ||| child.visible_rows > child.total_rows
    ||| child.height != children[0].height
    ||| child.height == u32::MAX
    ||| child.height == 0 && (child.num_keys == 0 || child.num_children != 0
        || child.materialized_through_action_sequence >= next_action_sequence)
    ||| child.height > 0 && (child.num_children < 2 || child.materialized_through_action_sequence
        != 0)
    ||| i > 0 && children[i - 1].min_key >= child.min_key
}

pub open spec fn child_reason(children: Seq<ChildView>, i: int) -> Reason {
    Reason::InvalidChild {
        position: i as u64,
        min_key: children[i].min_key,
        num_keys: children[i].num_keys,
        height: children[i].height,
        num_children: children[i].num_children,
        object_size: children[i].object_size,
    }
}

/// The first refusal among the first `n` references.
pub open spec fn children_fault(
    children: Seq<ChildView>,
    n: int,
    next_action_sequence: u64,
    lower_bound: u64,
) -> Option<Reason>
    decreases n,
{
    if n <= 0 {
        None
    } else {
        match children_fault(children, n - 1, next_action_sequence, lower_bound) {
            Some(reason) => Some(reason),
            None => if child_invalid(children, n - 1, next_action_sequence, lower_bound) {
                Some(child_reason(children, n - 1))
            } else {
                None
            },
        }
    }
}

proof fn lemma_children_fault_prefix(
    children: Seq<ChildView>,
    n: int,
    m: int,
    next_action_sequence: u64,
    lower_bound: u64,
)
    requires
        0 <= n <= m,
        children_fault(children, n, next_action_sequence, lower_bound) is Some,
    ensures
        children_fault(children, m, next_action_sequence, lower_bound) == children_fault(
            children,
            n,
            next_action_sequence,
            lower_bound,
        ),
    decreases m - n,
{
    if n < m {
        lemma_children_fault_prefix(children, n + 1, m, next_action_sequence, lower_bound);
    }
}

/// What references that pass are known to be.
pub proof fn lemma_children_pass(
    children: Seq<ChildView>,
    n: int,
    next_action_sequence: u64,
    lower_bound: u64,
)
    requires
        0 <= n <= children.len(),
        children_fault(children, n, next_action_sequence, lower_bound) is None,
    ensures
        forall|i: int|
            0 <= i < n ==> !child_invalid(
                children,
                i,
                next_action_sequence,
                lower_bound,
            ) && (#[trigger] children[i]).height == children[0].height && children[i].min_key
                <= u32::MAX && (children[i].height == 0
                ==> children[i].materialized_through_action_sequence < next_action_sequence),
        n > 0 ==> children[0].min_key == lower_bound,
        forall|i: int, j: int|
            0 <= i < j < n ==> (#[trigger] children[i]).min_key < (#[trigger] children[j]).min_key,
    decreases n,
{
    if n > 0 {
        lemma_children_pass(children, n - 1, next_action_sequence, lower_bound);
        assert(!child_invalid(children, n - 1, next_action_sequence, lower_bound));
        assert forall|i: int, j: int| 0 <= i < j < n implies (#[trigger] children[i]).min_key < (
        #[trigger] children[j]).min_key by {
            if j == n - 1 {
                assert(children[n - 2].min_key < children[n - 1].min_key);
                if i < n - 2 {
                    assert(children[i].min_key < children[n - 2].min_key);
                }
            }
        }
    }
}

fn repeats_object(children: &Vec<FragmentMetadataChild>, i: usize) -> (r: bool)
    requires
        i < children@.len(),
    ensures
        r == named_before(views::all(children@), i as int),
{
    let ghost all = views::all(children@);
    let mut j: usize = 0;
    while j < i
        invariant
            j <= i < children@.len(),
            all == views::all(children@),
            forall|k: int| 0 <= k < j ==> (#[trigger] all[k]).loc() != all[i as int].loc(),
        decreases i - j,
    {
        assert(all[j as int] == children@[j as int]@);
        assert(all[i as int] == children@[i as int]@);
        if children[j].path == children[i].path && children[j].base_id == children[i].base_id {
            assert(all[j as int].loc() == all[i as int].loc());
            return true;
        }
        j = j + 1;
    }
    false
}

/// `lower_bound` is the range start the parent assigned to this list. It is 0
/// for the root and the parent's entry for an interior.
pub fn children(
    refs: &Vec<FragmentMetadataChild>,
    next_action_sequence: u64,
    lower_bound: u64,
) -> (r: Result<(), Error>)
    ensures
        r == match children_fault(
            views::all(refs@),
            refs@.len() as int,
            next_action_sequence,
            lower_bound,
        ) {
            Some(reason) => Err::<(), Error>(Error::CorruptFile { reason }),
            None => Ok(()),
        },
{
    let ghost all = views::all(refs@);
    let ghost n = refs@.len() as int;
    let mut i: usize = 0;
    while i < refs.len()
        invariant
            i <= refs@.len(),
            all == views::all(refs@),
            n == refs@.len(),
            children_fault(all, i as int, next_action_sequence, lower_bound) is None,
        decreases refs@.len() - i,
    {
        let child = &refs[i];
        assert(all[i as int] == child@);
        assert(all[0] == refs@[0]@);
        let unordered = if i > 0 {
            assert(all[i - 1] == refs@[i - 1]@);
            refs[i - 1].min_key >= child.min_key
        } else {
            child.min_key != lower_bound
        };
        if unordered || replay::is_empty(&child.path) || repeats_object(refs, i) || child.min_key
            > u32::MAX as u64 || child.object_size == 0 || child.visible_rows > child.total_rows
            || child.height != refs[0].height || child.height == u32::MAX || (child.height == 0
            && (child.num_keys == 0 || child.num_children != 0
            || child.materialized_through_action_sequence >= next_action_sequence)) || (child.height
            > 0 && (child.num_children < 2 || child.materialized_through_action_sequence != 0)) {
            proof {
                assert(child_invalid(all, i as int, next_action_sequence, lower_bound));
                lemma_children_fault_prefix(all, i + 1, n, next_action_sequence, lower_bound);
            }
            return Err(
                Error::CorruptFile {
                    reason: Reason::InvalidChild {
                        position: i as u64,
                        min_key: child.min_key,
                        num_keys: child.num_keys,
                        height: child.height,
                        num_children: child.num_children,
                        object_size: child.object_size,
                    },
                },
            );
        }
        i = i + 1;
    }
    Ok(())
}

/// The totals a valid root stands for: fragments, physical rows and visible
/// rows. `next_fragment_id` comes from the manifest's high-water mark.
pub open spec fn root_totals(
    children: Seq<ChildView>,
    buffer: Seq<MutationView>,
    next_action_sequence: u64,
    next_fragment_id: u64,
) -> Result<(u64, u64, u64), Error> {
    let summary = node::internal_summary(Seq::empty(), children, buffer, 0);
    if next_action_sequence == 0 {
        Err(Error::CorruptFile { reason: Reason::RootSequenceZero })
    } else if children_fault(children, children.len() as int, next_action_sequence, 0) is Some {
        Err(
            Error::CorruptFile {
                reason: children_fault(
                    children,
                    children.len() as int,
                    next_action_sequence,
                    0,
                )->0,
            },
        )
    } else if buffer_fault(buffer, buffer.len() as int, 1, next_action_sequence) is Some {
        Err(buffer_fault(buffer, buffer.len() as int, 1, next_action_sequence)->0)
    } else if summary is Err {
        Err(summary->Err_0)
    } else if summary->Ok_0.visible_rows > summary->Ok_0.total_rows {
        Err(
            Error::CorruptFile {
                reason: Reason::RootVisibleExceedsPhysical,
            },
        )
    } else if next_fragment_id == 0 && (children.len() > 0 || buffer.len() > 0) {
        Err(Error::CorruptFile { reason: Reason::FragmentsWithoutFrontier })
    } else if next_fragment_id > 0 && (exists|i: int|
        0 <= i < buffer.len() && (#[trigger] buffer[i]).key() >= next_fragment_id) {
        Err(Error::CorruptFile { reason: Reason::RootBeyondFrontier { next_fragment_id } })
    } else {
        Ok((summary->Ok_0.num_keys, summary->Ok_0.total_rows, summary->Ok_0.visible_rows))
    }
}

/// Whether a buffer names a fragment at or beyond an allocation frontier.
pub fn names_beyond(buffer: &Vec<FragmentMetadataMutation>, next_fragment_id: u64) -> (r: bool)
    ensures
        r == exists|i: int|
            0 <= i < buffer@.len() && (#[trigger] views::all(buffer@)[i]).key()
                >= next_fragment_id,
{
    let ghost all = views::all(buffer@);
    let mut i: usize = 0;
    while i < buffer.len()
        invariant
            i <= buffer@.len(),
            all == views::all(buffer@),
            forall|k: int| 0 <= k < i ==> (#[trigger] all[k]).key() < next_fragment_id,
        decreases buffer@.len() - i,
    {
        assert(all[i as int] == buffer@[i as int]@);
        if node::action_key(&buffer[i]) >= next_fragment_id {
            assert(all[i as int].key() >= next_fragment_id);
            return true;
        }
        i = i + 1;
    }
    false
}

/// Validate the root and derive its fragment, physical-row and visible-row
/// totals. `next_fragment_id` comes from the manifest's high-water mark.
pub fn root(tree_root: &FragmentMetadataRoot, next_fragment_id: u64) -> (r: Result<
    (u64, u64, u64),
    Error,
>)
    ensures
        r == root_totals(
            views::all(tree_root.children@),
            views::all(tree_root.buffer@),
            tree_root.next_action_sequence,
            next_fragment_id,
        ),
{
    if tree_root.next_action_sequence == 0 {
        return Err(Error::CorruptFile { reason: Reason::RootSequenceZero });
    }
    match children(&tree_root.children, tree_root.next_action_sequence, 0) {
        Ok(()) => {},
        Err(error) => {
            return Err(error);
        },
    }
    match buffer(&tree_root.buffer, 1, tree_root.next_action_sequence) {
        Ok(()) => {},
        Err(error) => {
            return Err(error);
        },
    }
    let summary = match node::internal_ref(String::new(), &tree_root.children, &tree_root.buffer, 0) {
        Ok(summary) => summary,
        Err(error) => {
            return Err(error);
        },
    };
    if summary.visible_rows > summary.total_rows {
        return Err(
            Error::CorruptFile {
                reason: Reason::RootVisibleExceedsPhysical,
            },
        );
    }
    if next_fragment_id == 0 {
        if tree_root.children.len() > 0 || tree_root.buffer.len() > 0 {
            return Err(Error::CorruptFile { reason: Reason::FragmentsWithoutFrontier });
        }
    } else if names_beyond(&tree_root.buffer, next_fragment_id) {
        return Err(
            Error::CorruptFile { reason: Reason::RootBeyondFrontier { next_fragment_id } },
        );
    }
    Ok((summary.num_keys, summary.total_rows, summary.visible_rows))
}

} // verus!
