//! What stored nodes and leaves have to be before they are read, and what the
//! references to them say, counted value by value.

use vstd::prelude::*;

use crate::error::{Aggregate, Error};
use crate::inherit;
use crate::node;
use crate::pb::{ActionView, ChildView, DeletionFile, MutationView};
use crate::record::FragmentView;
use crate::squash;
use crate::store;
use crate::store::StoreView;
use crate::validation;

verus! {

/// The sum of some numbers.
pub open spec fn total(values: Seq<int>) -> int
    decreases values.len(),
{
    if values.len() == 0 {
        0
    } else {
        total(values.drop_last()) + values.last()
    }
}

/// The rows of a record, none where the count is not known.
pub open spec fn rows_in(fragment: FragmentView) -> int {
    match fragment.physical_rows {
        Some(rows) => rows as int,
        None => 0,
    }
}

/// The rows of a record that are not deleted, none where a count is not known.
pub open spec fn rows_left(fragment: FragmentView) -> int {
    match fragment.deletion_file {
        None => rows_in(fragment),
        Some(file) => match file.num_deleted_rows {
            Some(deleted) if deleted <= rows_in(fragment) && fragment.physical_rows is Some => {
                rows_in(fragment) - deleted
            },
            _ => 0,
        },
    }
}

pub open spec fn rows_of(fragments: Seq<FragmentView>) -> int {
    total(Seq::new(fragments.len(), |i: int| rows_in(fragments[i])))
}

pub open spec fn rows_left_of(fragments: Seq<FragmentView>) -> int {
    total(Seq::new(fragments.len(), |i: int| rows_left(fragments[i])))
}

/// The fragments, rows and rows not deleted that a node's children and its
/// buffer come to.
pub open spec fn node_amounts(children: Seq<ChildView>, buffer: Seq<MutationView>) -> (
    int,
    int,
    int,
) {
    (
        total(Seq::new(children.len(), |i: int| children[i].num_keys as int)) + total(
            Seq::new(buffer.len(), |i: int| buffer[i].fragment_count_delta as int),
        ),
        total(Seq::new(children.len(), |i: int| children[i].total_rows as int)) + total(
            Seq::new(buffer.len(), |i: int| buffer[i].total_rows_delta as int),
        ),
        total(Seq::new(children.len(), |i: int| children[i].visible_rows as int)) + total(
            Seq::new(buffer.len(), |i: int| buffer[i].visible_rows_delta as int),
        ),
    )
}

proof fn lemma_summed(values: Seq<u64>, ints: Seq<int>, name: Aggregate)
    requires
        ints.len() == values.len(),
        forall|i: int| 0 <= i < values.len() ==> #[trigger] ints[i] == values[i],
    ensures
        total(ints) >= 0,
        node::summed(values, name) is Ok == (total(ints) <= u64::MAX),
        node::summed(values, name) matches Ok(sum) ==> sum == total(ints),
    decreases values.len(),
{
    if values.len() > 0 {
        let n = values.len() - 1;
        assert(ints[n] == values[n]);
        assert forall|i: int| 0 <= i < n implies #[trigger] ints.drop_last()[i]
            == values.drop_last()[i] by {
            assert(ints[i] == values[i]);
        }
        lemma_summed(values.drop_last(), ints.drop_last(), name);
    }
}

proof fn lemma_summed_deltas(values: Seq<i64>, ints: Seq<int>, name: Aggregate)
    requires
        ints.len() == values.len(),
        forall|i: int| 0 <= i < values.len() ==> #[trigger] ints[i] == values[i],
    ensures
        node::summed_deltas(values, name) matches Ok(sum) ==> sum == total(ints),
    decreases values.len(),
{
    if values.len() > 0 {
        let n = values.len() - 1;
        assert(ints[n] == values[n]);
        assert forall|i: int| 0 <= i < n implies #[trigger] ints.drop_last()[i]
            == values.drop_last()[i] by {
            assert(ints[i] == values[i]);
        }
        lemma_summed_deltas(values.drop_last(), ints.drop_last(), name);
    }
}

pub proof fn lemma_rows_left(fragments: Seq<FragmentView>)
    ensures
        0 <= rows_left_of(fragments) <= rows_of(fragments),
    decreases fragments.len(),
{
    let a = Seq::new(fragments.len(), |i: int| rows_left(fragments[i]));
    let b = Seq::new(fragments.len(), |i: int| rows_in(fragments[i]));
    if fragments.len() > 0 {
        let rest = fragments.drop_last();
        lemma_rows_left(rest);
        assert(a.drop_last() =~= Seq::new(rest.len(), |i: int| rows_left(rest[i])));
        assert(b.drop_last() =~= Seq::new(rest.len(), |i: int| rows_in(rest[i])));
    }
}

/// The reference to a leaf counts its records, their rows and the rows that are
/// not deleted, and starts at the first record. There is one as long as the rows
/// can be counted.
pub proof fn law_leaf_reference_counts_its_records(
    path: Seq<char>,
    fragments: Seq<FragmentView>,
    object_size: u64,
    through: u64,
)
    requires
        fragments.len() <= u64::MAX,
    ensures
        ({
            let r = node::leaf_summary(path, fragments, object_size, through);
            &&& r is Ok == (rows_of(fragments) <= u64::MAX)
            &&& r matches Ok(child) ==> {
                &&& child.path == path
                &&& child.base_id is None
                &&& child.min_key == if fragments.len() == 0 {
                    0
                } else {
                    fragments[0].id
                }
                &&& child.num_keys == fragments.len()
                &&& child.height == 0
                &&& child.num_children == 0
                &&& child.total_rows == rows_of(fragments)
                &&& child.visible_rows == rows_left_of(fragments)
                &&& child.object_size == object_size
                &&& child.materialized_through_action_sequence == through
            }
        }),
{
    lemma_summed(
        node::row_counts(fragments),
        Seq::new(fragments.len(), |i: int| rows_in(fragments[i])),
        Aggregate::TotalRows,
    );
    lemma_summed(
        node::visible_counts(fragments),
        Seq::new(fragments.len(), |i: int| rows_left(fragments[i])),
        Aggregate::VisibleRows,
    );
    lemma_rows_left(fragments);
}

pub proof fn lemma_max_height(children: Seq<ChildView>)
    ensures
        forall|i: int|
            0 <= i < children.len() ==> (#[trigger] children[i]).height <= node::max_height(
                children,
            ),
        node::max_height(children) == 0 || exists|i: int|
            0 <= i < children.len() && (#[trigger] children[i]).height == node::max_height(
                children,
            ),
    decreases children.len(),
{
    if children.len() > 0 {
        let rest = children.drop_last();
        let n = rest.len() as int;
        lemma_max_height(rest);
        assert forall|i: int| 0 <= i < children.len() implies (#[trigger] children[i]).height
            <= node::max_height(children) by {
            if i < n {
                assert(rest[i] == children[i]);
            }
        }
        if node::max_height(children) != 0 {
            if node::max_height(children) == node::max_height(rest) {
                let i = choose|i: int|
                    0 <= i < rest.len() && (#[trigger] rest[i]).height == node::max_height(rest);
                assert(children[i].height == node::max_height(children));
            } else {
                assert(children[n].height == node::max_height(children));
            }
        }
    }
}

pub proof fn lemma_node_amounts(
    path: Seq<char>,
    children: Seq<ChildView>,
    buffer: Seq<MutationView>,
    object_size: u64,
)
    ensures
        node::internal_summary(path, children, buffer, object_size) matches Ok(child) ==> {
            let amounts = node_amounts(children, buffer);
            &&& child.num_keys == amounts.0
            &&& child.total_rows == amounts.1
            &&& child.visible_rows == amounts.2
        },
{
    lemma_amounts_counted(children, buffer);
}

/// The counts of a node's children and buffer, where they can be summed.
pub proof fn lemma_amounts_counted(children: Seq<ChildView>, buffer: Seq<MutationView>)
    ensures
        ({
            let keys = Seq::new(children.len(), |i: int| children[i].num_keys as int);
            let rows = Seq::new(children.len(), |i: int| children[i].total_rows as int);
            let visible = Seq::new(children.len(), |i: int| children[i].visible_rows as int);
            let a = node::summed(node::key_counts(children), Aggregate::NumKeys);
            let b = node::summed(node::child_rows(children), Aggregate::TotalRows);
            let c = node::summed(node::child_visible(children), Aggregate::VisibleRows);
            let x = node::summed_deltas(
                squash::fragment_deltas(buffer),
                Aggregate::FragmentCountDelta,
            );
            let y = node::summed_deltas(squash::row_deltas(buffer), Aggregate::TotalRowsDelta);
            let z = node::summed_deltas(
                squash::visible_deltas(buffer),
                Aggregate::VisibleRowsDelta,
            );
            let amounts = node_amounts(children, buffer);
            &&& total(keys) <= u64::MAX ==> a is Ok
            &&& total(rows) <= u64::MAX ==> b is Ok
            &&& total(visible) <= u64::MAX ==> c is Ok
            &&& a is Ok && x is Ok ==> a->Ok_0 + x->Ok_0 == amounts.0
            &&& b is Ok && y is Ok ==> b->Ok_0 + y->Ok_0 == amounts.1
            &&& c is Ok && z is Ok ==> c->Ok_0 + z->Ok_0 == amounts.2
        }),
{
    lemma_summed(
        node::key_counts(children),
        Seq::new(children.len(), |i: int| children[i].num_keys as int),
        Aggregate::NumKeys,
    );
    lemma_summed(
        node::child_rows(children),
        Seq::new(children.len(), |i: int| children[i].total_rows as int),
        Aggregate::TotalRows,
    );
    lemma_summed(
        node::child_visible(children),
        Seq::new(children.len(), |i: int| children[i].visible_rows as int),
        Aggregate::VisibleRows,
    );
    lemma_summed_deltas(
        squash::fragment_deltas(buffer),
        Seq::new(buffer.len(), |i: int| buffer[i].fragment_count_delta as int),
        Aggregate::FragmentCountDelta,
    );
    lemma_summed_deltas(
        squash::row_deltas(buffer),
        Seq::new(buffer.len(), |i: int| buffer[i].total_rows_delta as int),
        Aggregate::TotalRowsDelta,
    );
    lemma_summed_deltas(
        squash::visible_deltas(buffer),
        Seq::new(buffer.len(), |i: int| buffer[i].visible_rows_delta as int),
        Aggregate::VisibleRowsDelta,
    );
}

/// The reference to a node counts what its children hold changed by what its
/// buffer adds, is one level above its tallest child, and starts where its
/// first child does.
pub proof fn law_node_reference_counts_its_children(
    path: Seq<char>,
    children: Seq<ChildView>,
    buffer: Seq<MutationView>,
    object_size: u64,
)
    requires
        node::internal_summary(path, children, buffer, object_size) is Ok,
        children.len() <= u32::MAX,
    ensures
        ({
            let child = node::internal_summary(path, children, buffer, object_size)->Ok_0;
            let amounts = node_amounts(children, buffer);
            &&& child.path == path
            &&& child.base_id is None
            &&& child.object_size == object_size
            &&& child.materialized_through_action_sequence == 0
            &&& child.min_key == if children.len() == 0 {
                0
            } else {
                children[0].min_key
            }
            &&& child.num_children == children.len()
            &&& child.num_keys == amounts.0
            &&& child.total_rows == amounts.1
            &&& child.visible_rows == amounts.2
            &&& forall|i: int| 0 <= i < children.len() ==> (#[trigger] children[i]).height
                < child.height
            &&& child.height == 1 || exists|i: int|
                0 <= i < children.len() && (#[trigger] children[i]).height + 1 == child.height
        }),
{
    lemma_node_amounts(path, children, buffer, object_size);
    lemma_max_height(children);
    let h = node::max_height(children);
    if h != 0 {
        let i = choose|i: int| 0 <= i < children.len() && (#[trigger] children[i]).height == h;
        assert(children[i].height + 1 == h + 1);
    }
}

// Lists of children.

/// Whether a reference by itself is one that a writer stores.
pub open spec fn sound_child(child: ChildView, next_action_sequence: u64) -> bool {
    &&& child.path.len() > 0
    &&& child.min_key <= u32::MAX
    &&& child.object_size > 0
    &&& child.visible_rows <= child.total_rows
    &&& child.height < u32::MAX
    &&& child.height == 0 ==> child.num_keys > 0 && child.num_children == 0
        && child.materialized_through_action_sequence < next_action_sequence
    &&& child.height > 0 ==> child.num_children >= 2
        && child.materialized_through_action_sequence == 0
}

/// Whether references can stand beside each other in a node that starts at a
/// key: sound, all of one height, in increasing order from that key, and each
/// for another object.
pub open spec fn sound_children(
    children: Seq<ChildView>,
    next_action_sequence: u64,
    lower_bound: u64,
) -> bool {
    &&& children.len() > 0 ==> children[0].min_key == lower_bound
    &&& forall|i: int|
        0 <= i < children.len() ==> sound_child(#[trigger] children[i], next_action_sequence)
            && children[i].height == children[0].height
    &&& forall|i: int, j: int|
        0 <= i < j < children.len() ==> (#[trigger] children[i]).min_key < (
        #[trigger] children[j]).min_key && !(children[i].path == children[j].path
            && children[i].base_id == children[j].base_id)
}

/// A list of children is accepted exactly where they are sound and can stand
/// beside each other.
pub proof fn law_children_are_accepted_where_sound(
    children: Seq<ChildView>,
    next_action_sequence: u64,
    lower_bound: u64,
)
    ensures
        validation::children_fault(
            children,
            children.len() as int,
            next_action_sequence,
            lower_bound,
        ) is None == sound_children(children, next_action_sequence, lower_bound),
{
    lemma_children_accepted(
        children,
        children.len() as int,
        next_action_sequence,
        lower_bound,
    );
    assert(children.take(children.len() as int) =~= children);
}

pub proof fn lemma_children_accepted(
    children: Seq<ChildView>,
    n: int,
    next_action_sequence: u64,
    lower_bound: u64,
)
    requires
        0 <= n <= children.len(),
    ensures
        validation::children_fault(children, n, next_action_sequence, lower_bound) is None
            == sound_children(children.take(n), next_action_sequence, lower_bound),
    decreases n,
{
    if n > 0 {
        lemma_children_accepted(children, n - 1, next_action_sequence, lower_bound);
        let less = children.take(n - 1);
        let part = children.take(n);
        let last = children[n - 1];
        assert(part[n - 1] == last);
        assert(part[0] == children[0]);
        assert forall|i: int| 0 <= i < n - 1 implies less[i] == #[trigger] part[i] by {}
        if validation::children_fault(children, n, next_action_sequence, lower_bound) is None {
            validation::lemma_children_pass(children, n, next_action_sequence, lower_bound);
            assert(!validation::child_invalid(children, n - 1, next_action_sequence, lower_bound));
            assert forall|i: int| 0 <= i < n implies sound_child(
                #[trigger] part[i],
                next_action_sequence,
            ) && part[i].height == part[0].height by {
                if i < n - 1 {
                    assert(sound_child(less[i], next_action_sequence));
                }
            }
            assert forall|i: int, j: int| 0 <= i < j < part.len() implies (
            #[trigger] part[i]).min_key < (#[trigger] part[j]).min_key && !(part[i].path
                == part[j].path && part[i].base_id == part[j].base_id) by {
                assert(part[i] == children[i] && part[j] == children[j]);
                if j < n - 1 {
                    assert(less[i] == part[i] && less[j] == part[j]);
                } else if part[i].path == part[j].path && part[i].base_id == part[j].base_id {
                    assert(children[i].loc() == children[n - 1].loc());
                    assert(validation::named_before(children, n - 1));
                }
            }
        }
        if sound_children(part, next_action_sequence, lower_bound) {
            assert forall|i: int, j: int| 0 <= i < j < less.len() implies (
            #[trigger] less[i]).min_key < (#[trigger] less[j]).min_key && !(less[i].path
                == less[j].path && less[i].base_id == less[j].base_id) by {
                assert(less[i] == part[i] && less[j] == part[j]);
            }
            assert forall|i: int| 0 <= i < less.len() implies sound_child(
                #[trigger] less[i],
                next_action_sequence,
            ) && less[i].height == less[0].height by {
                assert(less[i] == part[i]);
            }
            assert(sound_children(less, next_action_sequence, lower_bound));
            assert(sound_child(part[n - 1], next_action_sequence));
            if validation::named_before(children, n - 1) {
                let j = choose|j: int|
                    0 <= j < n - 1 && (#[trigger] children[j]).loc() == children[n - 1].loc();
                assert(part[j] == children[j]);
                assert(part[j].min_key < part[n - 1].min_key);
            }
            if n > 1 {
                assert(part[n - 2] == children[n - 2]);
                assert(part[n - 2].min_key < part[n - 1].min_key);
            }
        }
    }
}

// Buffers.

/// Whether a stored deletion file is an array or a bitmap.
pub open spec fn sound_deletion(file: DeletionFile) -> bool {
    file.file_type == 0 || file.file_type == 1
}

/// Whether a mutation by itself is one that a writer stores.
pub open spec fn sound_mutation(m: MutationView) -> bool {
    match m.action {
        Some(Some(action)) => match action {
            ActionView::AddFragment(f) => {
                &&& f.id <= u32::MAX
                &&& f.physical_rows <= usize::MAX
                &&& f.deletion_file matches Some(file) ==> file.num_deleted_rows
                    <= f.physical_rows && sound_deletion(file)
            },
            ActionView::RemoveFragment(id) => id <= u32::MAX,
            ActionView::AddDataFile { frag_id, file } => frag_id <= u32::MAX && file is Some,
            ActionView::RemoveDataFile { frag_id, .. } => frag_id <= u32::MAX,
            ActionView::ReplaceDataFile { frag_id, expected_path, path, .. } => frag_id
                <= u32::MAX && expected_path.len() > 0 && path.len() > 0,
            ActionView::AddDeletionFile { frag_id, deletion_file } => frag_id <= u32::MAX
                && deletion_file is Some,
            ActionView::ClearDeletionFile { frag_id } => frag_id <= u32::MAX,
        },
        _ => false,
    }
}

/// Whether mutations can stand in one buffer: sound, and each at a place of its
/// own within a range of the commit order.
pub open spec fn sound_buffer(buffer: Seq<MutationView>, first: u64, next: u64) -> bool {
    &&& forall|i: int|
        0 <= i < buffer.len() ==> sound_mutation(#[trigger] buffer[i]) && first
            <= buffer[i].action_sequence < next
    &&& forall|i: int, j: int|
        0 <= i < j < buffer.len() ==> (#[trigger] buffer[i]).action_sequence != (
        #[trigger] buffer[j]).action_sequence
}

/// A mutation is refused exactly where it is not sound.
pub proof fn law_mutation_is_refused_unless_sound(m: MutationView)
    ensures
        m.fault() is None == sound_mutation(m),
        m.fault() is None ==> (m.action matches Some(Some(action)) && m.key() == action.target()),
{
}

/// A buffer is accepted exactly where its mutations are sound and can stand
/// beside each other.
pub proof fn law_buffer_is_accepted_where_sound(
    buffer: Seq<MutationView>,
    first: u64,
    next: u64,
)
    ensures
        validation::buffer_fault(buffer, buffer.len() as int, first, next) is None
            == sound_buffer(buffer, first, next),
{
    lemma_buffer_accepted(buffer, buffer.len() as int, first, next);
    assert(buffer.take(buffer.len() as int) =~= buffer);
}

pub proof fn lemma_buffer_accepted(buffer: Seq<MutationView>, n: int, first: u64, next: u64)
    requires
        0 <= n <= buffer.len(),
    ensures
        validation::buffer_fault(buffer, n, first, next) is None == sound_buffer(
            buffer.take(n),
            first,
            next,
        ),
    decreases n,
{
    if n > 0 {
        lemma_buffer_accepted(buffer, n - 1, first, next);
        let less = buffer.take(n - 1);
        let part = buffer.take(n);
        assert(part[n - 1] == buffer[n - 1]);
        assert forall|i: int| 0 <= i < n - 1 implies less[i] == #[trigger] part[i] by {}
        if validation::buffer_fault(buffer, n, first, next) is None {
            assert forall|i: int| 0 <= i < n implies sound_mutation(#[trigger] part[i]) && first
                <= part[i].action_sequence < next by {
                if i < n - 1 {
                    assert(sound_mutation(less[i]));
                }
            }
            assert forall|i: int, j: int| 0 <= i < j < part.len() implies (
            #[trigger] part[i]).action_sequence != (#[trigger] part[j]).action_sequence by {
                if j < n - 1 {
                    assert(less[i] == part[i] && less[j] == part[j]);
                } else if part[i].action_sequence == part[j].action_sequence {
                    assert(buffer[i].action_sequence == buffer[n - 1].action_sequence);
                    assert(validation::used_before(buffer, n - 1, buffer[n - 1].action_sequence));
                }
            }
        }
        if sound_buffer(part, first, next) {
            assert forall|i: int, j: int| 0 <= i < j < less.len() implies (
            #[trigger] less[i]).action_sequence != (#[trigger] less[j]).action_sequence by {
                assert(less[i] == part[i] && less[j] == part[j]);
            }
            assert forall|i: int| 0 <= i < less.len() implies sound_mutation(#[trigger] less[i])
                && first <= less[i].action_sequence < next by {
                assert(less[i] == part[i]);
            }
            assert(sound_mutation(part[n - 1]));
            if validation::used_before(buffer, n - 1, buffer[n - 1].action_sequence) {
                let j = choose|j: int|
                    0 <= j < n - 1 && (#[trigger] buffer[j]).action_sequence
                        == buffer[n - 1].action_sequence;
                assert(part[j] == buffer[j]);
                assert(part[j].action_sequence != part[n - 1].action_sequence);
            }
        }
    }
}

/// The totals of an accepted root are what its children and its buffer come
/// to. Its children start at zero, its buffer stays below its own place in the
/// commit order and names fragments below the frontier only, and without a
/// frontier it is empty.
pub proof fn law_root_totals_count_its_children(
    children: Seq<ChildView>,
    buffer: Seq<MutationView>,
    next_action_sequence: u64,
    next_fragment_id: u64,
)
    requires
        validation::root_totals(children, buffer, next_action_sequence, next_fragment_id) is Ok,
    ensures
        ({
            let totals = validation::root_totals(
                children,
                buffer,
                next_action_sequence,
                next_fragment_id,
            )->Ok_0;
            let amounts = node_amounts(children, buffer);
            &&& totals.0 == amounts.0
            &&& totals.1 == amounts.1
            &&& totals.2 == amounts.2
            &&& totals.2 <= totals.1
        }),
        next_action_sequence > 0,
        sound_children(children, next_action_sequence, 0),
        sound_buffer(buffer, 1, next_action_sequence),
        next_fragment_id == 0 ==> children.len() == 0 && buffer.len() == 0,
        forall|i: int|
            0 <= i < buffer.len() ==> ((#[trigger] buffer[i]).action matches Some(Some(action))
                && action.target() < next_fragment_id),
{
    lemma_node_amounts(Seq::empty(), children, buffer, 0);
    law_children_are_accepted_where_sound(children, next_action_sequence, 0);
    law_buffer_is_accepted_where_sound(buffer, 1, next_action_sequence);
    assert forall|i: int| 0 <= i < buffer.len() implies ((#[trigger] buffer[i]).action matches Some(
        Some(action),
    ) && action.target() < next_fragment_id) by {
        assert(sound_mutation(buffer[i]));
        assert(buffer[i].key() < next_fragment_id);
    }
}

// Reading.

/// Whether one of two places is the other.
pub open spec fn at_place(path: Seq<char>, base_id: Option<u32>, child: ChildView) -> bool {
    path == child.path && base_id == child.base_id
}

proof fn lemma_ascending_is_ordered(fragments: Seq<FragmentView>, n: int)
    requires
        0 <= n <= fragments.len(),
        forall|i: int, j: int|
            0 <= i < j < n ==> (#[trigger] fragments[i]).id < (#[trigger] fragments[j]).id,
    ensures
        store::misordered(fragments, n) is None,
    decreases n,
{
    if n > 1 {
        lemma_ascending_is_ordered(fragments, n - 1);
        assert(fragments[n - 2].id < fragments[n - 1].id);
    }
}

/// A leaf that is known is read exactly where it is what the reference says: it
/// has the declared size, its records are in increasing order of their ids from
/// the fence on, and there are as many of them, with as many rows and rows not
/// deleted, as declared. What is read are its records under the reference's
/// owner.
pub proof fn law_leaf_is_read_where_it_agrees(known: StoreView, child: ChildView, at: int)
    requires
        0 <= at < known.leaves.len(),
        at_place(known.leaves[at].loc.path, known.leaves[at].loc.base_id, child),
        forall|i: int|
            0 <= i < at ==> !at_place(
                (#[trigger] known.leaves[i]).loc.path,
                known.leaves[i].loc.base_id,
                child,
            ),
        known.leaves[at].fragments.len() <= u64::MAX,
    ensures
        ({
            let stored = known.leaves[at];
            let records = stored.fragments;
            let r = store::leaf_read(known, child);
            &&& r is Ok == {
                &&& child.object_size <= usize::MAX
                &&& stored.object_size == child.object_size
                &&& forall|i: int, j: int|
                    0 <= i < j < records.len() ==> (#[trigger] records[i]).id < (
                    #[trigger] records[j]).id
                &&& records.len() == 0 ==> child.min_key == 0
                &&& records.len() > 0 ==> child.min_key <= records[0].id
                &&& child.num_keys == records.len()
                &&& child.total_rows == rows_of(records)
                &&& child.visible_rows == rows_left_of(records)
            }
            &&& r matches Ok(read) ==> read == inherit::inherited_records(records, child.base_id)
            &&& r matches Err(error) ==> error is Some
        }),
{
    let stored = known.leaves[at];
    let records = stored.fragments;
    let found = store::leaf_index(known.leaves, child.loc());
    store::lemma_leaf_index(known.leaves, child.loc());
    assert(stored.loc == child.loc());
    if found < at {
        assert(known.leaves[found].loc == child.loc());
    }
    assert(found == at);
    law_leaf_reference_counts_its_records(
        child.path,
        records,
        child.object_size,
        child.materialized_through_action_sequence,
    );
    let n = records.len() as int;
    if store::misordered(records, n) is None {
        store::lemma_misordered(records, n);
        assert(records.take(n) =~= records);
        assert(store::ascending(records));
    }
    if forall|i: int, j: int|
        0 <= i < j < records.len() ==> (#[trigger] records[i]).id < (#[trigger] records[j]).id {
        lemma_ascending_is_ordered(records, n);
    }
}

/// A leaf or node that is not known is asked for.
pub proof fn law_unknown_object_is_asked_for(known: StoreView, child: ChildView)
    requires
        child.object_size <= usize::MAX,
    ensures
        store::leaf_read(known, child) == Err::<Seq<FragmentView>, Option<Error>>(None) <==> (forall|
            i: int,
        |
            0 <= i < known.leaves.len() ==> !at_place(
                (#[trigger] known.leaves[i]).loc.path,
                known.leaves[i].loc.base_id,
                child,
            )),
        store::node_read(known, child) == Err::<
            (Seq<ChildView>, Seq<MutationView>),
            Option<Error>,
        >(None) <==> (forall|i: int|
            0 <= i < known.nodes.len() ==> !at_place(
                (#[trigger] known.nodes[i]).loc.path,
                known.nodes[i].loc.base_id,
                child,
            )),
{
    store::lemma_leaf_index(known.leaves, child.loc());
    store::lemma_node_index(known.nodes, child.loc());
    let l = store::leaf_index(known.leaves, child.loc());
    let n = store::node_index(known.nodes, child.loc());
    if l < known.leaves.len() {
        assert(at_place(known.leaves[l].loc.path, known.leaves[l].loc.base_id, child));
    }
    if n < known.nodes.len() {
        assert(at_place(known.nodes[n].loc.path, known.nodes[n].loc.base_id, child));
    }
}

/// A node that is read is what the reference says: it has the declared size,
/// its children and buffer are sound, and they come to the declared amounts one
/// level above the children. What is read are its children and buffer under the
/// reference's owner.
pub proof fn law_node_is_read_where_it_agrees(known: StoreView, child: ChildView, at: int)
    requires
        0 <= at < known.nodes.len(),
        at_place(known.nodes[at].loc.path, known.nodes[at].loc.base_id, child),
        forall|i: int|
            0 <= i < at ==> !at_place(
                (#[trigger] known.nodes[i]).loc.path,
                known.nodes[i].loc.base_id,
                child,
            ),
    ensures
        ({
            let stored = known.nodes[at];
            let r = store::node_read(known, child);
            &&& r matches Err(error) ==> error is Some
            &&& r matches Ok(read) ==> {
                let amounts = node_amounts(stored.children, stored.buffer);
                &&& stored.object_size == child.object_size
                &&& sound_children(stored.children, known.next_action_sequence, child.min_key)
                &&& sound_buffer(stored.buffer, 1, known.next_action_sequence)
                &&& child.num_keys == amounts.0
                &&& child.total_rows == amounts.1
                &&& child.visible_rows == amounts.2
                &&& child.num_children == stored.children.len() as u32
                &&& stored.children.len() > 0 ==> child.height == stored.children[0].height + 1
                &&& read.0 == inherit::inherited_children(stored.children, child.base_id)
                &&& read.1 == inherit::inherited_buffer(stored.buffer, child.base_id)
            }
        }),
{
    let stored = known.nodes[at];
    let found = store::node_index(known.nodes, child.loc());
    store::lemma_node_index(known.nodes, child.loc());
    assert(stored.loc == child.loc());
    if found < at {
        assert(known.nodes[found].loc == child.loc());
    }
    assert(found == at);
    law_children_are_accepted_where_sound(
        stored.children,
        known.next_action_sequence,
        child.min_key,
    );
    law_buffer_is_accepted_where_sound(stored.buffer, 1, known.next_action_sequence);
    lemma_node_amounts(child.path, stored.children, stored.buffer, stored.object_size);
    lemma_max_height(stored.children);
    if stored.children.len() > 0 && sound_children(
        stored.children,
        known.next_action_sequence,
        child.min_key,
    ) {
        let h = node::max_height(stored.children);
        assert(stored.children[0].height <= h);
        if h != 0 {
            let i = choose|i: int|
                0 <= i < stored.children.len() && (#[trigger] stored.children[i]).height == h;
            assert(stored.children[i].height == stored.children[0].height);
        }
    }
}

// Limits and routing.

/// A node owns a key where its range holds it: a key goes to the last child
/// that starts at or below it, and to the first where none does.
pub proof fn law_key_goes_to_the_child_that_holds_it(children: Seq<ChildView>, key: u64, i: int)
    requires
        0 <= i < children.len(),
        forall|a: int, b: int|
            0 <= a < b < children.len() ==> (#[trigger] children[a]).min_key < (
            #[trigger] children[b]).min_key,
    ensures
        node::route(children, key) == i <==> {
            &&& i == 0 || children[i].min_key <= key
            &&& i + 1 == children.len() || key < children[i + 1].min_key
        },
{
    node::lemma_route(children, key);
    let r = node::route(children, key);
    if r < i {
        assert(key < children[i].min_key);
    }
    if i < r {
        assert(children[r].min_key <= key);
        if i + 1 < r {
            assert(children[i + 1].min_key < children[r].min_key);
        }
    }
}

/// A child's range ends where the next one starts; the last one ends with its
/// parent.
pub proof fn law_range_ends_at_the_next_child(children: Seq<ChildView>, i: int, parent_end: u64)
    requires
        0 <= i < children.len(),
    ensures
        i + 1 < children.len() ==> node::end_of(children, i, parent_end) == children[i + 1].min_key,
        i + 1 == children.len() ==> node::end_of(children, i, parent_end) == parent_end,
{
}

} // verus!
