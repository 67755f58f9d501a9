//! Counting the visible rows of records in their order.

use vstd::prelude::*;

use crate::reading_laws;
use crate::record::FragmentView;
use crate::views;

verus! {

broadcast use crate::views::group_views;

/// Where a row lives: the record holding it and the row's place among the
/// record's visible rows.
pub enum OffsetView {
    Found(FragmentView, u64),
    BeyondEnd,
}

/// The rows of a record that can be seen; none where the counts are not known.
pub open spec fn visible(fragment: FragmentView) -> u64 {
    match fragment.num_rows() {
        Some(rows) => rows as u64,
        None => 0,
    }
}

/// The record that holds a row, counting the visible rows of the records in
/// their order.
pub open spec fn at_offset(records: Seq<FragmentView>, offset: u64) -> OffsetView
    decreases records.len(),
{
    if records.len() == 0 {
        OffsetView::BeyondEnd
    } else if offset < visible(records[0]) {
        OffsetView::Found(records[0], offset)
    } else {
        at_offset(records.skip(1), (offset - visible(records[0])) as u64)
    }
}

/// The visible rows of some records.
pub open spec fn total(records: Seq<FragmentView>) -> nat
    decreases records.len(),
{
    if records.len() == 0 {
        0
    } else {
        total(records.drop_last()) + visible(records.last()) as nat
    }
}

pub proof fn lemma_total_join(a: Seq<FragmentView>, b: Seq<FragmentView>)
    ensures
        total(a + b) == total(a) + total(b),
    decreases b.len(),
{
    if b.len() == 0 {
        assert(a + b =~= a);
    } else {
        assert((a + b).drop_last() =~= a + b.drop_last());
        lemma_total_join(a, b.drop_last());
    }
}

pub proof fn lemma_total_first(records: Seq<FragmentView>)
    requires
        records.len() > 0,
    ensures
        total(records) == visible(records[0]) as nat + total(records.skip(1)),
{
    let one = seq![records[0]];
    lemma_total_join(one, records.skip(1));
    assert(records =~= one + records.skip(1));
    assert(one.drop_last() =~= Seq::<FragmentView>::empty());
    assert(total(one) == total(Seq::<FragmentView>::empty()) + visible(
        records[0],
    ) as nat);
}

/// A row is found where the visible rows of the records before it and the
/// place within the record add up to the offset; it is not found where there
/// are not that many rows.
pub proof fn law_offset_counts_visible_rows(records: Seq<FragmentView>, place: u64)
    ensures
        at_offset(records, place) is BeyondEnd <==> place >= total(records),
        place < total(records) ==> exists|i: int|
            0 <= i < records.len() && at_offset(records, place) == OffsetView::Found(
                records[i],
                (place - total(#[trigger] records.take(i))) as u64,
            ) && total(records.take(i)) <= place < total(records.take(i)) + visible(
                records[i],
            ),
    decreases records.len(),
{
    if records.len() > 0 {
        lemma_total_first(records);
        let rows = visible(records[0]);
        if place < rows {
            assert(records.take(0) =~= Seq::<FragmentView>::empty());
            assert(total(records.take(0)) == 0);
        } else {
            let rest = records.skip(1);
            let left = (place - rows) as u64;
            law_offset_counts_visible_rows(rest, left);
            if place < total(records) {
                let i = choose|i: int|
                    0 <= i < rest.len() && at_offset(rest, left) == OffsetView::Found(
                        rest[i],
                        (left - total(#[trigger] rest.take(i))) as u64,
                    ) && total(rest.take(i)) <= left < total(rest.take(i)) + visible(
                        rest[i],
                    );
                let whole = records.take(i + 1);
                assert(whole.skip(1) =~= rest.take(i));
                lemma_total_first(whole);
                assert(rest[i] == records[i + 1]);
                assert(total(records.take(i + 1)) == rows + total(rest.take(i)));
            }
        }
    }
}

/// Finding a row in one list of records behind another.
pub proof fn lemma_offset_join(a: Seq<FragmentView>, b: Seq<FragmentView>, place: u64)
    ensures
        at_offset(a + b, place) == if place < total(a) {
            at_offset(a, place)
        } else {
            at_offset(b, (place - total(a)) as u64)
        },
    decreases a.len(),
{
    if a.len() == 0 {
        assert(a + b =~= b);
    } else {
        lemma_total_first(a);
        assert((a + b)[0] == a[0]);
        assert((a + b).skip(1) =~= a.skip(1) + b);
        if place >= visible(a[0]) {
            lemma_offset_join(a.skip(1), b, (place - visible(a[0])) as u64);
        }
    }
}

/// The rows that are counted are those that are not deleted.
pub proof fn law_total_counts_the_rows_left(records: Seq<FragmentView>)
    ensures
        total(records) == reading_laws::rows_left_of(records),
    decreases records.len(),
{
    let counts = Seq::new(records.len(), |i: int| reading_laws::rows_left(records[i]));
    if records.len() > 0 {
        let rest = records.drop_last();
        law_total_counts_the_rows_left(rest);
        assert(counts.drop_last() =~= Seq::new(
            rest.len(),
            |i: int| reading_laws::rows_left(rest[i]),
        ));
    }
}

} // verus!
