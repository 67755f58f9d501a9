//! An index from fragments to their places in a buffer.

use vstd::prelude::*;

use crate::node;
use crate::pb::{FragmentMetadataMutation, MutationView};
use crate::views;

verus! {

broadcast use crate::views::group_views;

/// The positions of a fragment's mutations in a buffer, in increasing order.
pub open spec fn positions(buffer: Seq<MutationView>, key: u64) -> Seq<usize>
    decreases buffer.len(),
{
    if buffer.len() == 0 {
        Seq::empty()
    } else {
        let rest = positions(buffer.drop_last(), key);
        if buffer.last().key() == key {
            rest.push((buffer.len() - 1) as usize)
        } else {
            rest
        }
    }
}

/// The entries of one fragment.
spec fn entries(offsets: Seq<(u64, usize)>, key: u64) -> Seq<(u64, usize)> {
    offsets.filter(owned(key))
}

spec fn owned(key: u64) -> spec_fn((u64, usize)) -> bool {
    |entry: (u64, usize)| entry.0 == key
}

/// Whether entries are in order of their fragments.
spec fn grouped(offsets: Seq<(u64, usize)>) -> bool {
    forall|i: int, j: int|
        0 <= i < j < offsets.len() ==> (#[trigger] offsets[i]).0 <= (#[trigger] offsets[j]).0
}

spec fn offsets_of(entries: Seq<(u64, usize)>) -> Seq<usize> {
    entries.map_values(|entry: (u64, usize)| entry.1)
}

/// Derived offsets into an immutable buffer. The wire representation stays a
/// plain action sequence; a sparse lookup need not examine unrelated actions.
pub struct BufferIndex {
    offsets: Vec<(u64, usize)>,
}

proof fn lemma_entries_none(offsets: Seq<(u64, usize)>, key: u64)
    requires
        forall|i: int| 0 <= i < offsets.len() ==> (#[trigger] offsets[i]).0 != key,
    ensures
        entries(offsets, key) == Seq::<(u64, usize)>::empty(),
    decreases offsets.len(),
{
    let pred = owned(key);
    if offsets.len() > 0 {
        let rest = offsets.drop_last();
        lemma_entries_none(rest, key);
        assert(offsets =~= rest.push(offsets.last()));
        rest.lemma_filter_push(offsets.last(), pred);
        assert(offsets.last() == offsets[offsets.len() - 1]);
    } else {
        assert(offsets.filter(pred) =~= offsets);
    }
}

proof fn lemma_entries_all(offsets: Seq<(u64, usize)>, key: u64)
    requires
        forall|i: int| 0 <= i < offsets.len() ==> (#[trigger] offsets[i]).0 == key,
    ensures
        entries(offsets, key) == offsets,
    decreases offsets.len(),
{
    let pred = owned(key);
    if offsets.len() > 0 {
        let rest = offsets.drop_last();
        lemma_entries_all(rest, key);
        assert(offsets =~= rest.push(offsets.last()));
        rest.lemma_filter_push(offsets.last(), pred);
        assert(offsets.last() == offsets[offsets.len() - 1]);
    } else {
        assert(offsets.filter(pred) =~= offsets);
    }
}

/// Putting an entry behind those of smaller and equal fragments.
proof fn lemma_entries_insert(offsets: Seq<(u64, usize)>, at: int, x: (u64, usize), key: u64)
    requires
        0 <= at <= offsets.len(),
        forall|i: int| at <= i < offsets.len() ==> (#[trigger] offsets[i]).0 > x.0,
    ensures
        entries(offsets.insert(at, x), key) == if key == x.0 {
            entries(offsets, key).push(x)
        } else {
            entries(offsets, key)
        },
{
    let pred = owned(key);
    let a = offsets.take(at);
    let b = offsets.skip(at);
    assert(offsets =~= a + b);
    assert(offsets.insert(at, x) =~= a.push(x) + b);
    Seq::filter_distributes_over_add(a, b, pred);
    Seq::filter_distributes_over_add(a.push(x), b, pred);
    a.lemma_filter_push(x, pred);
    if key == x.0 {
        assert forall|i: int| 0 <= i < b.len() implies (#[trigger] b[i]).0 != key by {
            assert(b[i] == offsets[at + i]);
        }
        lemma_entries_none(b, key);
        assert(entries(offsets.insert(at, x), key) =~= entries(offsets, key).push(x));
    }
}

impl BufferIndex {
    /// The buffer positions an index gives for a fragment.
    pub closed spec fn lookup(self, key: u64) -> Seq<usize> {
        offsets_of(entries(self.offsets@, key))
    }

    #[verifier::type_invariant]
    spec fn inv(self) -> bool {
        grouped(self.offsets@)
    }

    pub fn new(buffer: &Vec<FragmentMetadataMutation>) -> (r: Self)
        ensures
            forall|key: u64| #[trigger]
                r.lookup(key) == positions(views::all(buffer@), key),
    {
        let ghost all = views::all(buffer@);
        let mut offsets: Vec<(u64, usize)> = Vec::new();
        let mut i: usize = 0;
        proof {
            assert forall|key: u64| #[trigger] offsets_of(entries(offsets@, key)) == positions(
                all.take(0),
                key,
            ) by {
                lemma_entries_none(offsets@, key);
                assert(offsets_of(entries(offsets@, key)) =~= Seq::<usize>::empty());
            }
        }
        while i < buffer.len()
            invariant
                i <= buffer@.len(),
                all == views::all(buffer@),
                grouped(offsets@),
                forall|key: u64| #[trigger]
                    offsets_of(entries(offsets@, key)) == positions(all.take(i as int), key),
            decreases buffer@.len() - i,
        {
            let key: u64 = node::action_key(&buffer[i]);
            let mut at: usize = offsets.len();
            while at > 0 && offsets[at - 1].0 > key
                invariant
                    at <= offsets@.len(),
                    forall|k: int| at <= k < offsets@.len() ==> (#[trigger] offsets@[k]).0 > key,
                decreases at,
            {
                at = at - 1;
            }
            let ghost before = offsets@;
            offsets.insert(at, (key, i));
            proof {
                assert(all.take(i + 1).drop_last() =~= all.take(i as int));
                assert(all.take(i + 1).last() == buffer@[i as int]@);
                assert forall|k: u64| #[trigger] offsets_of(entries(offsets@, k)) == positions(
                    all.take(i + 1),
                    k,
                ) by {
                    lemma_entries_insert(before, at as int, (key, i), k);
                    assert(offsets_of(entries(before, k)) == positions(all.take(i as int), k));
                    assert(offsets_of(entries(before, k).push((key, i))) =~= offsets_of(
                        entries(before, k),
                    ).push(i));
                }
                assert forall|a: int, b: int| 0 <= a < b < offsets@.len() implies (
                #[trigger] offsets@[a]).0 <= (#[trigger] offsets@[b]).0 by {
                    let p = if a < at {
                        a
                    } else {
                        a - 1
                    };
                    let q = if b < at {
                        b
                    } else {
                        b - 1
                    };
                    if a == at {
                        assert(offsets@[b] == before[q]);
                    } else if b == at {
                        assert(offsets@[a] == before[p]);
                        if p < at - 1 {
                            assert(before[p].0 <= before[at - 1].0);
                        }
                    } else {
                        assert(offsets@[a] == before[p] && offsets@[b] == before[q]);
                    }
                }
            }
            i = i + 1;
        }
        assert(all.take(all.len() as int) =~= all);
        BufferIndex { offsets }
    }

    /// The buffer positions of a fragment's mutations.
    pub fn for_fragment(&self, id: u64) -> (r: Vec<usize>)
        ensures
            r@ == self.lookup(id),
    {
        proof {
            use_type_invariant(self);
        }
        let ghost all = self.offsets@;
        let mut low: usize = 0;
        let mut high: usize = self.offsets.len();
        while low < high
            invariant
                low <= high <= all.len(),
                all == self.offsets@,
                grouped(all),
                forall|k: int| 0 <= k < low ==> (#[trigger] all[k]).0 < id,
                forall|k: int| high <= k < all.len() ==> (#[trigger] all[k]).0 >= id,
            decreases high - low,
        {
            let middle: usize = low + (high - low) / 2;
            if self.offsets[middle].0 < id {
                assert forall|k: int| 0 <= k < middle + 1 implies (#[trigger] all[k]).0 < id by {
                    if k < middle {
                        assert(all[k].0 <= all[middle as int].0);
                    }
                }
                low = middle + 1;
            } else {
                assert forall|k: int| middle <= k < all.len() implies (#[trigger] all[k]).0
                    >= id by {
                    if k > middle {
                        assert(all[middle as int].0 <= all[k].0);
                    }
                }
                high = middle;
            }
        }
        let start: usize = low;
        let mut end: usize = start;
        let mut out: Vec<usize> = Vec::new();
        assert(all.subrange(start as int, start as int) =~= Seq::<(u64, usize)>::empty());
        assert(out@ =~= offsets_of(all.subrange(start as int, start as int)));
        while end < self.offsets.len() && self.offsets[end].0 == id
            invariant
                start <= end <= all.len(),
                all == self.offsets@,
                forall|k: int| start <= k < end ==> (#[trigger] all[k]).0 == id,
                out@ == offsets_of(all.subrange(start as int, end as int)),
            decreases all.len() - end,
        {
            out.push(self.offsets[end].1);
            assert(out@ =~= offsets_of(all.subrange(start as int, end + 1)));
            end = end + 1;
        }
        proof {
            let a = all.take(start as int);
            let b = all.subrange(start as int, end as int);
            let c = all.skip(end as int);
            let pred = owned(id);
            assert(all =~= a + b + c);
            Seq::filter_distributes_over_add(a + b, c, pred);
            Seq::filter_distributes_over_add(a, b, pred);
            lemma_entries_none(a, id);
            assert forall|i: int| 0 <= i < b.len() implies (#[trigger] b[i]).0 == id by {
                assert(b[i] == all[start + i]);
            }
            lemma_entries_all(b, id);
            assert forall|i: int| 0 <= i < c.len() implies (#[trigger] c[i]).0 != id by {
                assert(c[i] == all[end + i]);
                assert(all[end as int].0 != id && all[end as int].0 >= id);
                if i > 0 {
                    assert(all[end as int].0 <= all[end + i].0);
                }
            }
            lemma_entries_none(c, id);
            assert(entries(all, id) =~= b);
        }
        out
    }
}

/// An index gives of a fragment every position in the buffer that holds one of
/// its mutations, and no other, in increasing order.
pub proof fn law_index_gives_every_position(buffer: Seq<MutationView>, key: u64)
    requires
        buffer.len() <= usize::MAX,
    ensures
        ({
            let found = positions(buffer, key);
            &&& forall|i: int| 0 <= i < found.len() ==> #[trigger] found[i] < buffer.len()
            &&& forall|i: int|
                0 <= i < found.len() ==> buffer[(#[trigger] found[i]) as int].key() == key
            &&& forall|i: int, j: int|
                0 <= i < j < found.len() ==> (#[trigger] found[i]) < (#[trigger] found[j])
            &&& forall|at: int|
                0 <= at < buffer.len() && (#[trigger] buffer[at]).key() == key ==> found.contains(
                    at as usize,
                )
        }),
    decreases buffer.len(),
{
    if buffer.len() > 0 {
        let rest = buffer.drop_last();
        let n = rest.len() as int;
        law_index_gives_every_position(rest, key);
        let less = positions(rest, key);
        let found = positions(buffer, key);
        assert(buffer[n] == buffer.last());
        assert forall|i: int| 0 <= i < less.len() implies less[i] < n && rest[(
        #[trigger] less[i]) as int] == buffer[less[i] as int] by {}
        assert forall|i: int| 0 <= i < found.len() implies buffer[(
        #[trigger] found[i]) as int].key() == key by {
            if i < less.len() {
                assert(found[i] == less[i]);
            }
        }
        assert forall|at: int|
            0 <= at < buffer.len() && (#[trigger] buffer[at]).key() == key implies found.contains(
            at as usize,
        ) by {
            if at < n {
                assert(rest[at] == buffer[at]);
                assert(less.contains(at as usize));
                let i = choose|i: int| 0 <= i < less.len() && less[i] == at as usize;
                assert(found[i] == at as usize);
            } else {
                assert(found[found.len() - 1] == at as usize);
            }
        }
    }
}

} // verus!
