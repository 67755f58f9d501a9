//! What putting records, mutations and references in order does to them.

use vstd::prelude::*;

use crate::leaves;
use crate::order;
use crate::pb::{ChildView, MutationView};
use crate::record::FragmentView;
use crate::tree::survey;

verus! {

proof fn lemma_filter_push<T>(s: Seq<T>, x: T, pred: spec_fn(T) -> bool)
    ensures
        s.push(x).filter(pred) == if pred(x) {
            s.filter(pred).push(x)
        } else {
            s.filter(pred)
        },
{
    reveal(Seq::filter);
    assert(s.push(x).drop_last() =~= s);
}

/// The records of one id, in the order they stand in.
pub open spec fn with_id(records: Seq<FragmentView>, id: u64) -> Seq<FragmentView> {
    records.filter(|f: FragmentView| f.id == id)
}

proof fn lemma_placed_record(records: Seq<FragmentView>, x: FragmentView, id: u64)
    requires
        leaves::in_order(records),
    ensures
        leaves::in_order(leaves::placed(records, x)),
        leaves::placed(records, x).len() == records.len() + 1,
        with_id(leaves::placed(records, x), id) == if x.id == id {
            with_id(records, id).push(x)
        } else {
            with_id(records, id)
        },
        forall|i: int|
            0 <= i <= records.len() ==> (#[trigger] leaves::placed(records, x)[i]) == x
                || records.contains(leaves::placed(records, x)[i]),
    decreases records.len(),
{
    let p = leaves::placed(records, x);
    let pred = |f: FragmentView| f.id == id;
    let n = records.len() as int;
    if n == 0 || records.last().id <= x.id {
        lemma_filter_push(records, x, pred);
        assert forall|i: int| 0 <= i <= n implies (#[trigger] p[i]) == x || records.contains(
            p[i],
        ) by {
            if i < n {
                assert(p[i] == records[i]);
            }
        }
        assert forall|i: int, j: int| 0 <= i < j < p.len() implies (#[trigger] p[i]).id <= (
        #[trigger] p[j]).id by {
            if j == n && i < n - 1 {
                assert(records[i].id <= records[n - 1].id);
            }
        }
    } else {
        let rest = records.drop_last();
        assert forall|i: int, j: int| 0 <= i < j < rest.len() implies (#[trigger] rest[i]).id <= (
        #[trigger] rest[j]).id by {
            assert(rest[i] == records[i] && rest[j] == records[j]);
        }
        lemma_placed_record(rest, x, id);
        let inner = leaves::placed(rest, x);
        lemma_filter_push(inner, records.last(), pred);
        lemma_filter_push(rest, records.last(), pred);
        assert(rest.push(records.last()) =~= records);
        assert forall|i: int, j: int| 0 <= i < j < p.len() implies (#[trigger] p[i]).id <= (
        #[trigger] p[j]).id by {
            assert(p[i] == inner[i]);
            if j < n {
                assert(p[j] == inner[j]);
            } else if inner[i] != x {
                let k = choose|k: int| 0 <= k < rest.len() && rest[k] == inner[i];
                assert(records[k] == inner[i]);
                assert(records[k].id <= records[n - 1].id);
            }
        }
        assert forall|i: int| 0 <= i <= n implies (#[trigger] p[i]) == x || records.contains(
            p[i],
        ) by {
            if i < n {
                assert(p[i] == inner[i]);
                if inner[i] != x {
                    let k = choose|k: int| 0 <= k < rest.len() && rest[k] == inner[i];
                    assert(records[k] == inner[i]);
                }
            } else {
                assert(records[n - 1] == p[i]);
            }
        }
    }
}

/// Records that are sorted are the same records in the order of their ids, and
/// those of one id keep their order.
pub proof fn law_records_are_put_in_order(records: Seq<FragmentView>, id: u64)
    ensures
        ({
            let sorted = leaves::by_id(records);
            &&& sorted.len() == records.len()
            &&& with_id(sorted, id) == with_id(records, id)
            &&& forall|i: int, j: int|
                0 <= i < j < sorted.len() ==> (#[trigger] sorted[i]).id <= (
                #[trigger] sorted[j]).id
        }),
    decreases records.len(),
{
    if records.len() > 0 {
        let rest = records.drop_last();
        law_records_are_put_in_order(rest, id);
        lemma_placed_record(leaves::by_id(rest), records.last(), id);
        lemma_filter_push(rest, records.last(), |f: FragmentView| f.id == id);
        assert(rest.push(records.last()) =~= records);
    }
}

/// Whether a mutation comes no later than another: by its place in the commit
/// order, and where fragments come first by the fragment before that.
pub open spec fn no_later(a: MutationView, b: MutationView, by_key: bool) -> bool {
    if by_key && a.key() != b.key() {
        a.key() < b.key()
    } else {
        a.action_sequence <= b.action_sequence
    }
}

pub open spec fn lined_up(s: Seq<MutationView>, by_key: bool) -> bool {
    forall|i: int, j: int|
        0 <= i < j < s.len() ==> no_later(#[trigger] s[i], #[trigger] s[j], by_key)
}

/// The mutations of one fragment at one place, in the order they stand in.
pub open spec fn at_place(s: Seq<MutationView>, key: u64, place: u64) -> Seq<MutationView> {
    s.filter(|m: MutationView| m.key() == key && m.action_sequence == place)
}

proof fn lemma_inserted(
    s: Seq<MutationView>,
    x: MutationView,
    by_key: bool,
    key: u64,
    place: u64,
)
    requires
        lined_up(s, by_key),
    ensures
        ({
            let p = order::inserted(s, x, by_key);
            &&& lined_up(p, by_key)
            &&& p.len() == s.len() + 1
            &&& at_place(p, key, place) == if x.key() == key && x.action_sequence == place {
                at_place(s, key, place).push(x)
            } else {
                at_place(s, key, place)
            }
            &&& forall|i: int| 0 <= i <= s.len() ==> (#[trigger] p[i]) == x || s.contains(p[i])
        }),
    decreases s.len(),
{
    let p = order::inserted(s, x, by_key);
    let pred = |m: MutationView| m.key() == key && m.action_sequence == place;
    let n = s.len() as int;
    if n == 0 || !order::after(s.last(), x, by_key) {
        lemma_filter_push(s, x, pred);
        assert forall|i: int| 0 <= i <= n implies (#[trigger] p[i]) == x || s.contains(p[i]) by {
            if i < n {
                assert(p[i] == s[i]);
            }
        }
        assert forall|i: int, j: int| 0 <= i < j < p.len() implies no_later(
            #[trigger] p[i],
            #[trigger] p[j],
            by_key,
        ) by {
            if j == n && i < n - 1 {
                assert(no_later(s[i], s[n - 1], by_key));
            }
        }
    } else {
        let rest = s.drop_last();
        assert forall|i: int, j: int| 0 <= i < j < rest.len() implies no_later(
            #[trigger] rest[i],
            #[trigger] rest[j],
            by_key,
        ) by {
            assert(rest[i] == s[i] && rest[j] == s[j]);
        }
        lemma_inserted(rest, x, by_key, key, place);
        let inner = order::inserted(rest, x, by_key);
        lemma_filter_push(inner, s.last(), pred);
        lemma_filter_push(rest, s.last(), pred);
        assert(rest.push(s.last()) =~= s);
        assert forall|i: int, j: int| 0 <= i < j < p.len() implies no_later(
            #[trigger] p[i],
            #[trigger] p[j],
            by_key,
        ) by {
            assert(p[i] == inner[i]);
            if j < n {
                assert(p[j] == inner[j]);
            } else if inner[i] != x {
                let k = choose|k: int| 0 <= k < rest.len() && rest[k] == inner[i];
                assert(s[k] == inner[i]);
                assert(no_later(s[k], s[n - 1], by_key));
            }
        }
        assert forall|i: int| 0 <= i <= n implies (#[trigger] p[i]) == x || s.contains(p[i]) by {
            if i < n {
                assert(p[i] == inner[i]);
                if inner[i] != x {
                    let k = choose|k: int| 0 <= k < rest.len() && rest[k] == inner[i];
                    assert(s[k] == inner[i]);
                }
            } else {
                assert(s[n - 1] == p[i]);
            }
        }
    }
}

/// Mutations that are sorted are the same mutations in the order asked for, and
/// those of one fragment at one place keep their order.
pub proof fn law_mutations_are_put_in_order(
    s: Seq<MutationView>,
    by_key: bool,
    key: u64,
    place: u64,
)
    ensures
        ({
            let sorted = order::sorted(s, by_key);
            &&& sorted.len() == s.len()
            &&& at_place(sorted, key, place) == at_place(s, key, place)
            &&& lined_up(sorted, by_key)
        }),
    decreases s.len(),
{
    if s.len() > 0 {
        let rest = s.drop_last();
        law_mutations_are_put_in_order(rest, by_key, key, place);
        lemma_inserted(order::sorted(rest, by_key), s.last(), by_key, key, place);
        lemma_filter_push(
            rest,
            s.last(),
            |m: MutationView| m.key() == key && m.action_sequence == place,
        );
        assert(rest.push(s.last()) =~= s);
    }
}

/// The references that start at a key, in the order they stand in.
pub open spec fn starting_at(children: Seq<ChildView>, key: u64) -> Seq<ChildView> {
    children.filter(|c: ChildView| c.min_key == key)
}

spec fn rising(children: Seq<ChildView>) -> bool {
    forall|i: int, j: int|
        0 <= i < j < children.len() ==> (#[trigger] children[i]).min_key <= (
        #[trigger] children[j]).min_key
}

proof fn lemma_placed_child(children: Seq<ChildView>, x: ChildView, key: u64)
    requires
        rising(children),
    ensures
        ({
            let p = survey::placed(children, x);
            &&& rising(p)
            &&& p.len() == children.len() + 1
            &&& starting_at(p, key) == if x.min_key == key {
                starting_at(children, key).push(x)
            } else {
                starting_at(children, key)
            }
            &&& forall|i: int|
                0 <= i <= children.len() ==> (#[trigger] p[i]) == x || children.contains(p[i])
        }),
    decreases children.len(),
{
    let p = survey::placed(children, x);
    let pred = |c: ChildView| c.min_key == key;
    let n = children.len() as int;
    if n == 0 || children.last().min_key <= x.min_key {
        lemma_filter_push(children, x, pred);
        assert forall|i: int| 0 <= i <= n implies (#[trigger] p[i]) == x || children.contains(
            p[i],
        ) by {
            if i < n {
                assert(p[i] == children[i]);
            }
        }
        assert forall|i: int, j: int| 0 <= i < j < p.len() implies (#[trigger] p[i]).min_key <= (
        #[trigger] p[j]).min_key by {
            if j == n && i < n - 1 {
                assert(children[i].min_key <= children[n - 1].min_key);
            }
        }
    } else {
        let rest = children.drop_last();
        assert forall|i: int, j: int| 0 <= i < j < rest.len() implies (#[trigger] rest[i]).min_key
            <= (#[trigger] rest[j]).min_key by {
            assert(rest[i] == children[i] && rest[j] == children[j]);
        }
        lemma_placed_child(rest, x, key);
        let inner = survey::placed(rest, x);
        lemma_filter_push(inner, children.last(), pred);
        lemma_filter_push(rest, children.last(), pred);
        assert(rest.push(children.last()) =~= children);
        assert forall|i: int, j: int| 0 <= i < j < p.len() implies (#[trigger] p[i]).min_key <= (
        #[trigger] p[j]).min_key by {
            assert(p[i] == inner[i]);
            if j < n {
                assert(p[j] == inner[j]);
            } else if inner[i] != x {
                let k = choose|k: int| 0 <= k < rest.len() && rest[k] == inner[i];
                assert(children[k] == inner[i]);
                assert(children[k].min_key <= children[n - 1].min_key);
            }
        }
        assert forall|i: int| 0 <= i <= n implies (#[trigger] p[i]) == x || children.contains(
            p[i],
        ) by {
            if i < n {
                assert(p[i] == inner[i]);
                if inner[i] != x {
                    let k = choose|k: int| 0 <= k < rest.len() && rest[k] == inner[i];
                    assert(children[k] == inner[i]);
                }
            } else {
                assert(children[n - 1] == p[i]);
            }
        }
    }
}

/// References that are sorted are the same references in the order of where
/// they start, and those that start at one key keep their order.
pub proof fn law_references_are_put_in_order(children: Seq<ChildView>, key: u64)
    ensures
        ({
            let sorted = survey::by_fence(children);
            &&& sorted.len() == children.len()
            &&& starting_at(sorted, key) == starting_at(children, key)
            &&& forall|i: int, j: int|
                0 <= i < j < sorted.len() ==> (#[trigger] sorted[i]).min_key <= (
                #[trigger] sorted[j]).min_key
        }),
    decreases children.len(),
{
    if children.len() > 0 {
        let rest = children.drop_last();
        law_references_are_put_in_order(rest, key);
        lemma_placed_child(survey::by_fence(rest), children.last(), key);
        lemma_filter_push(rest, children.last(), |c: ChildView| c.min_key == key);
        assert(rest.push(children.last()) =~= children);
    }
}

} // verus!
