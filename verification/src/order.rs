//! The orders mutations are replayed in.

use vstd::prelude::*;

use crate::pb::{FragmentMetadataMutation, MutationView};
use crate::views;

verus! {

broadcast use crate::views::group_views;

/// Whether `a` comes strictly after `b`: by key first when `by_key`, then by
/// place in the commit order.
pub open spec fn after(a: MutationView, b: MutationView, by_key: bool) -> bool {
    if by_key && a.key() != b.key() {
        a.key() > b.key()
    } else {
        a.action_sequence > b.action_sequence
    }
}

pub open spec fn is_sorted(s: Seq<MutationView>, by_key: bool) -> bool {
    forall|i: int, j: int| 0 <= i < j < s.len() ==> !after(#[trigger] s[i], #[trigger] s[j], by_key)
}

/// `x` put behind everything in `s` that does not come after it.
pub open spec fn inserted(s: Seq<MutationView>, x: MutationView, by_key: bool) -> Seq<MutationView>
    decreases s.len(),
{
    if s.len() == 0 || !after(s.last(), x, by_key) {
        s.push(x)
    } else {
        inserted(s.drop_last(), x, by_key).push(s.last())
    }
}

/// `s` in order, equals staying in the order they had.
pub open spec fn sorted(s: Seq<MutationView>, by_key: bool) -> Seq<MutationView>
    decreases s.len(),
{
    if s.len() == 0 {
        s
    } else {
        inserted(sorted(s.drop_last(), by_key), s.last(), by_key)
    }
}

/// The mutations of one fragment, in the order they are held.
pub open spec fn of_key(s: Seq<MutationView>, key: u64) -> Seq<MutationView> {
    s.filter(|m: MutationView| m.key() == key)
}

/// The mutations of one fragment in commit order.
pub open spec fn run(s: Seq<MutationView>, key: u64) -> Seq<MutationView> {
    sorted(of_key(s, key), false)
}

/// Whether no two mutations share a place in the commit order.
pub open spec fn distinct(s: Seq<MutationView>) -> bool {
    forall|i: int, j: int|
        0 <= i < j < s.len() ==> (#[trigger] s[i]).action_sequence != (
        #[trigger] s[j]).action_sequence
}

/// Whether mutations that share a place in the commit order are in the order
/// of their fragments.
pub open spec fn ties_by_key(s: Seq<MutationView>) -> bool {
    forall|i: int, j: int|
        0 <= i < j < s.len() && (#[trigger] s[i]).action_sequence == (
        #[trigger] s[j]).action_sequence ==> s[i].key() <= s[j].key()
}

/// Mutations in the order of their fragments, put in commit order, keep that
/// order where they share a place.
pub proof fn lemma_sorted_ties(s: Seq<MutationView>)
    requires
        forall|i: int, j: int|
            0 <= i < j < s.len() ==> (#[trigger] s[i]).key() <= (#[trigger] s[j]).key(),
    ensures
        ties_by_key(sorted(s, false)),
    decreases s.len(),
{
    if s.len() > 0 {
        let rest = s.drop_last();
        let x = s.last();
        assert forall|i: int, j: int| 0 <= i < j < rest.len() implies (#[trigger] rest[i]).key()
            <= (#[trigger] rest[j]).key() by {
            assert(rest[i] == s[i] && rest[j] == s[j]);
        }
        lemma_sorted_ties(rest);
        let a = sorted(rest, false);
        let at = lemma_inserted(a, x, false);
        let t = a.insert(at, x);
        assert forall|i: int, j: int|
            0 <= i < j < t.len() && (#[trigger] t[i]).action_sequence == (
            #[trigger] t[j]).action_sequence implies t[i].key() <= t[j].key() by {
            if j == at {
                assert(t[i] == a[i]);
                assert(a.contains(a[i]));
                lemma_sorted_contains(rest, false, a[i]);
                let k = choose|k: int| 0 <= k < rest.len() && rest[k] == a[i];
                assert(s[k] == rest[k] && s[s.len() - 1] == x);
            } else if i == at {
                assert(t[j] == a[j - 1]);
                assert(after(a[j - 1], x, false));
            } else {
                let i2 = if i < at { i } else { i - 1 };
                let j2 = if j < at { j } else { j - 1 };
                assert(t[i] == a[i2] && t[j] == a[j2]);
            }
        }
    }
}

pub proof fn lemma_inserted_at(s: Seq<MutationView>, x: MutationView, by_key: bool, at: int)
    requires
        0 <= at <= s.len(),
        forall|i: int| at <= i < s.len() ==> after(#[trigger] s[i], x, by_key),
        at == 0 || !after(s[at - 1], x, by_key),
    ensures
        inserted(s, x, by_key) == s.insert(at, x),
    decreases s.len(),
{
    if at == s.len() {
        assert(s.push(x) =~= s.insert(at, x));
    } else {
        assert(s.last() == s[s.len() - 1]);
        lemma_inserted_at(s.drop_last(), x, by_key, at);
        assert(s.drop_last().insert(at, x).push(s.last()) =~= s.insert(at, x));
    }
}

/// Where an insertion lands, what lies before and behind it.
pub proof fn lemma_inserted(s: Seq<MutationView>, x: MutationView, by_key: bool) -> (at: int)
    ensures
        0 <= at <= s.len(),
        inserted(s, x, by_key) == s.insert(at, x),
        forall|i: int| at <= i < s.len() ==> after(#[trigger] s[i], x, by_key),
        at == 0 || !after(s[at - 1], x, by_key),
    decreases s.len(),
{
    if s.len() == 0 || !after(s.last(), x, by_key) {
        assert(s.push(x) =~= s.insert(s.len() as int, x));
        s.len() as int
    } else {
        let at = lemma_inserted(s.drop_last(), x, by_key);
        assert(s.drop_last().insert(at, x).push(s.last()) =~= s.insert(at, x));
        assert forall|i: int| at <= i < s.len() implies after(#[trigger] s[i], x, by_key) by {
            if i < s.len() - 1 {
                assert(s[i] == s.drop_last()[i]);
            }
        }
        at
    }
}

pub proof fn lemma_inserted_sorted(s: Seq<MutationView>, x: MutationView, by_key: bool)
    requires
        is_sorted(s, by_key),
    ensures
        is_sorted(inserted(s, x, by_key), by_key),
{
    let at = lemma_inserted(s, x, by_key);
    let t = s.insert(at, x);
    assert forall|i: int, j: int| 0 <= i < j < t.len() implies !after(
        #[trigger] t[i],
        #[trigger] t[j],
        by_key,
    ) by {
        if j == at {
            assert(t[i] == s[i]);
            assert(!after(s[at - 1], x, by_key));
            if i < at - 1 {
                assert(!after(s[i], s[at - 1], by_key));
            }
        } else if i == at {
            assert(t[j] == s[j - 1]);
            assert(after(s[j - 1], x, by_key));
        } else {
            let i2 = if i < at { i } else { i - 1 };
            let j2 = if j < at { j } else { j - 1 };
            assert(t[i] == s[i2] && t[j] == s[j2]);
        }
    }
}

pub proof fn lemma_sorted_is_sorted(s: Seq<MutationView>, by_key: bool)
    ensures
        is_sorted(sorted(s, by_key), by_key),
        sorted(s, by_key).len() == s.len(),
    decreases s.len(),
{
    if s.len() > 0 {
        lemma_sorted_is_sorted(s.drop_last(), by_key);
        lemma_inserted_sorted(sorted(s.drop_last(), by_key), s.last(), by_key);
        let at = lemma_inserted(sorted(s.drop_last(), by_key), s.last(), by_key);
    }
}

/// Sorting keeps exactly the same mutations.
pub proof fn lemma_sorted_multiset(s: Seq<MutationView>, by_key: bool)
    ensures
        sorted(s, by_key).to_multiset() == s.to_multiset(),
    decreases s.len(),
{
    broadcast use vstd::seq_lib::group_to_multiset_ensures;

    if s.len() > 0 {
        let rest = s.drop_last();
        lemma_sorted_multiset(rest, by_key);
        let at = lemma_inserted(sorted(rest, by_key), s.last(), by_key);
        assert(s =~= rest.push(s.last()));
        vstd::seq_lib::to_multiset_insert(sorted(rest, by_key), at, s.last());
    }
}

pub proof fn lemma_sorted_contains(s: Seq<MutationView>, by_key: bool, m: MutationView)
    ensures
        sorted(s, by_key).contains(m) == s.contains(m),
{
    broadcast use vstd::seq_lib::group_to_multiset_ensures;

    lemma_sorted_multiset(s, by_key);
    assert(sorted(s, by_key).to_multiset().count(m) == s.to_multiset().count(m));
}

/// What is already in order stays as it is.
pub proof fn lemma_sorted_fixed(s: Seq<MutationView>, by_key: bool)
    requires
        is_sorted(s, by_key),
    ensures
        sorted(s, by_key) == s,
    decreases s.len(),
{
    if s.len() > 0 {
        let rest = s.drop_last();
        assert(is_sorted(rest, by_key)) by {
            assert forall|i: int, j: int| 0 <= i < j < rest.len() implies !after(
                #[trigger] rest[i],
                #[trigger] rest[j],
                by_key,
            ) by {
                assert(rest[i] == s[i] && rest[j] == s[j]);
            }
        }
        lemma_sorted_fixed(rest, by_key);
        if rest.len() > 0 {
            assert(!after(s[s.len() - 2], s[s.len() - 1], by_key));
        }
        assert(rest.push(s.last()) =~= s);
    }
}

/// Inserting and then selecting a fragment is selecting it and then inserting.
proof fn lemma_of_key_inserted(s: Seq<MutationView>, x: MutationView, by_key: bool, key: u64)
    requires
        is_sorted(s, by_key),
    ensures
        of_key(inserted(s, x, by_key), key) == if x.key() == key {
            inserted(of_key(s, key), x, false)
        } else {
            of_key(s, key)
        },
    decreases s.len(),
{
    broadcast use Seq::lemma_filter_push;

    if s.len() > 0 && after(s.last(), x, by_key) {
        let rest = s.drop_last();
        assert(is_sorted(rest, by_key)) by {
            assert forall|i: int, j: int| 0 <= i < j < rest.len() implies !after(
                #[trigger] rest[i],
                #[trigger] rest[j],
                by_key,
            ) by {
                assert(rest[i] == s[i] && rest[j] == s[j]);
            }
        }
        lemma_of_key_inserted(rest, x, by_key, key);
        assert(s =~= rest.push(s.last()));
        if x.key() == key && s.last().key() == key {
            assert(of_key(s, key) == of_key(rest, key).push(s.last()));
            assert(of_key(s, key).drop_last() =~= of_key(rest, key));
        }
    } else if x.key() == key {
        let kept = of_key(s, key);
        if kept.len() > 0 {
            let e = kept.last();
            assert(kept.contains(e));
            lemma_of_key_contains(s, key, e);
            let i = choose|i: int| 0 <= i < s.len() && s[i] == e;
            if i < s.len() - 1 {
                assert(!after(s[i], s[s.len() - 1], by_key));
            }
            assert(!after(e, x, false));
        }
    }
}

/// The mutations of a fragment keep their commit order in either order.
pub proof fn lemma_of_key_sorted(s: Seq<MutationView>, by_key: bool, key: u64)
    ensures
        of_key(sorted(s, by_key), key) == run(s, key),
    decreases s.len(),
{
    broadcast use Seq::lemma_filter_push;

    if s.len() > 0 {
        let rest = s.drop_last();
        assert(s =~= rest.push(s.last()));
        lemma_of_key_sorted(rest, by_key, key);
        lemma_sorted_is_sorted(rest, by_key);
        lemma_of_key_inserted(sorted(rest, by_key), s.last(), by_key, key);
        if s.last().key() == key {
            assert(of_key(s, key).drop_last() =~= of_key(rest, key));
        }
    } else {
        assert(of_key(s, key) =~= s);
    }
}

/// A list of one fragment's mutations is its own selection.
pub proof fn lemma_of_key_all(s: Seq<MutationView>, key: u64)
    requires
        forall|i: int| 0 <= i < s.len() ==> (#[trigger] s[i]).key() == key,
    ensures
        of_key(s, key) == s,
    decreases s.len(),
{
    broadcast use Seq::lemma_filter_push;

    if s.len() > 0 {
        lemma_of_key_all(s.drop_last(), key);
        assert(s =~= s.drop_last().push(s.last()));
        assert(s.last() == s[s.len() - 1]);
    } else {
        assert(of_key(s, key) =~= s);
    }
}

/// Nothing is selected where nothing matches.
pub proof fn lemma_of_key_none(s: Seq<MutationView>, key: u64)
    requires
        forall|i: int| 0 <= i < s.len() ==> (#[trigger] s[i]).key() != key,
    ensures
        of_key(s, key) == Seq::<MutationView>::empty(),
    decreases s.len(),
{
    broadcast use Seq::lemma_filter_push;

    if s.len() > 0 {
        lemma_of_key_none(s.drop_last(), key);
        assert(s =~= s.drop_last().push(s.last()));
        assert(s.last() == s[s.len() - 1]);
    } else {
        assert(of_key(s, key) =~= s);
    }
}

pub proof fn lemma_of_key_contains(s: Seq<MutationView>, key: u64, m: MutationView)
    ensures
        of_key(s, key).contains(m) == (s.contains(m) && m.key() == key),
{
    let pred = |m: MutationView| m.key() == key;
    if of_key(s, key).contains(m) {
        let i = choose|i: int| 0 <= i < of_key(s, key).len() && of_key(s, key)[i] == m;
        s.lemma_filter_pred(pred, i);
        s.lemma_filter_contains_rev(pred, m);
    }
    if s.contains(m) && m.key() == key {
        let i = choose|i: int| 0 <= i < s.len() && s[i] == m;
        s.lemma_filter_contains(pred, i);
    }
}

/// Sorting changes nothing about places used twice.
pub proof fn lemma_sorted_distinct(s: Seq<MutationView>, by_key: bool)
    ensures
        distinct(sorted(s, by_key)) == distinct(s),
    decreases s.len(),
{
    if s.len() > 0 {
        let rest = s.drop_last();
        lemma_sorted_distinct(rest, by_key);
        let t = sorted(rest, by_key);
        let x = s.last();
        let at = lemma_inserted(t, x, by_key);
        let u = t.insert(at, x);
        if distinct(s) {
            assert(distinct(rest)) by {
                assert forall|i: int, j: int| 0 <= i < j < rest.len() implies (
                #[trigger] rest[i]).action_sequence != (#[trigger] rest[j]).action_sequence by {
                    assert(rest[i] == s[i] && rest[j] == s[j]);
                }
            }
            assert forall|i: int| 0 <= i < t.len() implies (#[trigger] t[i]).action_sequence
                != x.action_sequence by {
                lemma_sorted_contains(rest, by_key, t[i]);
                assert(t.contains(t[i]));
                let k = choose|k: int| 0 <= k < rest.len() && rest[k] == t[i];
                assert(s[k] == rest[k] && s[s.len() - 1] == x);
            }
            assert forall|i: int, j: int| 0 <= i < j < u.len() implies (
            #[trigger] u[i]).action_sequence != (#[trigger] u[j]).action_sequence by {
                if i == at {
                    assert(u[j] == t[j - 1]);
                } else if j == at {
                    assert(u[i] == t[i]);
                } else {
                    let i2 = if i < at { i } else { i - 1 };
                    let j2 = if j < at { j } else { j - 1 };
                    assert(u[i] == t[i2] && u[j] == t[j2]);
                }
            }
        }
        if distinct(u) {
            assert forall|i: int, j: int| 0 <= i < j < t.len() implies (
            #[trigger] t[i]).action_sequence != (#[trigger] t[j]).action_sequence by {
                let i2 = if i < at { i } else { i + 1 };
                let j2 = if j < at { j } else { j + 1 };
                assert(u[i2] == t[i] && u[j2] == t[j]);
            }
            assert forall|i: int, j: int| 0 <= i < j < s.len() implies (
            #[trigger] s[i]).action_sequence != (#[trigger] s[j]).action_sequence by {
                if j == s.len() - 1 {
                    assert(rest[i] == s[i]);
                    assert(rest.contains(rest[i]));
                    lemma_sorted_contains(rest, by_key, rest[i]);
                    let k = choose|k: int| 0 <= k < t.len() && t[k] == rest[i];
                    let k2 = if k < at { k } else { k + 1 };
                    assert(u[k2] == t[k] && u[at] == x);
                } else {
                    assert(rest[i] == s[i] && rest[j] == s[j]);
                }
            }
        }
    }
}

/// There is one way to put mutations with distinct places in order.
pub proof fn lemma_sorted_unique(a: Seq<MutationView>, b: Seq<MutationView>, by_key: bool)
    requires
        is_sorted(a, by_key),
        is_sorted(b, by_key),
        distinct(a),
        a.to_multiset() == b.to_multiset(),
    ensures
        a == b,
    decreases a.len(),
{
    broadcast use vstd::seq_lib::group_to_multiset_ensures;

    assert(a.len() == b.len()) by {
        a.to_multiset_ensures();
        b.to_multiset_ensures();
    }
    if a.len() > 0 {
        assert(a.contains(b.last())) by {
            assert(b.contains(b[b.len() - 1]));
            assert(b.to_multiset().count(b.last()) > 0);
        }
        assert(b.contains(a.last())) by {
            assert(a.contains(a[a.len() - 1]));
            assert(a.to_multiset().count(a.last()) > 0);
        }
        let j = choose|j: int| 0 <= j < a.len() && a[j] == b.last();
        let i = choose|i: int| 0 <= i < b.len() && b[i] == a.last();
        assert(a.last() == b.last()) by {
            if j < a.len() - 1 {
                assert(!after(a[j], a[a.len() - 1], by_key));
                if i < b.len() - 1 {
                    assert(!after(b[i], b[b.len() - 1], by_key));
                    assert(a[j].action_sequence != a[a.len() - 1].action_sequence);
                }
            }
        }
        let a2 = a.drop_last();
        let b2 = b.drop_last();
        assert(a =~= a2.push(a.last()));
        assert(b =~= b2.push(b.last()));
        assert(a2.to_multiset() =~= b2.to_multiset()) by {
            assert(a.to_multiset() =~= a2.to_multiset().insert(a.last()));
            assert(b.to_multiset() =~= b2.to_multiset().insert(b.last()));
            assert(a2.to_multiset() =~= a.to_multiset().remove(a.last()));
            assert(b2.to_multiset() =~= b.to_multiset().remove(b.last()));
        }
        assert(is_sorted(a2, by_key) && distinct(a2)) by {
            assert forall|x: int, y: int| 0 <= x < y < a2.len() implies !after(
                #[trigger] a2[x],
                #[trigger] a2[y],
                by_key,
            ) && a2[x].action_sequence != a2[y].action_sequence by {
                assert(a2[x] == a[x] && a2[y] == a[y]);
            }
        }
        assert(is_sorted(b2, by_key)) by {
            assert forall|x: int, y: int| 0 <= x < y < b2.len() implies !after(
                #[trigger] b2[x],
                #[trigger] b2[y],
                by_key,
            ) by {
                assert(b2[x] == b[x] && b2[y] == b[y]);
            }
        }
        lemma_sorted_unique(a2, b2, by_key);
    }
}

fn after_exec(
    a: &FragmentMetadataMutation,
    b: &FragmentMetadataMutation,
    by_key: bool,
) -> (r: bool)
    ensures
        r == after(a@, b@, by_key),
{
    let a_key: u64 = crate::node::action_key(a);
    let b_key: u64 = crate::node::action_key(b);
    if by_key && a_key != b_key {
        a_key > b_key
    } else {
        a.action_sequence > b.action_sequence
    }
}

fn insert_in_order(
    list: &mut Vec<FragmentMetadataMutation>,
    mutation: FragmentMetadataMutation,
    by_key: bool,
)
    ensures
        views::all(final(list)@) == inserted(views::all(old(list)@), mutation@, by_key),
{
    let mut at: usize = list.len();
    while at > 0 && after_exec(&list[at - 1], &mutation, by_key)
        invariant
            at <= list@.len(),
            list@ == old(list)@,
            forall|i: int| at <= i < list@.len() ==> after(#[trigger] list@[i]@, mutation@, by_key),
        decreases at,
    {
        at = at - 1;
    }
    proof {
        lemma_inserted_at(views::all(list@), mutation@, by_key, at as int);
        assert(views::all(list@.insert(at as int, mutation)) =~= views::all(list@).insert(
            at as int,
            mutation@,
        ));
    }
    list.insert(at, mutation);
}

/// The mutations in order: by key first when `by_key`, then by place in the
/// commit order. Linear on what is already in order.
pub fn sort_mutations(mutations: Vec<FragmentMetadataMutation>, by_key: bool) -> (r: Vec<
    FragmentMetadataMutation,
>)
    ensures
        views::all(r@) == sorted(views::all(mutations@), by_key),
{
    let mut list: Vec<FragmentMetadataMutation> = Vec::new();
    let ghost all = views::all(mutations@);
    for mutation in iter: mutations
        invariant
            iter.seq() == mutations@,
            all == views::all(mutations@),
            views::all(list@) == sorted(all.take(iter.index() as int), by_key),
    {
        proof {
            let taken = all.take(iter.index() + 1);
            assert(taken.drop_last() =~= all.take(iter.index() as int));
            assert(taken.last() == mutation@);
        }
        insert_in_order(&mut list, mutation, by_key);
    }
    assert(all.take(all.len() as int) =~= all);
    list
}

} // verus!
