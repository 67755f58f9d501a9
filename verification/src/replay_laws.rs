//! Laws of replay.

use vstd::prelude::*;

use crate::error::Error;
use crate::order;
use crate::pb::MutationView;
use crate::record::FragmentView;
use crate::replay;
use crate::squash;

verus! {

/// Replaying two lists one after the other is replaying them joined.
pub proof fn law_replay_joins(
    record: Option<FragmentView>,
    a: Seq<MutationView>,
    b: Seq<MutationView>,
    check: bool,
)
    ensures
        replay::outcome(record, a + b, check) == match replay::outcome(record, a, check) {
            Ok(middle) => replay::outcome(middle, b, check),
            Err(error) => Err(error),
        },
    decreases b.len(),
{
    if b.len() == 0 {
        assert(a + b =~= a);
    } else {
        law_replay_joins(record, a, b.drop_last(), check);
        assert((a + b).drop_last() =~= a + b.drop_last());
        assert((a + b).last() == b.last());
    }
}

/// What a verifying replay accepts, a trusting one makes the same of.
pub proof fn law_verified_replay_is_trusted(record: Option<FragmentView>, s: Seq<MutationView>)
    requires
        replay::outcome(record, s, true) is Ok,
    ensures
        replay::outcome(record, s, false) == replay::outcome(record, s, true),
    decreases s.len(),
{
    if s.len() > 0 {
        law_verified_replay_is_trusted(record, s.drop_last());
    }
}

/// A verifying replay changes what its record adds to the aggregates by
/// exactly the deltas its mutations store.
pub proof fn law_deltas_account_for_replay(record: Option<FragmentView>, s: Seq<MutationView>)
    requires
        replay::outcome(record, s, true) is Ok,
    ensures
        ({
            let before = replay::counts(record);
            let after = replay::counts(replay::outcome(record, s, true)->Ok_0);
            let total = squash::total(s);
            after == (before.0 + total.0, before.1 + total.1, before.2 + total.2)
        }),
    decreases s.len(),
{
    if s.len() > 0 {
        law_deltas_account_for_replay(record, s.drop_last());
        let middle = replay::outcome(record, s.drop_last(), true)->Ok_0;
        assert(replay::effect(middle, s.last(), true).1 is None);
        assert(replay::delta_fault(
            middle,
            replay::effect(middle, s.last(), true).0,
            s.last(),
        ) is None);
    }
}

/// Mutations of a fragment leave a record of that fragment.
pub proof fn law_replay_keeps_identity(
    record: Option<FragmentView>,
    s: Seq<MutationView>,
    check: bool,
    key: u64,
)
    requires
        replay::outcome(record, s, check) is Ok,
        record is Some ==> record->0.id == key,
        forall|i: int| 0 <= i < s.len() ==> (#[trigger] s[i]).key() == key,
    ensures
        replay::outcome(record, s, check)->Ok_0 is Some ==> replay::outcome(
            record,
            s,
            check,
        )->Ok_0->0.id == key,
    decreases s.len(),
{
    if s.len() > 0 {
        let rest = s.drop_last();
        assert forall|i: int| 0 <= i < rest.len() implies (#[trigger] rest[i]).key() == key by {
            assert(rest[i] == s[i]);
        }
        law_replay_keeps_identity(record, rest, check, key);
        assert(s.last() == s[s.len() - 1]);
        assert(s.last().known() is Some);
    }
}

proof fn lemma_folded_by_key(state: Map<u64, FragmentView>, s: Seq<MutationView>, check: bool)
    requires
        forall|i: int| 0 <= i < s.len() ==> (#[trigger] s[i]).fault() is None,
    ensures
        replay::folded(state, s, check).1 is None ==> forall|key: u64|
            #![trigger order::of_key(s, key)]
            replay::outcome(replay::lookup(state, key), order::of_key(s, key), check) == Ok::<
                Option<FragmentView>,
                Error,
            >(replay::lookup(replay::folded(state, s, check).0, key)),
        (forall|key: u64|
            #![trigger order::of_key(s, key)]
            replay::outcome(
                replay::lookup(state, key),
                order::of_key(s, key),
                check,
            ) is Ok) ==> replay::folded(state, s, check).1 is None,
    decreases s.len(),
{
    if s.len() == 0 {
        assert forall|key: u64| #[trigger] order::of_key(s, key).len() == 0 by {
            order::lemma_of_key_none(s, key);
        }
    } else {
        let rest = s.drop_last();
        let last = s.last();
        let k = last.key();
        assert forall|i: int| 0 <= i < rest.len() implies (#[trigger] rest[i]).fault() is None by {
            assert(rest[i] == s[i]);
        }
        assert(last == s[s.len() - 1]);
        lemma_folded_by_key(state, rest, check);
        assert forall|key: u64| #[trigger]
            order::of_key(s, key) == if key == k {
            order::of_key(rest, key).push(last)
        } else {
            order::of_key(rest, key)
        } by {
            assert(s =~= rest.push(last));
            rest.lemma_filter_push(last, |m: MutationView| m.key() == key);
        }
        let (before, error) = replay::folded(state, rest, check);
        let (after, end) = replay::effect(replay::lookup(before, k), last, check);
        if replay::folded(state, s, check).1 is None {
            assert(error is None);
            assert forall|key: u64|
                #![trigger order::of_key(s, key)]
                replay::outcome(replay::lookup(state, key), order::of_key(s, key), check) == Ok::<
                    Option<FragmentView>,
                    Error,
                >(replay::lookup(replay::folded(state, s, check).0, key)) by {
                let prior = order::of_key(rest, key);
                assert(replay::outcome(replay::lookup(state, key), prior, check) == Ok::<
                    Option<FragmentView>,
                    Error,
                >(replay::lookup(before, key)));
                if key == k {
                    assert(order::of_key(s, key).drop_last() =~= prior);
                }
            }
        }
        if forall|key: u64|
            #![trigger order::of_key(s, key)]
            replay::outcome(
                replay::lookup(state, key),
                order::of_key(s, key),
                check,
            ) is Ok {
            assert forall|key: u64|
                #![trigger order::of_key(rest, key)]
                replay::outcome(
                    replay::lookup(state, key),
                    order::of_key(rest, key),
                    check,
                ) is Ok by {
                assert(replay::outcome(
                    replay::lookup(state, key),
                    order::of_key(s, key),
                    check,
                ) is Ok);
                if key == k {
                    assert(order::of_key(s, key).drop_last() =~= order::of_key(rest, key));
                }
            }
            assert(error is None);
            let prior = order::of_key(rest, k);
            assert(order::of_key(s, k).drop_last() =~= prior);
            assert(replay::outcome(replay::lookup(state, k), order::of_key(s, k), check) is Ok);
            assert(replay::outcome(replay::lookup(state, k), prior, check) == Ok::<
                Option<FragmentView>,
                Error,
            >(replay::lookup(before, k)));
        }
    }
}

/// A buffer replays exactly when no place in the commit order is used twice
/// and each fragment's mutations replay on their own, and it leaves each
/// fragment as its own mutations leave it.
pub proof fn law_fragments_replay_independently(
    state: Map<u64, FragmentView>,
    s: Seq<MutationView>,
    check: bool,
)
    ensures
        (replay::replayed(state, s, check).1 is None) == (order::distinct(s) && forall|key: u64|
            #![trigger order::run(s, key)]
            replay::outcome(replay::lookup(state, key), order::run(s, key), check) is Ok),
        replay::replayed(state, s, check).1 is None ==> forall|key: u64|
            #![trigger order::run(s, key)]
            replay::outcome(replay::lookup(state, key), order::run(s, key), check) == Ok::<
                Option<FragmentView>,
                Error,
            >(replay::lookup(replay::replayed(state, s, check).0, key)),
{
    let ordered = order::sorted(s, false);
    let keyed = order::sorted(s, true);
    assert forall|key: u64| #[trigger] order::run(s, key) == order::of_key(keyed, key) by {
        order::lemma_of_key_sorted(s, true, key);
    }
    replay::lemma_first_fault(ordered);
    if order::distinct(s) && replay::first_fault(ordered) is None {
        assert forall|i: int| 0 <= i < keyed.len() implies (#[trigger] keyed[i]).fault() is None by {
            assert(keyed.contains(keyed[i]));
            order::lemma_sorted_contains(s, true, keyed[i]);
            order::lemma_sorted_contains(s, false, keyed[i]);
            let j = choose|j: int| 0 <= j < ordered.len() && ordered[j] == keyed[i];
            assert(ordered[j].fault() is None);
        }
        lemma_folded_by_key(state, keyed, check);
        if replay::folded(state, keyed, check).1 is None {
            assert forall|key: u64|
                #![trigger order::run(s, key)]
                replay::outcome(replay::lookup(state, key), order::run(s, key), check) == Ok::<
                    Option<FragmentView>,
                    Error,
                >(replay::lookup(replay::replayed(state, s, check).0, key)) by {
                assert(order::run(s, key) == order::of_key(keyed, key));
            }
        }
        if forall|key: u64|
            #![trigger order::run(s, key)]
            replay::outcome(replay::lookup(state, key), order::run(s, key), check) is Ok {
            assert forall|key: u64|
                #![trigger order::of_key(keyed, key)]
                replay::outcome(
                    replay::lookup(state, key),
                    order::of_key(keyed, key),
                    check,
                ) is Ok by {
                assert(order::run(s, key) == order::of_key(keyed, key));
            }
        }
    } else if order::distinct(s) {
        // A malformed mutation also stops its own fragment's replay.
        let i = choose|i: int| 0 <= i < ordered.len() && (#[trigger] ordered[i]).fault() is Some;
        let m = ordered[i];
        assert(ordered.contains(m));
        order::lemma_sorted_contains(s, false, m);
        order::lemma_of_key_contains(s, m.key(), m);
        let own = order::of_key(s, m.key());
        order::lemma_sorted_contains(own, false, m);
        lemma_outcome_faults(
            replay::lookup(state, m.key()),
            order::run(s, m.key()),
            check,
            m,
        );
    }
}

/// A replay that succeeds has no malformed mutation in it.
pub proof fn lemma_outcome_faults(
    record: Option<FragmentView>,
    s: Seq<MutationView>,
    check: bool,
    m: MutationView,
)
    requires
        s.contains(m),
    ensures
        replay::outcome(record, s, check) is Ok ==> m.fault() is None,
    decreases s.len(),
{
    if s.len() > 0 {
        let i = choose|i: int| 0 <= i < s.len() && s[i] == m;
        if i < s.len() - 1 {
            assert(s.drop_last()[i] == m);
            assert(s.drop_last().contains(m));
            lemma_outcome_faults(record, s.drop_last(), check, m);
        }
    }
}

/// A whole-record action makes everything before it irrelevant.
pub proof fn law_reset_forgets(
    a: Option<FragmentView>,
    b: Option<FragmentView>,
    s: Seq<MutationView>,
)
    requires
        s.len() > 0,
        s[0].is_reset(),
    ensures
        replay::outcome(a, s, false) == replay::outcome(b, s, false),
    decreases s.len(),
{
    if s.len() == 1 {
        assert(s.drop_last().len() == 0);
        assert(s.last() == s[0]);
    } else {
        assert(s.drop_last()[0] == s[0]);
        law_reset_forgets(a, b, s.drop_last());
    }
}

} // verus!
