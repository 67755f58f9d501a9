//! Changing a level without changing what it holds.

use vstd::prelude::*;

use crate::error::Error;
use crate::node;
use crate::order;
use crate::pb::{ChildView, MutationView};
use crate::record::FragmentView;
use crate::world;
use crate::world::World;

verus! {

pub open spec fn no_mutations() -> Seq<MutationView> {
    Seq::empty()
}

pub proof fn lemma_no_run(key: u64)
    ensures
        order::of_key(no_mutations(), key) == Seq::<MutationView>::empty(),
        order::run(no_mutations(), key) == Seq::<MutationView>::empty(),
        world::latest(no_mutations(), key) == 0,
{
    order::lemma_of_key_none(no_mutations(), key);
}

/// Without a buffer a level holds what its children hold.
pub proof fn lemma_bare_cell(w: World, children: Seq<ChildView>, key: u64)
    ensures
        world::cell(w, children, no_mutations(), key) == Ok::<Option<FragmentView>, Error>(
            world::base_at(w, children, key),
        ),
        world::frontier(w, children, no_mutations(), key) == world::newest_at(w, children, key),
{
    lemma_no_run(key);
}

/// Sane children without a buffer are a sound level.
pub proof fn lemma_bare_sound(w: World, children: Seq<ChildView>)
    requires
        world::sane(w, children),
    ensures
        world::sound(w, children, no_mutations()),
{
    assert(world::apart(no_mutations())) by {
        assert forall|key: u64| order::distinct(
            #[trigger] order::of_key(no_mutations(), key),
        ) by {
            lemma_no_run(key);
        }
    }
    assert forall|key: u64| world::good(
        #[trigger] world::cell(w, children, no_mutations(), key),
        key,
    ) by {
        lemma_bare_cell(w, children, key);
        if children.len() > 0 {
            node::lemma_route(children, key);
            let i = node::route(children, key);
            assert(world::proper(w.rec(children[i], key), key));
        }
    }
}

/// Whether a key is routed into the middle of a list.
pub open spec fn inside(
    x: Seq<ChildView>,
    s: Seq<ChildView>,
    y: Seq<ChildView>,
    key: u64,
) -> bool {
    x.len() <= node::route(x + s + y, key) < x.len() + s.len()
}

/// The middle of a list is a list a tree may hold, and holds what the list
/// holds for the keys routed into it and nothing for others.
pub proof fn lemma_middle(w: World, x: Seq<ChildView>, s: Seq<ChildView>, y: Seq<ChildView>)
    requires
        world::sane(w, x + s + y),
        s.len() > 0,
    ensures
        world::sane(w, s),
        forall|key: u64|
            #![trigger world::base_at(w, s, key)]
            inside(x, s, y, key) ==> world::base_at(w, s, key) == world::base_at(
                w,
                x + s + y,
                key,
            ) && world::newest_at(w, s, key) == world::newest_at(w, x + s + y, key)
                && world::mark_at(w, s, key) == world::mark_at(w, x + s + y, key),
        forall|key: u64|
            #![trigger world::base_at(w, s, key)]
            !inside(x, s, y, key) ==> world::base_at(w, s, key) is None && world::newest_at(
                w,
                s,
                key,
            ) == 0,
        y.len() > 0 ==> world::reach_over(w, s) < y[0].min_key,
        world::reach_over(w, s) <= world::reach_over(w, x + s + y),
{
    let all = x + s + y;
    let n = x.len() as int;
    assert forall|i: int| 0 <= i < s.len() implies #[trigger] s[i] == all[n + i] by {}
    assert(world::fences(s)) by {
        assert forall|i: int, j: int| 0 <= i < j < s.len() implies (#[trigger] s[i]).min_key < (
        #[trigger] s[j]).min_key by {
            assert(all[n + i] == s[i] && all[n + j] == s[j]);
        }
    }
    assert(world::nested(w, s)) by {
        assert forall|i: int, j: int| 0 <= i < j < s.len() implies w.reach_of(#[trigger] s[i]) < (
        #[trigger] s[j]).min_key by {
            assert(all[n + i] == s[i] && all[n + j] == s[j]);
        }
    }
    assert forall|i: int, key: u64|
        0 <= i < s.len() && node::route(s, key) != i implies #[trigger] w.rec(
        s[i],
        key,
    ) is None && w.newest_of(s[i], key) == 0 by {
        lemma_route_in(x, s, y, key);
        assert(w.rec(all[n + i], key) is None);
    }
    assert forall|i: int, key: u64| 0 <= i < s.len() implies world::proper(
        #[trigger] w.rec(s[i], key),
        key,
    ) by {
        assert(world::proper(w.rec(all[n + i], key), key));
    }
    assert(world::level_heights(s, s[0].height)) by {
        assert forall|i: int| 0 <= i < s.len() implies (#[trigger] s[i]).height == s[0].height by {
            assert(all[n + i] == s[i] && all[n] == s[0]);
            assert(all[n + i].height == all[0].height);
            assert(all[n].height == all[0].height);
        }
    }
    assert forall|key: u64|
        #![trigger world::base_at(w, s, key)]
        (inside(x, s, y, key) ==> world::base_at(w, s, key) == world::base_at(w, all, key)
            && world::newest_at(w, s, key) == world::newest_at(w, all, key) && world::mark_at(
            w,
            s,
            key,
        ) == world::mark_at(w, all, key)) && (!inside(x, s, y, key) ==> world::base_at(
            w,
            s,
            key,
        ) is None && world::newest_at(w, s, key) == 0) by {
        lemma_route_in(x, s, y, key);
        node::lemma_route(s, key);
        let i = node::route(s, key);
        assert(s[i] == all[n + i]);
        if !inside(x, s, y, key) {
            assert(w.rec(all[n + i], key) is None);
        }
    }
    world::lemma_reach_over(w, all);
    assert forall|i: int| 0 <= i < s.len() implies (#[trigger] s[i]).min_key
        < world::reach_over(w, all) + 1 && w.reach_of(s[i]) < world::reach_over(w, all) + 1 by {
        assert(all[n + i] == s[i]);
    }
    world::lemma_reach_below(w, s, (world::reach_over(w, all) + 1) as nat);
    if y.len() > 0 {
        let end = n + s.len();
        assert(all[end] == y[0]);
        assert forall|i: int| 0 <= i < s.len() implies (#[trigger] s[i]).min_key < y[0].min_key
            && w.reach_of(s[i]) < y[0].min_key by {
            assert(all[n + i] == s[i]);
        }
        world::lemma_reach_below(w, s, y[0].min_key as nat);
    }
}

pub proof fn lemma_route_in(x: Seq<ChildView>, s: Seq<ChildView>, y: Seq<ChildView>, key: u64)
    requires
        world::fences(x + s + y),
        s.len() > 0,
    ensures
        inside(x, s, y, key) ==> node::route(s, key) == node::route(x + s + y, key) - x.len(),
        inside(x, s, y, key) == ((x.len() == 0 || s[0].min_key <= key) && (y.len() == 0 || key
            < y[0].min_key)),
        0 <= node::route(x + s + y, key) < (x + s + y).len(),
{
    world::lemma_route_middle(x, s, y, key);
}

/// Whether the middle of a level, with the mutations for it, was changed so
/// that it holds the same.
pub open spec fn middle_changed(
    w: World,
    x: Seq<ChildView>,
    s: Seq<ChildView>,
    y: Seq<ChildView>,
    p: Seq<MutationView>,
    s2: Seq<ChildView>,
    p2: Seq<MutationView>,
    cap: int,
) -> bool {
    let all = x + s + y;
    &&& world::sane(w, s2)
    &&& world::apart(p2)
    &&& s2.len() > 0 ==> {
        &&& s2[0].height == s[0].height
        &&& s2[0].min_key == s[0].min_key || (x.len() == 0 && s2[0].min_key <= s[0].min_key)
        &&& y.len() > 0 ==> world::reach_over(w, s2) < y[0].min_key
        &&& y.len() == 0 ==> forall|end: nat| #[trigger]
            world::bounded(w, all, p, end) ==> world::reach_over(w, s2) < end
    }
    &&& forall|key: u64|
        inside(x, s, y, key) ==> #[trigger] world::cell(w, s2, p2, key) == world::cell(
            w,
            all,
            p,
            key,
        )
    &&& forall|key: u64|
        inside(x, s, y, key) ==> #[trigger] world::frontier(w, s2, p2, key) <= world::frontier(
            w,
            all,
            p,
            key,
        )
    &&& cap < 0 ==> s2.len() > 0 && forall|key: u64|
        inside(x, s, y, key) ==> #[trigger] world::mark_at(w, s2, key) <= world::mark_at(
            w,
            all,
            key,
        )
    &&& forall|bound: nat|
        bound >= cap && #[trigger] world::capped(w, s, bound) ==> world::capped(w, s2, bound)
    &&& forall|key: u64|
        !inside(x, s, y, key) ==> #[trigger] world::base_at(w, s2, key) is None
            && world::newest_at(w, s2, key) == 0
    &&& forall|key: u64| !inside(x, s, y, key) ==> #[trigger] world::same_run(p2, p, key)
    &&& forall|i: int|
        0 <= i < p2.len() && inside(x, s, y, (#[trigger] p2[i]).key()) ==> s2.len() > 0
            && world::newest_at(w, s2, p2[i].key()) <= p2[i].action_sequence && world::mark_at(
            w,
            s2,
            p2[i].key(),
        ) < p2[i].action_sequence
}

proof fn lemma_replaced_fences(
    w: World,
    x: Seq<ChildView>,
    s: Seq<ChildView>,
    y: Seq<ChildView>,
    s2: Seq<ChildView>,
)
    requires
        world::sane(w, x + s + y),
        world::sane(w, s2),
        s.len() > 0,
        s2.len() > 0 ==> {
            &&& s2[0].height == s[0].height
            &&& s2[0].min_key == s[0].min_key || (x.len() == 0 && s2[0].min_key <= s[0].min_key)
            &&& y.len() > 0 ==> world::reach_over(w, s2) < y[0].min_key
        },
    ensures
        world::fences(x + s2 + y),
        world::nested(w, x + s2 + y),
        (x + s2 + y).len() > 0 ==> world::level_heights(x + s2 + y, (x + s2 + y)[0].height),
{
    let all = x + s + y;
    let new = x + s2 + y;
    let n = x.len() as int;
    let m = s2.len() as int;
    world::lemma_reach_over(w, s2);
    assert forall|i: int, j: int| 0 <= i < j < new.len() implies (#[trigger] new[i]).min_key < (
    #[trigger] new[j]).min_key && w.reach_of(new[i]) < new[j].min_key by {
        if i < n {
            assert(new[i] == all[i]);
            if j < n {
                assert(new[j] == all[j]);
            } else if j < n + m {
                assert(new[j] == s2[j - n]);
                assert(all[n] == s[0]);
                if j > n {
                    assert(s2[0].min_key < s2[j - n].min_key);
                }
            } else {
                let k = j - m + s.len();
                assert(new[j] == all[k]);
            }
        } else if i < n + m {
            assert(new[i] == s2[i - n]);
            if j < n + m {
                assert(new[j] == s2[j - n]);
            } else {
                let k = j - m + s.len();
                assert(new[j] == all[k] && y[0] == all[n + s.len()]);
                if j > n + m {
                    assert(all[n + s.len()].min_key < all[k].min_key);
                }
            }
        } else {
            assert(new[i] == all[i - m + s.len()] && new[j] == all[j - m + s.len()]);
        }
    }
    if new.len() > 0 {
        let h = all[0].height;
        assert forall|i: int| 0 <= i < new.len() implies (#[trigger] new[i]).height == h by {
            if i < n {
                assert(new[i] == all[i]);
            } else if i < n + m {
                assert(new[i] == s2[i - n]);
                assert(s2[i - n].height == s2[0].height);
                assert(all[n] == s[0]);
                assert(all[n].height == h);
            } else {
                assert(new[i] == all[i - m + s.len()]);
            }
        }
        assert(new[0].height == h);
    }
}

/// Where a key goes once the middle of a list was replaced.
pub proof fn lemma_replaced_route(
    x: Seq<ChildView>,
    s: Seq<ChildView>,
    y: Seq<ChildView>,
    s2: Seq<ChildView>,
    key: u64,
)
    requires
        world::fences(x + s + y),
        world::fences(x + s2 + y),
        s.len() > 0,
        s2.len() > 0 ==> s2[0].min_key == s[0].min_key || (x.len() == 0 && s2[0].min_key
            <= s[0].min_key),
    ensures
        s2.len() > 0 ==> inside(x, s2, y, key) == inside(x, s, y, key),
        !inside(x, s, y, key) ==> {
            let r = node::route(x + s + y, key);
            let r2 = node::route(x + s2 + y, key);
            r2 == if r < x.len() {
                r
            } else {
                r - s.len() + s2.len()
            }
        },
{
    let all = x + s + y;
    let new = x + s2 + y;
    let n = x.len() as int;
    let m = s2.len() as int;
    lemma_route_in(x, s, y, key);
    node::lemma_route(all, key);
    let r = node::route(all, key);
    if s2.len() > 0 {
        lemma_route_in(x, s2, y, key);
    }
    if !inside(x, s, y, key) {
        assert(all[n] == s[0]);
        if r < n {
            assert(all[r] == new[r]);
            // The next fence is in x, is the first of s, or is the first of y.
            if r + 1 < n {
                assert(all[r + 1] == new[r + 1]);
            } else if m > 0 {
                assert(new[n] == s2[0]);
            } else if y.len() > 0 {
                assert(new[n] == y[0] && y[0] == all[n + s.len()]);
                assert(all[n].min_key < all[n + s.len()].min_key);
            }
            world::lemma_route_is(new, key, r);
        } else {
            let r2 = r - s.len() + m;
            assert(all[r] == new[r2]);
            if r + 1 < all.len() {
                assert(all[r + 1] == new[r2 + 1]);
            }
            world::lemma_route_is(new, key, r2);
        }
    }
}

/// A level whose middle was changed so that it holds the same holds the same.
pub proof fn lemma_replace(
    w: World,
    x: Seq<ChildView>,
    s: Seq<ChildView>,
    y: Seq<ChildView>,
    p: Seq<MutationView>,
    s2: Seq<ChildView>,
    p2: Seq<MutationView>,
    cap: int,
)
    requires
        world::sound(w, x + s + y, p),
        s.len() > 0,
        middle_changed(w, x, s, y, p, s2, p2, cap),
    ensures
        world::refines(w, x + s + y, p, x + s2 + y, p2, cap),
{
    let all = x + s + y;
    let new = x + s2 + y;
    let n = x.len() as int;
    let m = s2.len() as int;
    lemma_replaced_fences(w, x, s, y, s2);
    lemma_middle(w, x, s, y);
    // What each key finds.
    assert forall|key: u64|
        #![trigger world::base_at(w, new, key)]
        (inside(x, s, y, key) && m > 0 ==> world::base_at(w, new, key) == world::base_at(
            w,
            s2,
            key,
        ) && world::newest_at(w, new, key) == world::newest_at(w, s2, key) && world::mark_at(
            w,
            new,
            key,
        ) == world::mark_at(w, s2, key)) && (!inside(x, s, y, key) ==> world::base_at(w, new, key)
            == world::base_at(w, all, key) && world::newest_at(w, new, key) == world::newest_at(
            w,
            all,
            key,
        ) && world::mark_at(w, new, key) == world::mark_at(w, all, key)) by {
        lemma_replaced_route(x, s, y, s2, key);
        lemma_route_in(x, s, y, key);
        let r = node::route(all, key);
        if inside(x, s, y, key) {
            if m > 0 {
                lemma_route_in(x, s2, y, key);
                node::lemma_route(s2, key);
                assert(new[n + node::route(s2, key)] == s2[node::route(s2, key)]);
            }
        } else if r < n {
            assert(new[r] == all[r]);
        } else {
            assert(new[r - s.len() + m] == all[r]);
        }
    }
    // A key whose middle is gone finds nothing anywhere.
    assert forall|key: u64|
        #![trigger world::base_at(w, new, key)]
        inside(x, s, y, key) && m == 0 implies world::base_at(w, new, key) is None
        && world::newest_at(w, new, key) == 0 by {
        if new.len() > 0 {
            node::lemma_route(new, key);
            let r2 = node::route(new, key);
            let r = if r2 < n {
                r2
            } else {
                r2 + s.len()
            };
            assert(new[r2] == all[r]);
            assert(w.rec(all[r], key) is None);
        }
    }
    lemma_replaced_sane(w, x, s, y, s2);
    assert forall|key: u64| #[trigger]
        world::cell(w, new, p2, key) == world::cell(w, all, p, key) by {
        let b = world::base_at(w, new, key);
        if inside(x, s, y, key) {
            assert(world::cell(w, s2, p2, key) == world::cell(w, all, p, key));
        } else {
            assert(world::same_run(p2, p, key));
            world::lemma_same_run_latest(p2, p, key);
        }
    }
    assert forall|key: u64| #[trigger]
        world::frontier(w, new, p2, key) <= world::frontier(w, all, p, key) by {
        let b = world::base_at(w, new, key);
        if inside(x, s, y, key) {
            assert(world::frontier(w, s2, p2, key) <= world::frontier(w, all, p, key));
        } else {
            assert(world::same_run(p2, p, key));
            world::lemma_same_run_latest(p2, p, key);
        }
    }
    if cap < 0 {
        assert forall|key: u64| #[trigger]
            world::mark_at(w, new, key) <= world::mark_at(w, all, key) by {
            let b = world::base_at(w, new, key);
            if inside(x, s, y, key) {
                assert(world::mark_at(w, s2, key) <= world::mark_at(w, all, key));
            }
        }
    }
    lemma_replaced_capped(w, x, s, y, s2, cap);
    assert(world::fresh(w, new, p2)) by {
        assert forall|i: int| 0 <= i < p2.len() implies world::newest_at(
            w,
            new,
            (#[trigger] p2[i]).key(),
        ) <= p2[i].action_sequence && world::mark_at(w, new, p2[i].key())
            < p2[i].action_sequence by {
            let key = p2[i].key();
            let b = world::base_at(w, new, key);
            if !inside(x, s, y, key) {
                assert(world::same_run(p2, p, key));
                assert(p2.contains(p2[i]));
                order::lemma_of_key_contains(p2, key, p2[i]);
                order::lemma_of_key_contains(p, key, p2[i]);
                let j = choose|j: int| 0 <= j < p.len() && p[j] == p2[i];
                assert(world::newest_at(w, all, p[j].key()) <= p[j].action_sequence);
            }
        }
    }
    assert forall|key: u64| world::good(#[trigger] world::cell(w, new, p2, key), key) by {
        assert(world::good(world::cell(w, all, p, key), key));
    }
    assert forall|end: nat| #[trigger] world::bounded(w, all, p, end) implies world::bounded(
        w,
        new,
        p2,
        end,
    ) by {
        assert forall|key: u64| key >= end implies #[trigger] world::cell(w, new, p2, key) == Ok::<
            Option<FragmentView>,
            Error,
        >(None) && world::frontier(w, new, p2, key) == 0 by {
            assert(world::cell(w, all, p, key) == Ok::<Option<FragmentView>, Error>(None));
            assert(world::frontier(w, new, p2, key) <= world::frontier(w, all, p, key));
        }
        if new.len() > 0 {
            lemma_replaced_reach(w, x, s, y, s2, end);
        }
    }
}

proof fn lemma_replaced_reach(
    w: World,
    x: Seq<ChildView>,
    s: Seq<ChildView>,
    y: Seq<ChildView>,
    s2: Seq<ChildView>,
    end: nat,
)
    requires
        world::reach_over(w, x + s + y) < end,
        s2.len() > 0 ==> world::reach_over(w, s2) < end || (y.len() > 0 && world::reach_over(w, s2)
            < y[0].min_key),
        (x + s2 + y).len() > 0,
    ensures
        world::reach_over(w, x + s2 + y) < end,
{
    let all = x + s + y;
    let new = x + s2 + y;
    let n = x.len() as int;
    let m = s2.len() as int;
    world::lemma_reach_over(w, all);
    world::lemma_reach_over(w, s2);
    assert forall|i: int| 0 <= i < new.len() implies (#[trigger] new[i]).min_key < end
        && w.reach_of(new[i]) < end by {
        if i < n {
            assert(new[i] == all[i]);
        } else if i < n + m {
            assert(new[i] == s2[i - n]);
            if y.len() > 0 {
                assert(all[n + s.len()] == y[0]);
            }
        } else {
            assert(new[i] == all[i - m + s.len()]);
        }
    }
    world::lemma_reach_below(w, new, end);
}

proof fn lemma_replaced_capped(
    w: World,
    x: Seq<ChildView>,
    s: Seq<ChildView>,
    y: Seq<ChildView>,
    s2: Seq<ChildView>,
    cap: int,
)
    requires
        forall|bound: nat|
            bound >= cap && #[trigger] world::capped(w, s, bound) ==> world::capped(w, s2, bound),
    ensures
        forall|bound: nat|
            bound >= cap && #[trigger] world::capped(w, x + s + y, bound) ==> world::capped(
                w,
                x + s2 + y,
                bound,
            ),
{
    let all = x + s + y;
    let new = x + s2 + y;
    let n = x.len() as int;
    let m = s2.len() as int;
    assert forall|bound: nat|
        bound >= cap && #[trigger] world::capped(w, all, bound) implies world::capped(
        w,
        new,
        bound,
    ) by {
        assert(world::capped(w, s, bound)) by {
            assert forall|i: int| 0 <= i < s.len() implies w.peak_of(#[trigger] s[i]) <= bound by {
                assert(all[n + i] == s[i]);
            }
        }
        assert forall|i: int| 0 <= i < new.len() implies w.peak_of(#[trigger] new[i]) <= bound by {
            if n <= i < n + m {
                assert(new[i] == s2[i - n]);
            } else if i < n {
                assert(new[i] == all[i]);
            } else {
                assert(new[i] == all[i - m + s.len()]);
            }
        }
    }
}

proof fn lemma_replaced_sane(
    w: World,
    x: Seq<ChildView>,
    s: Seq<ChildView>,
    y: Seq<ChildView>,
    s2: Seq<ChildView>,
)
    requires
        world::sane(w, x + s + y),
        world::sane(w, s2),
        s.len() > 0,
        s2.len() > 0 ==> {
            &&& s2[0].height == s[0].height
            &&& s2[0].min_key == s[0].min_key || (x.len() == 0 && s2[0].min_key <= s[0].min_key)
            &&& y.len() > 0 ==> world::reach_over(w, s2) < y[0].min_key
        },
        forall|key: u64|
            !inside(x, s, y, key) ==> #[trigger] world::base_at(w, s2, key) is None
                && world::newest_at(w, s2, key) == 0,
    ensures
        world::sane(w, x + s2 + y),
{
    let all = x + s + y;
    let new = x + s2 + y;
    let n = x.len() as int;
    let m = s2.len() as int;
    lemma_replaced_fences(w, x, s, y, s2);
    assert forall|i: int, key: u64|
        0 <= i < new.len() && node::route(new, key) != i implies #[trigger] w.rec(
        new[i],
        key,
    ) is None && w.newest_of(new[i], key) == 0 by {
        lemma_replaced_route(x, s, y, s2, key);
        lemma_route_in(x, s, y, key);
        if n <= i < n + m {
            assert(new[i] == s2[i - n]);
            lemma_route_in(x, s2, y, key);
            if node::route(s2, key) == i - n {
                assert(!inside(x, s2, y, key));
                assert(world::base_at(w, s2, key) is None);
            } else {
                assert(w.rec(s2[i - n], key) is None);
            }
        } else {
            let k = if i < n {
                i
            } else {
                i - m + s.len()
            };
            assert(new[i] == all[k]);
            if node::route(all, key) == k {
                assert(!inside(x, s, y, key));
                assert(false);
            }
            assert(w.rec(all[k], key) is None);
        }
    }
    assert forall|i: int, key: u64| 0 <= i < new.len() implies world::proper(
        #[trigger] w.rec(new[i], key),
        key,
    ) by {
        if n <= i < n + m {
            assert(new[i] == s2[i - n]);
            assert(world::proper(w.rec(s2[i - n], key), key));
        } else {
            let k = if i < n {
                i
            } else {
                i - m + s.len()
            };
            assert(new[i] == all[k]);
            assert(world::proper(w.rec(all[k], key), key));
        }
    }
}

/// Replacing the middle of a level by children that hold the same, with what
/// is buffered above left alone.
pub proof fn lemma_splice(
    w: World,
    x: Seq<ChildView>,
    s: Seq<ChildView>,
    y: Seq<ChildView>,
    p: Seq<MutationView>,
    s2: Seq<ChildView>,
    cap: int,
)
    requires
        world::sound(w, x + s + y, p),
        s.len() > 0,
        s2.len() > 0,
        world::refines(w, s, no_mutations(), s2, no_mutations(), cap),
        s2[0].height == s[0].height,
        s2[0].min_key == s[0].min_key || (x.len() == 0 && s2[0].min_key <= s[0].min_key),
        cap < 0 || forall|i: int|
            0 <= i < p.len() ==> !inside(x, s, y, (#[trigger] p[i]).key()),
    ensures
        world::refines(w, x + s + y, p, x + s2 + y, p, cap),
{
    let all = x + s + y;
    lemma_middle(w, x, s, y);
    assert forall|key: u64|
        #![trigger world::base_at(w, s2, key)]
        world::base_at(w, s2, key) == world::base_at(w, s, key) && world::newest_at(w, s2, key)
            <= world::newest_at(w, s, key) by {
        lemma_bare_cell(w, s, key);
        lemma_bare_cell(w, s2, key);
        assert(world::cell(w, s2, no_mutations(), key) == world::cell(w, s, no_mutations(), key));
        assert(world::frontier(w, s2, no_mutations(), key) <= world::frontier(
            w,
            s,
            no_mutations(),
            key,
        ));
    }
    assert(middle_changed(w, x, s, y, p, s2, p, cap)) by {
        assert forall|key: u64|
            inside(x, s, y, key) implies #[trigger] world::cell(w, s2, p, key) == world::cell(
            w,
            all,
            p,
            key,
        ) by {
            let b = world::base_at(w, s2, key);
            let c = world::base_at(w, s, key);
        }
        assert forall|key: u64|
            inside(x, s, y, key) implies #[trigger] world::frontier(w, s2, p, key)
            <= world::frontier(w, all, p, key) by {
            let b = world::base_at(w, s2, key);
            let c = world::base_at(w, s, key);
        }
        assert forall|key: u64|
            !inside(x, s, y, key) implies #[trigger] world::base_at(w, s2, key) is None
            && world::newest_at(w, s2, key) == 0 by {
            let c = world::base_at(w, s, key);
        }
        if cap < 0 {
            assert forall|key: u64|
                inside(x, s, y, key) implies #[trigger] world::mark_at(w, s2, key)
                <= world::mark_at(w, all, key) by {
                let c = world::base_at(w, s, key);
                assert(world::mark_at(w, s2, key) <= world::mark_at(w, s, key));
            }
        }
        assert forall|i: int|
            0 <= i < p.len() && inside(x, s, y, (#[trigger] p[i]).key()) implies s2.len() > 0
            && world::newest_at(w, s2, p[i].key()) <= p[i].action_sequence && world::mark_at(
            w,
            s2,
            p[i].key(),
        ) < p[i].action_sequence by {
            let key = p[i].key();
            let b = world::base_at(w, s2, key);
            let c = world::base_at(w, s, key);
            assert(world::mark_at(w, s2, key) <= world::mark_at(w, s, key));
            assert(world::newest_at(w, all, key) <= p[i].action_sequence);
        }
        if y.len() > 0 {
            lemma_bare_bounded(w, x, s, y, y[0].min_key as nat);
            assert(world::bounded(w, s2, no_mutations(), y[0].min_key as nat));
        } else {
            assert forall|end: nat| #[trigger] world::bounded(w, all, p, end) implies
                world::reach_over(w, s2) < end by {
                lemma_tail_bounded(w, x, s, p, end);
                assert(world::bounded(w, s2, no_mutations(), end));
            }
        }
    }
    lemma_replace(w, x, s, y, p, s2, p, cap);
}

/// What lies before the rest of a list stays before its first fence.
proof fn lemma_bare_bounded(
    w: World,
    x: Seq<ChildView>,
    s: Seq<ChildView>,
    y: Seq<ChildView>,
    end: nat,
)
    requires
        world::sane(w, x + s + y),
        s.len() > 0,
        y.len() > 0,
        end == y[0].min_key,
    ensures
        world::bounded(w, s, no_mutations(), end),
{
    lemma_middle(w, x, s, y);
    assert forall|key: u64| key >= end implies #[trigger] world::cell(
        w,
        s,
        no_mutations(),
        key,
    ) == Ok::<Option<FragmentView>, Error>(None) && world::frontier(w, s, no_mutations(), key)
        == 0 by {
        lemma_route_in(x, s, y, key);
        lemma_bare_cell(w, s, key);
        let c = world::base_at(w, s, key);
    }
}

/// The end of a bounded level is bounded.
proof fn lemma_tail_bounded(
    w: World,
    x: Seq<ChildView>,
    s: Seq<ChildView>,
    p: Seq<MutationView>,
    end: nat,
)
    requires
        world::sane(w, x + s + Seq::<ChildView>::empty()),
        s.len() > 0,
        world::bounded(w, x + s + Seq::<ChildView>::empty(), p, end),
    ensures
        world::bounded(w, s, no_mutations(), end),
        forall|key: u64| key >= end ==> #[trigger] world::latest(p, key) == 0,
{
    let y = Seq::<ChildView>::empty();
    let all = x + s + y;
    lemma_middle(w, x, s, y);
    assert forall|key: u64| key >= end implies #[trigger] world::latest(p, key) == 0 by {
        let c = world::cell(w, all, p, key);
    }
    assert forall|key: u64| key >= end implies #[trigger] world::cell(
        w,
        s,
        no_mutations(),
        key,
    ) == Ok::<Option<FragmentView>, Error>(None) && world::frontier(w, s, no_mutations(), key)
        == 0 by {
        lemma_bare_cell(w, s, key);
        let b = world::base_at(w, s, key);
        assert(world::cell(w, all, p, key) == Ok::<Option<FragmentView>, Error>(None));
        assert(world::latest(p, key) == 0);
        world::lemma_latest_zero(p, key);
    }
}

/// Draining the mutations of some neighbouring children of a level into them.
pub proof fn lemma_drain(
    w: World,
    x: Seq<ChildView>,
    s: Seq<ChildView>,
    y: Seq<ChildView>,
    p: Seq<MutationView>,
    incoming: Seq<MutationView>,
    s2: Seq<ChildView>,
    p2: Seq<MutationView>,
    cap: int,
)
    requires
        s.len() > 0,
        world::sound(w, x + s + y, p),
        world::refines(w, s, incoming, s2, no_mutations(), cap),
        s2.len() == 0 || (s2[0].height == s[0].height && s2[0].min_key == s[0].min_key),
        cap >= 0,
        forall|key: u64|
            inside(x, s, y, key) ==> #[trigger] world::same_run(incoming, p, key),
        forall|key: u64|
            !inside(x, s, y, key) ==> #[trigger] order::of_key(incoming, key) == Seq::<
                MutationView,
            >::empty(),
        forall|key: u64|
            !inside(x, s, y, key) ==> #[trigger] world::same_run(p2, p, key),
        forall|key: u64|
            inside(x, s, y, key) ==> #[trigger] order::of_key(p2, key) == Seq::<
                MutationView,
            >::empty(),
    ensures
        world::refines(w, x + s + y, p, x + s2 + y, p2, cap),
{
    let all = x + s + y;
    lemma_middle(w, x, s, y);
    assert forall|key: u64|
        #![trigger world::base_at(w, s2, key)]
        Ok::<Option<FragmentView>, Error>(world::base_at(w, s2, key)) == world::cell(
            w,
            s,
            incoming,
            key,
        ) && world::newest_at(w, s2, key) <= world::frontier(w, s, incoming, key) by {
        lemma_bare_cell(w, s2, key);
        assert(world::cell(w, s2, no_mutations(), key) == world::cell(w, s, incoming, key));
        assert(world::frontier(w, s2, no_mutations(), key) <= world::frontier(
            w,
            s,
            incoming,
            key,
        ));
    }
    assert forall|key: u64|
        #![trigger order::of_key(p2, key)]
        inside(x, s, y, key) implies order::run(p2, key) == Seq::<MutationView>::empty()
        && world::latest(p2, key) == 0 by {
        lemma_empty_run(p2, key);
    }
    assert(middle_changed(w, x, s, y, p, s2, p2, cap)) by {
        assert(world::apart(p2)) by {
            assert forall|key: u64| order::distinct(#[trigger] order::of_key(p2, key)) by {
                if !inside(x, s, y, key) {
                    assert(world::same_run(p2, p, key));
                    assert(order::distinct(order::of_key(p, key)));
                }
            }
        }
        assert forall|key: u64|
            inside(x, s, y, key) implies #[trigger] world::cell(w, s2, p2, key) == world::cell(
            w,
            all,
            p,
            key,
        ) by {
            let b = world::base_at(w, s2, key);
            let b2 = world::base_at(w, s, key);
            let o = order::of_key(p2, key);
            assert(world::same_run(incoming, p, key));
            world::lemma_same_run_latest(incoming, p, key);
        }
        assert forall|key: u64|
            inside(x, s, y, key) implies #[trigger] world::frontier(w, s2, p2, key)
            <= world::frontier(w, all, p, key) by {
            let b = world::base_at(w, s2, key);
            let b2 = world::base_at(w, s, key);
            let o = order::of_key(p2, key);
            assert(world::same_run(incoming, p, key));
            world::lemma_same_run_latest(incoming, p, key);
        }
        assert forall|key: u64|
            !inside(x, s, y, key) implies #[trigger] world::base_at(w, s2, key) is None
            && world::newest_at(w, s2, key) == 0 by {
            let b2 = world::base_at(w, s, key);
            assert(order::of_key(incoming, key) == Seq::<MutationView>::empty());
            lemma_empty_run(incoming, key);
        }
        assert forall|i: int|
            0 <= i < p2.len() && inside(x, s, y, (#[trigger] p2[i]).key()) implies false by {
            let key = p2[i].key();
            assert(order::of_key(p2, key) == Seq::<MutationView>::empty());
            assert(p2.contains(p2[i]));
            order::lemma_of_key_contains(p2, key, p2[i]);
        }
        if s2.len() > 0 {
            if y.len() > 0 {
                lemma_child_bounded(w, x, s, y, p, incoming, y[0].min_key as nat);
                assert(world::bounded(w, s2, no_mutations(), y[0].min_key as nat));
            } else {
                assert forall|end: nat| #[trigger] world::bounded(w, all, p, end) implies
                    world::reach_over(w, s2) < end by {
                    lemma_child_bounded(w, x, s, y, p, incoming, end);
                    assert(world::bounded(w, s2, no_mutations(), end));
                }
            }
        }
    }
    lemma_replace(w, x, s, y, p, s2, p2, cap);
}

pub proof fn lemma_empty_run(p: Seq<MutationView>, key: u64)
    requires
        order::of_key(p, key) == Seq::<MutationView>::empty(),
    ensures
        order::run(p, key) == Seq::<MutationView>::empty(),
        world::latest(p, key) == 0,
{
    lemma_no_run(key);
    world::lemma_same_run_latest(p, no_mutations(), key);
}

/// Some neighbouring children with the mutations for them end where the next
/// one starts.
proof fn lemma_child_bounded(
    w: World,
    x: Seq<ChildView>,
    s: Seq<ChildView>,
    y: Seq<ChildView>,
    p: Seq<MutationView>,
    incoming: Seq<MutationView>,
    end: nat,
)
    requires
        s.len() > 0,
        world::sane(w, x + s + y),
        forall|key: u64|
            inside(x, s, y, key) ==> #[trigger] world::same_run(incoming, p, key),
        forall|key: u64|
            !inside(x, s, y, key) ==> #[trigger] order::of_key(incoming, key) == Seq::<
                MutationView,
            >::empty(),
        if y.len() > 0 {
            end == y[0].min_key
        } else {
            world::bounded(w, x + s + y, p, end)
        },
    ensures
        world::bounded(w, s, incoming, end),
{
    let all = x + s + y;
    if y.len() > 0 {
        lemma_bare_bounded(w, x, s, y, end);
    } else {
        assert(y =~= Seq::<ChildView>::empty());
        lemma_tail_bounded(w, x, s, p, end);
    }
    assert forall|key: u64| key >= end implies #[trigger] world::cell(w, s, incoming, key) == Ok::<
        Option<FragmentView>,
        Error,
    >(None) && world::frontier(w, s, incoming, key) == 0 by {
        lemma_bare_cell(w, s, key);
        assert(world::cell(w, s, no_mutations(), key) == Ok::<Option<FragmentView>, Error>(None));
        lemma_route_in(x, s, y, key);
        if inside(x, s, y, key) {
            assert(world::same_run(incoming, p, key));
            world::lemma_same_run_latest(incoming, p, key);
            assert(world::latest(p, key) == 0);
            world::lemma_latest_zero(incoming, key);
        } else {
            assert(order::of_key(incoming, key) == Seq::<MutationView>::empty());
            lemma_empty_run(incoming, key);
        }
    }
}

/// Some neighbouring children with the mutations for them are a sound level.
pub proof fn lemma_child_sound(
    w: World,
    x: Seq<ChildView>,
    s: Seq<ChildView>,
    y: Seq<ChildView>,
    p: Seq<MutationView>,
    incoming: Seq<MutationView>,
)
    requires
        s.len() > 0,
        world::sound(w, x + s + y, p),
        forall|key: u64|
            inside(x, s, y, key) ==> #[trigger] world::same_run(incoming, p, key),
        forall|key: u64|
            !inside(x, s, y, key) ==> #[trigger] order::of_key(incoming, key) == Seq::<
                MutationView,
            >::empty(),
    ensures
        world::sound(w, s, incoming),
{
    let all = x + s + y;
    lemma_middle(w, x, s, y);
    assert(world::apart(incoming)) by {
        assert forall|key: u64| order::distinct(#[trigger] order::of_key(incoming, key)) by {
            if inside(x, s, y, key) {
                assert(world::same_run(incoming, p, key));
                assert(order::distinct(order::of_key(p, key)));
            }
        }
    }
    assert(world::fresh(w, s, incoming)) by {
        assert forall|i: int| 0 <= i < incoming.len() implies world::newest_at(
            w,
            s,
            (#[trigger] incoming[i]).key(),
        ) <= incoming[i].action_sequence && world::mark_at(w, s, incoming[i].key())
            < incoming[i].action_sequence by {
            let key = incoming[i].key();
            assert(incoming.contains(incoming[i]));
            order::lemma_of_key_contains(incoming, key, incoming[i]);
            if !inside(x, s, y, key) {
                assert(order::of_key(incoming, key) == Seq::<MutationView>::empty());
                assert(false);
            }
            assert(world::same_run(incoming, p, key));
            order::lemma_of_key_contains(p, key, incoming[i]);
            let k = choose|k: int| 0 <= k < p.len() && p[k] == incoming[i];
            let b = world::base_at(w, s, key);
            assert(world::newest_at(w, all, p[k].key()) <= p[k].action_sequence);
        }
    }
    assert forall|key: u64| world::good(#[trigger] world::cell(w, s, incoming, key), key) by {
        let b = world::base_at(w, s, key);
        if inside(x, s, y, key) {
            assert(world::same_run(incoming, p, key));
            world::lemma_same_run_latest(incoming, p, key);
            assert(world::good(world::cell(w, all, p, key), key));
        } else {
            assert(order::of_key(incoming, key) == Seq::<MutationView>::empty());
            lemma_empty_run(incoming, key);
        }
    }
}

/// Raising the fence of a leaf past keys that nobody holds.
pub proof fn lemma_raise(
    w: World,
    x: Seq<ChildView>,
    c: ChildView,
    y: Seq<ChildView>,
    p: Seq<MutationView>,
    fence: u64,
)
    requires
        world::sound(w, x + seq![c] + y, p),
        c.height == 0,
        c.min_key <= fence,
        y.len() > 0 ==> fence < y[0].min_key,
        forall|end: nat|
            y.len() == 0 && #[trigger] world::bounded(w, x + seq![c] + y, p, end) ==> fence < end,
        forall|key: u64|
            c.min_key <= key < fence ==> #[trigger] w.rec(c, key) is None && order::of_key(p, key)
                == Seq::<MutationView>::empty(),
    ensures
        world::refines(
            w,
            x + seq![c] + y,
            p,
            x + seq![ChildView { min_key: fence, ..c }] + y,
            p,
            0,
        ),
{
    let d = ChildView { min_key: fence, ..c };
    let all = x + seq![c] + y;
    let new = x + seq![d] + y;
    let n = x.len() as int;
    assert(all[n] == c && new[n] == d);
    assert forall|i: int| 0 <= i < all.len() implies (#[trigger] new[i]).loc() == all[i].loc()
        && new[i].height == all[i].height && new[i].materialized_through_action_sequence
        == all[i].materialized_through_action_sequence && (i != n ==> new[i] == all[i]) by {}
    if y.len() > 0 {
        assert(all[n + 1] == y[0]);
    }
    assert forall|i: int, j: int| 0 <= i < j < new.len() implies (#[trigger] new[i]).min_key < (
    #[trigger] new[j]).min_key && w.reach_of(new[i]) < new[j].min_key by {
        assert(all[i].min_key < all[j].min_key);
        assert(w.reach_of(all[i]) < all[j].min_key);
        if i == n && j > n + 1 {
            assert(all[n + 1].min_key < all[j].min_key);
        }
    }
    assert(world::fences(new));
    // Only the keys in between go elsewhere, and nobody holds them.
    assert forall|key: u64|
        #![trigger node::route(new, key)]
        (node::route(new, key) == node::route(all, key) || (node::route(all, key) == n
            && node::route(new, key) == n - 1 && c.min_key <= key < fence)) && 0 <= node::route(
            all,
            key,
        ) < all.len() && 0 <= node::route(new, key) < new.len() by {
        node::lemma_route(all, key);
        let r = node::route(all, key);
        if r == n && n > 0 && key < fence {
            assert(new[n - 1] == all[n - 1]);
            assert(all[n - 1].min_key < all[n].min_key);
            world::lemma_route_is(new, key, n - 1);
        } else {
            if r + 1 < all.len() {
                assert(key < all[r + 1].min_key);
            }
            world::lemma_route_is(new, key, r);
        }
    }
    assert forall|key: u64|
        #![trigger world::base_at(w, new, key)]
        world::base_at(w, new, key) == world::base_at(w, all, key) && world::newest_at(w, new, key)
            == world::newest_at(w, all, key) && (node::route(new, key) != node::route(all, key)
            ==> order::of_key(p, key) == Seq::<MutationView>::empty()) && (node::route(new, key)
            == node::route(all, key) ==> world::mark_at(w, new, key) == world::mark_at(
            w,
            all,
            key,
        )) by {
        let r = node::route(new, key);
        let q = node::route(all, key);
        assert(new[r].loc() == all[r].loc());
        if r != q {
            assert(w.rec(c, key) is None);
            assert(w.rec(all[n - 1], key) is None);
        }
    }
    assert(world::sane(w, new)) by {
        assert forall|i: int, key: u64|
            0 <= i < new.len() && node::route(new, key) != i implies #[trigger] w.rec(
            new[i],
            key,
        ) is None && w.newest_of(new[i], key) == 0 by {
            let q = node::route(all, key);
            if q != i {
                assert(w.rec(all[i], key) is None);
            } else {
                assert(w.rec(c, key) is None);
            }
        }
        assert forall|i: int, key: u64| 0 <= i < new.len() implies world::proper(
            #[trigger] w.rec(new[i], key),
            key,
        ) by {
            assert(world::proper(w.rec(all[i], key), key));
        }
        assert forall|i: int| 0 <= i < new.len() implies (#[trigger] new[i]).height
            == new[0].height by {
            assert(all[i].height == all[0].height);
        }
    }
    assert(world::fresh(w, new, p)) by {
        assert forall|i: int| 0 <= i < p.len() implies world::newest_at(
            w,
            new,
            (#[trigger] p[i]).key(),
        ) <= p[i].action_sequence && world::mark_at(w, new, p[i].key()) < p[i].action_sequence by {
            let key = p[i].key();
            let b = world::base_at(w, new, key);
            assert(world::newest_at(w, all, key) <= p[i].action_sequence);
            if node::route(new, key) != node::route(all, key) {
                assert(p.contains(p[i]));
                order::lemma_of_key_contains(p, key, p[i]);
            }
        }
    }
    assert forall|key: u64| #[trigger]
        world::cell(w, new, p, key) == world::cell(w, all, p, key) by {
        let b = world::base_at(w, new, key);
    }
    assert forall|key: u64| #[trigger]
        world::frontier(w, new, p, key) <= world::frontier(w, all, p, key) by {
        let b = world::base_at(w, new, key);
    }
    assert forall|key: u64| world::good(#[trigger] world::cell(w, new, p, key), key) by {
        assert(world::good(world::cell(w, all, p, key), key));
    }
    assert forall|bound: nat| #[trigger] world::capped(w, all, bound) implies world::capped(
        w,
        new,
        bound,
    ) by {
        assert forall|i: int| 0 <= i < new.len() implies w.peak_of(#[trigger] new[i]) <= bound by {
            assert(w.peak_of(all[i]) <= bound);
        }
    }
    assert forall|end: nat| #[trigger] world::bounded(w, all, p, end) implies world::bounded(
        w,
        new,
        p,
        end,
    ) by {
        world::lemma_reach_over(w, all);
        assert forall|i: int| 0 <= i < new.len() implies (#[trigger] new[i]).min_key < end
            && w.reach_of(new[i]) < end by {
            assert(all[i].min_key <= world::reach_over(w, all));
            if i == n && y.len() > 0 {
                assert(all[n + 1].min_key <= world::reach_over(w, all));
            }
        }
        world::lemma_reach_below(w, new, end);
        assert forall|key: u64| key >= end implies #[trigger] world::cell(w, new, p, key) == Ok::<
            Option<FragmentView>,
            Error,
        >(None) && world::frontier(w, new, p, key) == 0 by {
            assert(world::cell(w, all, p, key) == Ok::<Option<FragmentView>, Error>(None));
            assert(world::frontier(w, new, p, key) <= world::frontier(w, all, p, key));
        }
    }
}

} // verus!
