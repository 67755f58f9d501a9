//! Who owns the objects a tree names: references with different base numbers
//! may name one dataset, so ownership follows where a reference resolves.

use vstd::prelude::*;

use crate::error::{Error, Reason};
use crate::leaf_reads;
use crate::leaf_reads::{
    BaseView, Dataset, DatasetView, ForeignBase, LocationView, NodeLocation,
};
use crate::store;
use crate::store::Stop;
use crate::tree::survey;
use crate::tree::survey::{Seen, Visit};
use crate::tree::FragmentTree;
use crate::views;

verus! {

broadcast use crate::views::group_views;

/// Where some objects resolve, in the order they are met, or what is found
/// first: a base that is not known, or an object that was met before.
pub open spec fn places(
    own: DatasetView,
    bases: Seq<BaseView>,
    version: u64,
    seen: Seq<Visit>,
) -> Result<Seq<LocationView>, Error>
    decreases seen.len(),
{
    if seen.len() == 0 {
        Ok(Seq::empty())
    } else {
        match places(own, bases, version, seen.drop_last()) {
            Err(error) => Err(error),
            Ok(list) => {
                let child = seen.last().child;
                match leaf_reads::dataset_of(own, bases, child.base_id) {
                    Err(error) => Err(error),
                    Ok(dataset) => if list.contains(dataset.place(child.path)) {
                        Err(Error::InvalidInput { reason: Reason::RepeatedNode { version } })
                    } else {
                        Ok(list.push(dataset.place(child.path)))
                    },
                }
            },
        }
    }
}

/// The paths of the objects that a dataset owns, or of all.
pub open spec fn owned_paths(
    seen: Seq<Visit>,
    places: Seq<LocationView>,
    owner: Option<DatasetView>,
) -> Seq<Seq<char>>
    decreases seen.len(),
{
    if seen.len() == 0 {
        Seq::empty()
    } else {
        let rest = owned_paths(seen.drop_last(), places.drop_last(), owner);
        let path = seen.last().child.path;
        if owner is None || owner->0.place(path) == places.last() {
            rest.push(path)
        } else {
            rest
        }
    }
}

/// What listing node paths gives: what is wrong with where they resolve, then
/// what reading the tree stops at, and else the paths in dictionary order.
pub open spec fn listed(
    found: Result<Seq<LocationView>, Error>,
    seen: Seq<Visit>,
    error: Option<Option<Error>>,
    owner: Option<DatasetView>,
    r: Result<Vec<String>, Stop>,
) -> bool {
    match found {
        Err(error) => r == Err::<Vec<String>, Stop>(Stop::Fail(error)),
        Ok(list) => {
            &&& survey::surveyed(error, r)
            &&& r matches Ok(paths) ==> survey::in_dictionary_order(views::all(paths@))
                && views::all(paths@).to_multiset() == owned_paths(seen, list, owner).to_multiset()
        },
    }
}

proof fn lemma_places_prefix(
    own: DatasetView,
    bases: Seq<BaseView>,
    version: u64,
    seen: Seq<Visit>,
    n: int,
)
    requires
        0 <= n <= seen.len(),
        places(own, bases, version, seen.take(n)) is Err,
    ensures
        places(own, bases, version, seen) == places(own, bases, version, seen.take(n)),
    decreases seen.len() - n,
{
    if n < seen.len() {
        assert(seen.take(n + 1).drop_last() =~= seen.take(n));
        lemma_places_prefix(own, bases, version, seen, n + 1);
    } else {
        assert(seen.take(n) =~= seen);
    }
}

/// Objects resolve to different places, each that of its own reference.
pub proof fn law_node_places_are_distinct(
    own: DatasetView,
    bases: Seq<BaseView>,
    version: u64,
    seen: Seq<Visit>,
)
    requires
        places(own, bases, version, seen) is Ok,
    ensures
        ({
            let list = places(own, bases, version, seen)->Ok_0;
            &&& list.len() == seen.len()
            &&& forall|i: int, j: int|
                0 <= i < j < list.len() ==> #[trigger] list[i] != #[trigger] list[j]
            &&& forall|i: int|
                0 <= i < list.len() ==> leaf_reads::dataset_of(
                    own,
                    bases,
                    (#[trigger] seen[i]).child.base_id,
                ) is Ok && list[i] == leaf_reads::dataset_of(
                    own,
                    bases,
                    seen[i].child.base_id,
                )->Ok_0.place(seen[i].child.path)
        }),
    decreases seen.len(),
{
    if seen.len() > 0 {
        let rest = seen.drop_last();
        law_node_places_are_distinct(own, bases, version, rest);
        let list = places(own, bases, version, seen)->Ok_0;
        let before = places(own, bases, version, rest)->Ok_0;
        assert(list =~= before.push(list.last()));
        assert forall|i: int, j: int| 0 <= i < j < list.len() implies #[trigger] list[i]
            != #[trigger] list[j] by {
            assert(before[i] == list[i]);
            assert(before.contains(before[i]));
            if j < before.len() {
                assert(before[j] == list[j]);
            }
        }
        assert forall|i: int| 0 <= i < list.len() implies leaf_reads::dataset_of(
            own,
            bases,
            (#[trigger] seen[i]).child.base_id,
        ) is Ok && list[i] == leaf_reads::dataset_of(
            own,
            bases,
            seen[i].child.base_id,
        )->Ok_0.place(seen[i].child.path) by {
            if i < rest.len() {
                assert(rest[i] == seen[i] && before[i] == list[i]);
            }
        }
    }
}

fn holds(list: &Vec<NodeLocation>, place: &NodeLocation) -> (r: bool)
    ensures
        r == views::all(list@).contains(place@),
{
    let ghost all = views::all(list@);
    let mut i: usize = 0;
    while i < list.len()
        invariant
            i <= list@.len(),
            all == views::all(list@),
            forall|k: int| 0 <= k < i ==> #[trigger] all[k] != place@,
        decreases list@.len() - i,
    {
        assert(all[i as int] == list@[i as int]@);
        if list[i].is(place) {
            return true;
        }
        i = i + 1;
    }
    false
}

fn find_places(own: &Dataset, bases: &Vec<ForeignBase>, version: u64, seen: &Vec<Seen>) -> (r:
    Result<Vec<NodeLocation>, Error>)
    ensures
        match places(own@, views::all(bases@), version, views::all(seen@)) {
            Ok(list) => r is Ok && views::all(r->Ok_0@) == list && list.len() == seen@.len(),
            Err(error) => r == Err::<Vec<NodeLocation>, Error>(error),
        },
{
    let ghost all = views::all(seen@);
    let ghost known = views::all(bases@);
    let mut list: Vec<NodeLocation> = Vec::new();
    let mut i: usize = 0;
    assert(views::all(list@) =~= Seq::<LocationView>::empty());
    while i < seen.len()
        invariant
            i <= seen@.len(),
            all == views::all(seen@),
            known == views::all(bases@),
            list@.len() == i,
            places(own@, known, version, all.take(i as int)) == Ok::<Seq<LocationView>, Error>(
                views::all(list@),
            ),
        decreases seen@.len() - i,
    {
        proof {
            assert(all.take(i + 1).drop_last() =~= all.take(i as int));
            assert(all.take(i + 1).last() == seen@[i as int]@);
            if places(own@, known, version, all.take(i + 1)) is Err {
                lemma_places_prefix(own@, known, version, all, i + 1);
            }
        }
        let dataset = match leaf_reads::child_dataset(own, bases, seen[i].child.base_id) {
            Err(error) => {
                return Err(error);
            },
            Ok(dataset) => dataset,
        };
        let place = dataset.place(&seen[i].child.path);
        if holds(&list, &place) {
            return Err(Error::InvalidInput { reason: Reason::RepeatedNode { version } });
        }
        list.push(place);
        i = i + 1;
    }
    assert(all.take(all.len() as int) =~= all);
    Ok(list)
}

impl FragmentTree {
    fn paths_owned(
        &self,
        own: &Dataset,
        bases: &Vec<ForeignBase>,
        owner: Option<&Dataset>,
    ) -> (r: Result<Vec<String>, Stop>)
        ensures
            ({
                let (seen, error) = survey::reached(self@, false);
                let found = places(own@, views::all(bases@), self@.version, seen);
                let wanted = match owner {
                    Some(owner) => Some(owner@),
                    None => None,
                };
                listed(found, seen, error, wanted, r)
            }),
            r matches Err(stop) ==> store::honest(stop, self@.store),
    {
        let (seen, stop) = self.survey(false);
        let ghost all = views::all(seen@);
        let resolved = match find_places(own, bases, self.version, &seen) {
            Err(error) => {
                return Err(Stop::Fail(error));
            },
            Ok(resolved) => resolved,
        };
        let ghost list = views::all(resolved@);
        if let Some(stop) = stop {
            return Err(stop);
        }
        let ghost wanted = match owner {
            Some(owner) => Some(owner@),
            None => None,
        };
        let mut paths: Vec<String> = Vec::new();
        let mut i: usize = 0;
        proof {
            assert(views::all(paths@) =~= owned_paths(all.take(0), list.take(0), wanted));
        }
        while i < seen.len()
            invariant
                i <= seen@.len(),
                resolved@.len() == seen@.len(),
                all == views::all(seen@),
                list == views::all(resolved@),
                wanted == match owner {
                    Some(owner) => Some(owner@),
                    None => None,
                },
                survey::in_dictionary_order(views::all(paths@)),
                views::all(paths@).to_multiset() == owned_paths(
                    all.take(i as int),
                    list.take(i as int),
                    wanted,
                ).to_multiset(),
            decreases seen@.len() - i,
        {
            proof {
                assert(all[i as int] == seen@[i as int]@);
                assert(list[i as int] == resolved@[i as int]@);
                assert(all.take(i + 1).drop_last() =~= all.take(i as int));
                assert(list.take(i + 1).drop_last() =~= list.take(i as int));
                owned_paths(all.take(i as int), list.take(i as int), wanted).to_multiset_ensures();
            }
            let mine: bool = match owner {
                Some(owner) => owner.place(&seen[i].child.path).is(&resolved[i]),
                None => true,
            };
            if mine {
                survey::insert_path(&mut paths, seen[i].child.path.clone());
            }
            i = i + 1;
        }
        proof {
            assert(all.take(all.len() as int) =~= all);
            assert(list.take(list.len() as int) =~= list);
        }
        Ok(paths)
    }

    /// Immutable node paths required by this snapshot, in dictionary order.
    /// Root bases and mutations_since_root belong to the manifest descriptor.
    /// References that resolve to one object are refused, also under different
    /// base numbers; one path in different datasets names different objects.
    pub fn node_paths(&self, own: &Dataset, bases: &Vec<ForeignBase>) -> (r: Result<
        Vec<String>,
        Stop,
    >)
        ensures
            ({
                let (seen, error) = survey::reached(self@, false);
                let found = places(own@, views::all(bases@), self@.version, seen);
                listed(found, seen, error, None, r)
            }),
            r matches Err(stop) ==> store::honest(stop, self@.store),
    {
        self.paths_owned(own, bases, None)
    }

    /// The node paths that the tree's own dataset owns.
    pub fn local_node_paths(&self, own: &Dataset, bases: &Vec<ForeignBase>) -> (r: Result<
        Vec<String>,
        Stop,
    >)
        ensures
            ({
                let (seen, error) = survey::reached(self@, false);
                let found = places(own@, views::all(bases@), self@.version, seen);
                listed(found, seen, error, Some(own@), r)
            }),
            r matches Err(stop) ==> store::honest(stop, self@.store),
    {
        self.paths_owned(own, bases, Some(own))
    }

    /// The node paths that a dataset owns.
    pub fn node_paths_owned_by(
        &self,
        own: &Dataset,
        bases: &Vec<ForeignBase>,
        owner: &Dataset,
    ) -> (r: Result<Vec<String>, Stop>)
        ensures
            ({
                let (seen, error) = survey::reached(self@, false);
                let found = places(own@, views::all(bases@), self@.version, seen);
                listed(found, seen, error, Some(owner@), r)
            }),
            r matches Err(stop) ==> store::honest(stop, self@.store),
    {
        self.paths_owned(own, bases, Some(owner))
    }
}

} // verus!
