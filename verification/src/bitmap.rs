//! Sets of fragment ids.

use roaring::RoaringBitmap;
use vstd::prelude::*;

verus! {

/// A compressed set of numbers, opaque here.
#[verifier::external_type_specification]
#[verifier::external_body]
pub struct ExRoaringBitmap(roaring::RoaringBitmap);

/// The numbers a bitmap holds.
pub uninterp spec fn members(bitmap: RoaringBitmap) -> Set<u32>;

/// `roaring::RoaringBitmap::contains` tells whether a number is in the set.
#[verifier::external_body]
fn contains(bitmap: &RoaringBitmap, value: u32) -> (r: bool)
    ensures
        r == members(*bitmap).contains(value),
{
    bitmap.contains(value)
}

/// The numbers of a set in an inclusive range.
pub open spec fn within(numbers: Set<u32>, low: u32, high: u32) -> Set<u32> {
    numbers.filter(|value: u32| low <= value <= high)
}

/// Whether a set holds a number of an inclusive range.
pub open spec fn any_within(numbers: Set<u32>, low: u32, high: u32) -> bool {
    exists|value: u32| low <= value <= high && #[trigger] numbers.contains(value)
}

/// `roaring::RoaringBitmap::range_cardinality` counts the numbers of the set
/// in an inclusive range.
#[verifier::external_body]
fn range_cardinality(bitmap: &RoaringBitmap, low: u32, high: u32) -> (r: u64)
    ensures
        r == within(members(*bitmap), low, high).len(),
        (r > 0) == any_within(members(*bitmap), low, high),
{
    bitmap.range_cardinality(low..=high)
}

/// `roaring::RoaringBitmap::from_iter` collects numbers into a set.
#[verifier::external_body]
pub(crate) fn collect(values: Vec<u32>) -> (r: RoaringBitmap)
    ensures
        members(r) == values@.to_set(),
{
    RoaringBitmap::from_iter(values)
}

/// Whether a set of ids holds a fragment. No set holds ids beyond `u32`.
pub open spec fn holds(ids: Set<u32>, fragment_id: u64) -> bool {
    fragment_id <= u32::MAX && ids.contains(fragment_id as u32)
}

pub fn bitmap_contains(fragment_ids: &RoaringBitmap, fragment_id: u64) -> (r: bool)
    ensures
        r == holds(members(*fragment_ids), fragment_id),
{
    if fragment_id > u32::MAX as u64 {
        false
    } else {
        contains(fragment_ids, fragment_id as u32)
    }
}

/// Whether a set of ids holds a fragment of a range.
pub open spec fn meets(ids: Set<u32>, lower_bound: u64, upper_bound: u64) -> bool {
    exists|id: u32| lower_bound <= id < upper_bound && #[trigger] ids.contains(id)
}

pub fn bitmap_intersects_range(
    fragment_ids: &RoaringBitmap,
    lower_bound: u64,
    upper_bound: u64,
) -> (r: bool)
    ensures
        r == meets(members(*fragment_ids), lower_bound, upper_bound),
{
    if upper_bound <= lower_bound || lower_bound > u32::MAX as u64 {
        return false;
    }
    let high: u32 = if upper_bound > u32::MAX as u64 {
        u32::MAX
    } else {
        (upper_bound - 1) as u32
    };
    range_cardinality(fragment_ids, lower_bound as u32, high) > 0
}

/// A fragment is in a set exactly where one of its numbers is the fragment's id.
pub proof fn law_held_fragment_is_a_member(ids: Set<u32>, fragment_id: u64)
    ensures
        holds(ids, fragment_id) == exists|id: u32| #[trigger]
            ids.contains(id) && id as int == fragment_id as int,
{
    if holds(ids, fragment_id) {
        assert(ids.contains(fragment_id as u32));
    }
}

/// A set meets a range exactly where it holds a fragment at or above its start
/// and below its end.
pub proof fn law_met_range_has_a_held_fragment(ids: Set<u32>, lower_bound: u64, upper_bound: u64)
    ensures
        meets(ids, lower_bound, upper_bound) == exists|fragment_id: u64|
            lower_bound <= fragment_id && fragment_id < upper_bound && #[trigger] holds(
                ids,
                fragment_id,
            ),
{
    if meets(ids, lower_bound, upper_bound) {
        let id = choose|id: u32| lower_bound <= id < upper_bound && #[trigger] ids.contains(id);
        assert(holds(ids, id as u64));
    }
    if exists|fragment_id: u64|
        lower_bound <= fragment_id && fragment_id < upper_bound && #[trigger] holds(
            ids,
            fragment_id,
        ) {
        let fragment_id = choose|fragment_id: u64|
            lower_bound <= fragment_id && fragment_id < upper_bound && #[trigger] holds(
                ids,
                fragment_id,
            );
        assert(ids.contains(fragment_id as u32));
    }
}

} // verus!
