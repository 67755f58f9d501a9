//! Tiered manifest layout.
//!
//! The root holds references to children plus a bounded buffer of fragments;
//! what overflows is sealed into immutable files under
//! [`MANIFEST_CHILDREN_DIR`].

use vstd::prelude::*;

use crate::paths;
use crate::record::{Fragment, FragmentView};
use crate::rows;
use crate::rows::OffsetView;
use crate::text;
use crate::views;

verus! {

broadcast use crate::views::group_views;

pub const MANIFEST_CHILDREN_DIR: &'static str = "_manifest_children";

pub const MANIFEST_LAYOUT_KEY: &'static str = "lance.manifest.layout";

pub const MANIFEST_BUFFER_CAP_KEY: &'static str = "lance.manifest.buffer_cap";

pub const MANIFEST_LAYOUT_TIERED: &'static str = "tiered";

pub const MANIFEST_LAYOUT_FLAT: &'static str = "flat";

pub const DEFAULT_MANIFEST_BUFFER_CAP: usize = 100_000;

/// A sealed run of fragments as the root refers to it.
#[derive(Debug)]
pub struct FragmentManifestRef {
    pub path: String,
    pub min_fragment_id: u64,
    pub max_fragment_id: u64,
    pub row_offset_start: u64,
    pub total_rows: u64,
    pub fragment_count: u32,
    pub byte_size: u64,
}

pub struct RefView {
    pub path: Seq<char>,
    pub min_fragment_id: u64,
    pub max_fragment_id: u64,
    pub row_offset_start: u64,
    pub total_rows: u64,
    pub fragment_count: u32,
    pub byte_size: u64,
}

impl View for FragmentManifestRef {
    type V = RefView;

    open spec fn view(&self) -> RefView {
        RefView {
            path: self.path@,
            min_fragment_id: self.min_fragment_id,
            max_fragment_id: self.max_fragment_id,
            row_offset_start: self.row_offset_start,
            total_rows: self.total_rows,
            fragment_count: self.fragment_count,
            byte_size: self.byte_size,
        }
    }
}

impl Clone for FragmentManifestRef {
    fn clone(&self) -> (r: Self)
        ensures
            r@ == self@,
    {
        FragmentManifestRef {
            path: self.path.clone(),
            min_fragment_id: self.min_fragment_id,
            max_fragment_id: self.max_fragment_id,
            row_offset_start: self.row_offset_start,
            total_rows: self.total_rows,
            fragment_count: self.fragment_count,
            byte_size: self.byte_size,
        }
    }
}

impl FragmentManifestRef {
    /// The size of the child's file, where it is known.
    pub fn size_hint(&self) -> (r: Option<u64>)
        ensures
            r == if self@.byte_size > 0 {
                Some(self@.byte_size)
            } else {
                None
            },
    {
        if self.byte_size > 0 {
            Some(self.byte_size)
        } else {
            None
        }
    }
}

/// Where the rows of sealed children end.
pub open spec fn spilled(children: Seq<RefView>) -> int {
    if children.len() == 0 {
        0
    } else {
        children.last().row_offset_start + children.last().total_rows
    }
}

/// The rows of sealed children.
pub fn spilled_rows(children: &Vec<FragmentManifestRef>) -> (r: u64)
    requires
        spilled(views::all(children@)) <= u64::MAX,
    ensures
        r == spilled(views::all(children@)),
{
    let n: usize = children.len();
    if n == 0 {
        0
    } else {
        let ghost all = views::all(children@);
        assert(all.last() == children@[n - 1]@);
        children[n - 1].row_offset_start + children[n - 1].total_rows
    }
}

pub(crate) fn run_rows(fragments: &Vec<Fragment>) -> (r: u64)
    requires
        rows::total(views::all(fragments@)) <= u64::MAX,
    ensures
        r == rows::total(views::all(fragments@)),
{
    let ghost all = views::all(fragments@);
    let mut sum: u64 = 0;
    let mut i: usize = 0;
    while i < fragments.len()
        invariant
            i <= fragments@.len(),
            all == views::all(fragments@),
            rows::total(all) <= u64::MAX,
            sum == rows::total(all.take(i as int)),
        decreases fragments@.len() - i,
    {
        proof {
            let taken = all.take(i + 1);
            assert(taken.drop_last() =~= all.take(i as int));
            assert(taken.last() == fragments@[i as int]@);
            assert(all =~= taken + all.skip(i + 1));
            rows::lemma_total_join(taken, all.skip(i + 1));
        }
        let visible: u64 = match fragments[i].num_rows() {
            Some(count) => count as u64,
            None => 0,
        };
        sum = sum + visible;
        i = i + 1;
    }
    assert(all.take(all.len() as int) =~= all);
    sum
}

/// The reference to a run of fragments.
pub open spec fn sealed(fragments: Seq<FragmentView>, path: Seq<char>, row_offset_start: u64) -> RefView {
    RefView {
        path,
        min_fragment_id: fragments[0].id,
        max_fragment_id: fragments.last().id,
        row_offset_start,
        total_rows: rows::total(fragments) as u64,
        fragment_count: fragments.len() as u32,
        byte_size: 0,
    }
}

/// Describe a run of fragments for the root. The run is not empty.
pub fn seal_run(fragments: &Vec<Fragment>, path: String, row_offset_start: u64) -> (r:
    FragmentManifestRef)
    requires
        fragments@.len() > 0,
        rows::total(views::all(fragments@)) <= u64::MAX,
    ensures
        r@ == sealed(views::all(fragments@), path@, row_offset_start),
{
    let ghost all = views::all(fragments@);
    let total_rows = run_rows(fragments);
    let n: usize = fragments.len();
    assert(all[0] == fragments@[0]@);
    assert(all.last() == fragments@[n - 1]@);
    FragmentManifestRef {
        path,
        min_fragment_id: fragments[0].id,
        max_fragment_id: fragments[n - 1].id,
        row_offset_start,
        total_rows,
        fragment_count: n as u32,
        byte_size: 0,
    }
}

/// The path of a child with an identifier.
pub open spec fn child_path_of(
    version: u64,
    min_fragment_id: u64,
    max_fragment_id: u64,
    identifier: Seq<u8>,
) -> Seq<char> {
    "_manifest_children/v"@ + text::decimal(version as nat) + "-"@ + text::decimal(
        min_fragment_id as nat,
    ) + "-"@ + text::decimal(max_fragment_id as nat) + "-"@ + paths::hex(identifier)
        + ".manifest"@
}

/// Whether a path is one a new child may get.
pub open spec fn child_named(
    path: Seq<char>,
    version: u64,
    min_fragment_id: u64,
    max_fragment_id: u64,
) -> bool {
    exists|identifier: Seq<u8>|
        identifier.len() == 16 && path == #[trigger] child_path_of(
            version,
            min_fragment_id,
            max_fragment_id,
            identifier,
        )
}

/// A path for a new child: readable, and unique by an identifier drawn anew.
pub fn child_path(version: u64, min_fragment_id: u64, max_fragment_id: u64) -> (r: String)
    ensures
        child_named(r@, version, min_fragment_id, max_fragment_id),
{
    let identifier = paths::new_identifier();
    match paths::simple_text(&identifier) {
        Some(unique) => {
            let path = String::from_str("_manifest_children/v").concat(
                text::decimal_text(version as u128).as_str(),
            ).concat("-").concat(text::decimal_text(min_fragment_id as u128).as_str()).concat(
                "-",
            ).concat(text::decimal_text(max_fragment_id as u128).as_str()).concat("-").concat(
                unique.as_str(),
            ).concat(".manifest");
            assert(path@ == child_path_of(
                version,
                min_fragment_id,
                max_fragment_id,
                identifier@,
            ));
            path
        },
        None => String::new(),
    }
}

/// Where a row of a tiered layout is.
#[derive(Clone, Copy, Debug, PartialEq, Eq)]
pub enum RowLocation {
    Buffer { local_row: u64 },
    Child { index: usize, local_row: u64 },
}

/// The children at the front that start at or before a row.
pub open spec fn started(children: Seq<RefView>, row: u64) -> int
    decreases children.len(),
{
    if children.len() == 0 {
        0
    } else if children.last().row_offset_start <= row {
        children.len() as int
    } else {
        started(children.drop_last(), row)
    }
}

/// Whether children are in order of where their rows start.
pub open spec fn in_row_order(children: Seq<RefView>) -> bool {
    forall|i: int, j: int|
        0 <= i <= j < children.len() ==> (#[trigger] children[i]).row_offset_start <= (
        #[trigger] children[j]).row_offset_start
}

pub proof fn lemma_started(children: Seq<RefView>, row: u64)
    requires
        in_row_order(children),
    ensures
        0 <= started(children, row) <= children.len(),
        forall|i: int|
            0 <= i < started(children, row) ==> (#[trigger] children[i]).row_offset_start <= row,
        forall|i: int|
            started(children, row) <= i < children.len() ==> (
            #[trigger] children[i]).row_offset_start > row,
    decreases children.len(),
{
    if children.len() > 0 {
        let last = children[children.len() - 1];
        if last.row_offset_start <= row {
            assert forall|i: int| 0 <= i < children.len() implies (
            #[trigger] children[i]).row_offset_start <= row by {
                assert(children[i].row_offset_start <= last.row_offset_start);
            }
        } else {
            let rest = children.drop_last();
            assert forall|i: int, j: int| 0 <= i <= j < rest.len() implies (
            #[trigger] rest[i]).row_offset_start <= (#[trigger] rest[j]).row_offset_start by {
                assert(children[i].row_offset_start <= children[j].row_offset_start);
            }
            lemma_started(rest, row);
            assert forall|i: int| 0 <= i < started(children, row) implies (
            #[trigger] children[i]).row_offset_start <= row by {
                assert(rest[i] == children[i]);
            }
            assert forall|i: int| started(children, row) <= i < children.len() implies (
            #[trigger] children[i]).row_offset_start > row by {
                if i < rest.len() {
                    assert(rest[i] == children[i]);
                }
            }
        }
    }
}

/// Where a row is, by where the rows of the children start and how many rows
/// they and the buffer hold.
pub open spec fn located(children: Seq<RefView>, buffer_rows: u64, row: u64) -> Option<
    RowLocation,
> {
    if row < spilled(children) {
        let index = started(children, row) - 1;
        Some(
            RowLocation::Child {
                index: index as usize,
                local_row: (row - children[index].row_offset_start) as u64,
            },
        )
    } else if row < spilled(children) + buffer_rows {
        Some(RowLocation::Buffer { local_row: (row - spilled(children)) as u64 })
    } else {
        None
    }
}

/// Find the child or buffer position that holds a row. The children are in
/// order of where their rows start, the first of them at or before the row.
pub fn locate_row(children: &Vec<FragmentManifestRef>, buffer_rows: u64, row: u64) -> (r: Option<
    RowLocation,
>)
    requires
        in_row_order(views::all(children@)),
        spilled(views::all(children@)) <= u64::MAX,
        row >= spilled(views::all(children@)) ==> spilled(views::all(children@)) + buffer_rows
            <= u64::MAX,
        row < spilled(views::all(children@)) ==> views::all(children@)[0].row_offset_start <= row,
    ensures
        r == located(views::all(children@), buffer_rows, row),
        r matches Some(RowLocation::Child { index, .. }) ==> index < children@.len(),
{
    let ghost all = views::all(children@);
    let end: u64 = spilled_rows(children);
    if row < end {
        proof {
            lemma_started(all, row);
            assert(all[0].row_offset_start <= row);
        }
        let mut low: usize = 0;
        let mut high: usize = children.len();
        while low < high
            invariant
                all == views::all(children@),
                in_row_order(all),
                0 <= low <= started(all, row) <= high <= children@.len(),
            decreases high - low,
        {
            let middle: usize = low + (high - low) / 2;
            proof {
                lemma_started(all, row);
                assert(all[middle as int] == children@[middle as int]@);
            }
            if children[middle].row_offset_start <= row {
                low = middle + 1;
            } else {
                high = middle;
            }
        }
        let index: usize = low - 1;
        assert(all[index as int] == children@[index as int]@);
        Some(RowLocation::Child { index, local_row: row - children[index].row_offset_start })
    } else if row < end + buffer_rows {
        Some(RowLocation::Buffer { local_row: row - end })
    } else {
        None
    }
}

/// The id of the record that holds a row.
pub open spec fn holder(found: OffsetView) -> Option<u64> {
    match found {
        OffsetView::Found(fragment, _) => Some(fragment.id),
        OffsetView::BeyondEnd => None,
    }
}

/// The fragment that holds a row, counting visible rows from the first.
pub fn fragment_at_local_row(fragments: &Vec<Fragment>, local_row: u64) -> (r: Option<u64>)
    ensures
        r == holder(rows::at_offset(views::all(fragments@), local_row)),
{
    let ghost all = views::all(fragments@);
    let mut left: u64 = local_row;
    let mut i: usize = 0;
    assert(all.skip(0) =~= all);
    while i < fragments.len()
        invariant
            i <= fragments@.len(),
            all == views::all(fragments@),
            rows::at_offset(all, local_row) == rows::at_offset(all.skip(i as int), left),
        decreases fragments@.len() - i,
    {
        let ghost rest = all.skip(i as int);
        assert(rest[0] == fragments@[i as int]@);
        assert(rest.skip(1) =~= all.skip(i + 1));
        let visible: u64 = match fragments[i].num_rows() {
            Some(count) => count as u64,
            None => 0,
        };
        if left < visible {
            return Some(fragments[i].id);
        }
        left = left - visible;
        i = i + 1;
    }
    None
}

/// Where a row is found adds up: the rows before the child or the buffer and
/// the row's place in it give the row. The child is the last that starts at or
/// before the row, and a row is not found where there are not that many.
pub proof fn law_located_row_adds_up(children: Seq<RefView>, buffer_rows: u64, row: u64)
    requires
        in_row_order(children),
        children.len() <= usize::MAX,
        children.len() > 0 ==> children[0].row_offset_start <= row,
    ensures
        ({
            let end = if children.len() == 0 {
                0
            } else {
                children.last().row_offset_start + children.last().total_rows
            };
            match located(children, buffer_rows, row) {
                Some(RowLocation::Child { index, local_row }) => {
                    &&& row < end
                    &&& index < children.len()
                    &&& children[index as int].row_offset_start + local_row == row
                    &&& forall|i: int| index < i < children.len() ==> row < (
                    #[trigger] children[i]).row_offset_start
                },
                Some(RowLocation::Buffer { local_row }) => {
                    &&& end + local_row == row
                    &&& local_row < buffer_rows
                },
                None => end + buffer_rows <= row,
            }
        }),
{
    lemma_started(children, row);
    if children.len() > 0 {
        assert(children[0].row_offset_start <= row);
        if started(children, row) == 0 {
            assert(children[0].row_offset_start > row);
        }
    }
}

/// The reference to a run says which ids it starts and ends with, how many
/// fragments it has and how many rows of them are left, and where its rows
/// start.
pub proof fn law_sealed_run_is_described(
    fragments: Seq<FragmentView>,
    path: Seq<char>,
    row_offset_start: u64,
)
    requires
        0 < fragments.len() <= u32::MAX,
        crate::reading_laws::rows_left_of(fragments) <= u64::MAX,
    ensures
        ({
            let reference = sealed(fragments, path, row_offset_start);
            &&& reference.path == path
            &&& reference.min_fragment_id == fragments[0].id
            &&& reference.max_fragment_id == fragments[fragments.len() - 1].id
            &&& reference.row_offset_start == row_offset_start
            &&& reference.total_rows == crate::reading_laws::rows_left_of(fragments)
            &&& reference.fragment_count == fragments.len()
            &&& reference.byte_size == 0
        }),
{
    rows::law_total_counts_the_rows_left(fragments);
}

/// The fragment that holds a row is the one among whose rows it is, counting
/// those left before it; there is none where the run has not that many rows.
pub proof fn law_local_row_is_held(fragments: Seq<FragmentView>, local_row: u64)
    ensures
        match holder(rows::at_offset(fragments, local_row)) {
            Some(id) => exists|i: int|
                #![trigger fragments[i]]
                0 <= i < fragments.len() && fragments[i].id == id
                    && crate::reading_laws::rows_left_of(fragments.take(i)) <= local_row
                    && local_row < crate::reading_laws::rows_left_of(fragments.take(i + 1)),
            None => crate::reading_laws::rows_left_of(fragments) <= local_row,
        },
{
    rows::law_offset_counts_visible_rows(fragments, local_row);
    rows::law_total_counts_the_rows_left(fragments);
    if local_row < rows::total(fragments) {
        let i = choose|i: int|
            0 <= i < fragments.len() && rows::at_offset(fragments, local_row)
                == OffsetView::Found(
                fragments[i],
                (local_row - rows::total(#[trigger] fragments.take(i))) as u64,
            ) && rows::total(fragments.take(i)) <= local_row < rows::total(fragments.take(i))
                + rows::visible(fragments[i]);
        rows::law_total_counts_the_rows_left(fragments.take(i));
        rows::law_total_counts_the_rows_left(fragments.take(i + 1));
        assert(fragments.take(i + 1).drop_last() =~= fragments.take(i));
        assert(fragments.take(i + 1).last() == fragments[i]);
        assert(fragments[i].id == fragments[i].id);
    }
}

/// The path of a child names its version, its first and its last fragment, in
/// this order, and an identifier of its own.
pub proof fn law_child_path_names_its_run(
    version: u64,
    min_fragment_id: u64,
    max_fragment_id: u64,
    identifier: Seq<u8>,
)
    ensures
        ({
            let path = child_path_of(version, min_fragment_id, max_fragment_id, identifier);
            let a = text::decimal(version as nat);
            let b = text::decimal(min_fragment_id as nat);
            let c = text::decimal(max_fragment_id as nat);
            let from = 20 + a.len() as int;
            &&& path.subrange(0, 20) == "_manifest_children/v"@
            &&& path.subrange(20, from) == a
            &&& path[from] == '-'
            &&& path.subrange(from + 1, from + 1 + b.len()) == b
            &&& path[from + 1 + b.len()] == '-'
            &&& path.subrange(from + 2 + b.len(), from + 2 + b.len() + c.len()) == c
            &&& path[from + 2 + b.len() + c.len()] == '-'
            &&& path.skip(path.len() - 9) == ".manifest"@
        }),
{
    reveal_strlit("_manifest_children/v");
    reveal_strlit("-");
    reveal_strlit(".manifest");
    let path = child_path_of(version, min_fragment_id, max_fragment_id, identifier);
    let a = text::decimal(version as nat);
    let b = text::decimal(min_fragment_id as nat);
    let c = text::decimal(max_fragment_id as nat);
    let from = 20 + a.len() as int;
    assert(path.subrange(0, 20) =~= "_manifest_children/v"@);
    assert(path.subrange(20, from) =~= a);
    assert(path.subrange(from + 1, from + 1 + b.len()) =~= b);
    assert(path.subrange(from + 2 + b.len(), from + 2 + b.len() + c.len()) =~= c);
    assert(path.skip(path.len() - 9) =~= ".manifest"@);
}

} // verus!
