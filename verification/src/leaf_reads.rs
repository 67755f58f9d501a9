//! Checking what is read of a leaf against the reference to it, and where the
//! objects that references name live.

use vstd::prelude::*;

use crate::error::{Error, Reason};
use crate::inherit;
use crate::leaf;
use crate::leaf::{HeaderCell, HeaderView, HeadersView, LeafHeaders};
use crate::paths;
use crate::pb::{ChildView, FragmentMetadataChild};
use crate::record::{Fragment, FragmentView};
use crate::store;
use crate::views;

verus! {

broadcast use crate::views::group_views;

/// The id and header columns of some rows, of one length.
pub struct HeaderBatch {
    ids: Vec<Option<u64>>,
    headers: Vec<Option<HeaderCell>>,
}

pub struct BatchView {
    pub ids: Seq<Option<u64>>,
    pub headers: Seq<Option<HeaderView>>,
}

impl View for HeaderBatch {
    type V = BatchView;

    closed spec fn view(&self) -> BatchView {
        BatchView { ids: self.ids@, headers: views::opts(self.headers@) }
    }
}

impl HeaderBatch {
    #[verifier::type_invariant]
    spec fn one_length(self) -> bool {
        self.ids@.len() == self.headers@.len()
    }

    pub fn new(ids: Vec<Option<u64>>, headers: Vec<Option<HeaderCell>>) -> (r: Self)
        requires
            ids@.len() == headers@.len(),
        ensures
            r@ == (BatchView { ids: ids@, headers: views::opts(headers@) }),
    {
        HeaderBatch { ids, headers }
    }
}

/// Headers with the rows of some batches, up to the first refused row.
pub open spec fn batches_added(headers: HeadersView, batches: Seq<BatchView>, n: int) -> (
    HeadersView,
    Option<Error>,
)
    decreases n,
{
    if n <= 0 {
        (headers, None)
    } else {
        let (before, error) = batches_added(headers, batches, n - 1);
        match error {
            Some(_) => (before, error),
            None => leaf::headers_extended(before, batches[n - 1].ids, batches[n - 1].headers),
        }
    }
}

/// Headers without any row.
pub open spec fn no_headers() -> HeadersView {
    HeadersView {
        kept: Seq::empty(),
        first_id: None,
        total_rows: 0,
        visible_rows: 0,
        last_id: None,
    }
}

/// Whether headers are those of the leaf that a reference describes.
pub open spec fn headers_match(headers: HeadersView, child: ChildView) -> bool {
    &&& headers.kept.len() == child.num_keys
    &&& headers.first_id matches Some(first) ==> child.min_key <= first
    &&& headers.total_rows == child.total_rows
    &&& headers.visible_rows == child.visible_rows
}

/// The records of a leaf without files and overlays, checked against every
/// field of the reference that the leaf determines.
pub open spec fn checked_headers(
    child: ChildView,
    num_rows: u64,
    batches: Seq<BatchView>,
) -> Result<Seq<FragmentView>, Error> {
    if num_rows != child.num_keys {
        Err(
            Error::CorruptFile {
                reason: Reason::LeafRows { rows: num_rows, num_keys: child.num_keys },
            },
        )
    } else {
        let (headers, error) = batches_added(no_headers(), batches, batches.len() as int);
        match error {
            Some(error) => Err(error),
            None => if headers_match(headers, child) {
                Ok(headers.kept)
            } else {
                Err(
                    Error::CorruptFile {
                        reason: Reason::LeafHeadersDiffer {
                            keys: headers.kept.len() as u64,
                            first_id: headers.first_id,
                            total_rows: headers.total_rows,
                            visible_rows: headers.visible_rows,
                            num_keys: child.num_keys,
                            min_key: child.min_key,
                            declared_total_rows: child.total_rows,
                            declared_visible_rows: child.visible_rows,
                        },
                    },
                )
            },
        }
    }
}

proof fn lemma_batches_stop(headers: HeadersView, batches: Seq<BatchView>, n: int, m: int)
    requires
        0 <= n <= m,
        batches_added(headers, batches, n).1 is Some,
    ensures
        batches_added(headers, batches, m) == batches_added(headers, batches, n),
    decreases m - n,
{
    if n < m {
        lemma_batches_stop(headers, batches, n, m - 1);
    }
}

/// The records of a leaf without files and overlays, as read in batches from
/// a file with some number of rows.
pub fn headers_of(child: &FragmentMetadataChild, num_rows: u64, batches: &Vec<HeaderBatch>) -> (r:
    Result<Vec<Fragment>, Error>)
    ensures
        match checked_headers(child@, num_rows, views::all(batches@)) {
            Ok(records) => r is Ok && views::all(r->Ok_0@) == records,
            Err(error) => r == Err::<Vec<Fragment>, Error>(error),
        },
{
    if num_rows != child.num_keys {
        return Err(
            Error::CorruptFile {
                reason: Reason::LeafRows { rows: num_rows, num_keys: child.num_keys },
            },
        );
    }
    let ghost all = views::all(batches@);
    let mut headers = LeafHeaders::new();
    let mut i: usize = 0;
    while i < batches.len()
        invariant
            i <= batches@.len(),
            num_rows == child@.num_keys,
            all == views::all(batches@),
            batches_added(no_headers(), all, i as int) == (headers@, None::<Error>),
        decreases batches@.len() - i,
    {
        let batch = &batches[i];
        assert(all[i as int] == batch@);
        proof {
            use_type_invariant(batch);
        }
        match headers.extend(&batch.ids, &batch.headers) {
            Ok(()) => {},
            Err(error) => {
                proof {
                    lemma_batches_stop(no_headers(), all, i + 1, all.len() as int);
                }
                return Err(error);
            },
        }
        i = i + 1;
    }
    headers.checked(child)
}

impl LeafHeaders {
    fn checked(self, child: &FragmentMetadataChild) -> (r: Result<Vec<Fragment>, Error>)
        ensures
            if headers_match(self@, child@) {
                r is Ok && views::all(r->Ok_0@) == self@.kept
            } else {
                r == Err::<Vec<Fragment>, Error>(
                    Error::CorruptFile {
                        reason: Reason::LeafHeadersDiffer {
                            keys: self@.kept.len() as u64,
                            first_id: self@.first_id,
                            total_rows: self@.total_rows,
                            visible_rows: self@.visible_rows,
                            num_keys: child@.num_keys,
                            min_key: child@.min_key,
                            declared_total_rows: child@.total_rows,
                            declared_visible_rows: child@.visible_rows,
                        },
                    },
                )
            },
    {
        let keys: u64 = self.kept.len() as u64;
        let below = match self.first_id {
            Some(first) => child.min_key > first,
            None => false,
        };
        if keys != child.num_keys || below || self.total_rows != child.total_rows
            || self.visible_rows != child.visible_rows {
            return Err(
                Error::CorruptFile {
                    reason: Reason::LeafHeadersDiffer {
                        keys,
                        first_id: self.first_id,
                        total_rows: self.total_rows,
                        visible_rows: self.visible_rows,
                        num_keys: child.num_keys,
                        min_key: child.min_key,
                        declared_total_rows: child.total_rows,
                        declared_visible_rows: child.visible_rows,
                    },
                },
            );
        }
        Ok(self.kept)
    }
}

/// The row of a fragment among records in increasing order of their ids.
pub fn row_of(records: &Vec<Fragment>, fragment_id: u64) -> (r: Option<usize>)
    requires
        store::ascending(views::all(records@)),
    ensures
        match r {
            Some(row) => row < records@.len() && records@[row as int].id == fragment_id,
            None => forall|i: int|
                0 <= i < records@.len() ==> (#[trigger] records@[i]).id != fragment_id,
        },
{
    let ghost all = views::all(records@);
    let mut low: usize = 0;
    let mut high: usize = records.len();
    while low < high
        invariant
            low <= high <= records@.len(),
            all == views::all(records@),
            store::ascending(all),
            forall|i: int| 0 <= i < low ==> (#[trigger] all[i]).id < fragment_id,
            forall|i: int| high <= i < all.len() ==> (#[trigger] all[i]).id > fragment_id,
        decreases high - low,
    {
        let middle: usize = low + (high - low) / 2;
        assert(all[middle as int] == records@[middle as int]@);
        if records[middle].id == fragment_id {
            return Some(middle);
        }
        if records[middle].id < fragment_id {
            assert forall|i: int| 0 <= i < middle + 1 implies (
            #[trigger] all[i]).id < fragment_id by {
                if i < middle {
                    assert(all[i].id < all[middle as int].id);
                }
            }
            low = middle + 1;
        } else {
            assert forall|i: int| middle <= i < all.len() implies (
            #[trigger] all[i]).id > fragment_id by {
                if i > middle {
                    assert(all[middle as int].id < all[i].id);
                }
            }
            high = middle;
        }
    }
    assert forall|i: int| 0 <= i < records@.len() implies (
    #[trigger] records@[i]).id != fragment_id by {
        assert(all[i] == records@[i]@);
    }
    None
}

/// What reading one row of a leaf gives: the one record it holds, which is
/// that of the fragment, owned by the dataset the reference names.
pub open spec fn row_fragment(
    decoded: Seq<FragmentView>,
    row: u64,
    fragment_id: u64,
    base_id: Option<u32>,
) -> Result<FragmentView, Error> {
    if decoded.len() == 1 && decoded[0].id == fragment_id {
        Ok(
            match base_id {
                Some(base) => decoded[0].stamped(base),
                None => decoded[0],
            },
        )
    } else {
        Err(Error::CorruptFile { reason: Reason::LeafRow { row, id: fragment_id } })
    }
}

/// Check what one row of a leaf decodes to.
pub fn checked_row(
    decoded: &Vec<Fragment>,
    row: u64,
    fragment_id: u64,
    base_id: Option<u32>,
) -> (r: Result<Fragment, Error>)
    ensures
        match row_fragment(views::all(decoded@), row, fragment_id, base_id) {
            Ok(record) => r is Ok && r->Ok_0@ == record,
            Err(error) => r == Err::<Fragment, Error>(error),
        },
{
    let ghost all = views::all(decoded@);
    if decoded.len() != 1 || decoded[0].id != fragment_id {
        return Err(Error::CorruptFile { reason: Reason::LeafRow { row, id: fragment_id } });
    }
    let mut fragment = decoded[0].clone();
    assert(all[0] == decoded@[0]@);
    if let Some(base) = base_id {
        inherit::stamp_unset_base_id(&mut fragment, base);
    }
    Ok(fragment)
}

// Where objects live.

/// Where a dataset lives. Stores in memory may share a prefix, so what tells
/// such a store apart from others stands beside it.
pub struct Dataset {
    pub store_prefix: String,
    pub memory_store: Option<usize>,
    pub base: String,
}

pub struct DatasetView {
    pub store_prefix: Seq<char>,
    pub memory_store: Option<usize>,
    pub base: Seq<char>,
}

impl View for Dataset {
    type V = DatasetView;

    open spec fn view(&self) -> DatasetView {
        DatasetView {
            store_prefix: self.store_prefix@,
            memory_store: self.memory_store,
            base: self.base@,
        }
    }
}

/// Where an object lives: the identity that every decision on who owns it
/// compares.
pub struct NodeLocation {
    pub store_prefix: String,
    pub memory_store: Option<usize>,
    pub path: String,
}

pub struct LocationView {
    pub store_prefix: Seq<char>,
    pub memory_store: Option<usize>,
    pub path: Seq<char>,
}

impl View for NodeLocation {
    type V = LocationView;

    open spec fn view(&self) -> LocationView {
        LocationView {
            store_prefix: self.store_prefix@,
            memory_store: self.memory_store,
            path: self.path@,
        }
    }
}

impl DatasetView {
    /// Where a path resolves in the dataset.
    pub open spec fn place(self, path: Seq<char>) -> LocationView {
        LocationView {
            store_prefix: self.store_prefix,
            memory_store: self.memory_store,
            path: paths::below(self.base, path),
        }
    }
}

impl Clone for Dataset {
    fn clone(&self) -> (r: Self)
        ensures
            r@ == self@,
    {
        Dataset {
            store_prefix: self.store_prefix.clone(),
            memory_store: self.memory_store,
            base: self.base.clone(),
        }
    }
}

impl Dataset {
    /// Where a path resolves in the dataset.
    pub fn place(&self, path: &String) -> (r: NodeLocation)
        ensures
            r@ == self@.place(path@),
    {
        NodeLocation {
            store_prefix: self.store_prefix.clone(),
            memory_store: self.memory_store,
            path: paths::join(&self.base, path),
        }
    }
}

impl NodeLocation {
    pub(crate) fn is(&self, other: &NodeLocation) -> (r: bool)
        ensures
            r == (self@ == other@),
    {
        self.memory_store == other.memory_store && self.path == other.path && self.store_prefix
            == other.store_prefix
    }
}

/// A dataset that a tree may refer to by number.
pub struct ForeignBase {
    pub id: u32,
    pub dataset: Dataset,
}

pub struct BaseView {
    pub id: u32,
    pub dataset: DatasetView,
}

impl View for ForeignBase {
    type V = BaseView;

    open spec fn view(&self) -> BaseView {
        BaseView { id: self.id, dataset: self.dataset@ }
    }
}

/// The dataset with a number.
pub open spec fn base_with(bases: Seq<BaseView>, id: u32) -> Option<DatasetView>
    decreases bases.len(),
{
    if bases.len() == 0 {
        None
    } else if bases[0].id == id {
        Some(bases[0].dataset)
    } else {
        base_with(bases.skip(1), id)
    }
}

/// The dataset that owns the object a reference names.
pub open spec fn dataset_of(own: DatasetView, bases: Seq<BaseView>, base_id: Option<u32>) -> Result<
    DatasetView,
    Error,
> {
    match base_id {
        None => Ok(own),
        Some(id) => match base_with(bases, id) {
            Some(dataset) => Ok(dataset),
            None => Err(Error::CorruptFile { reason: Reason::UnknownBase { base_id: id } }),
        },
    }
}

/// The dataset that owns the object a reference names: its own, or one that
/// the tree was opened with.
pub fn child_dataset(own: &Dataset, bases: &Vec<ForeignBase>, base_id: Option<u32>) -> (r: Result<
    Dataset,
    Error,
>)
    ensures
        match dataset_of(own@, views::all(bases@), base_id) {
            Ok(dataset) => r is Ok && r->Ok_0@ == dataset,
            Err(error) => r == Err::<Dataset, Error>(error),
        },
{
    let ghost all = views::all(bases@);
    let id: u32 = match base_id {
        None => {
            return Ok(own.clone());
        },
        Some(id) => id,
    };
    let mut i: usize = 0;
    assert(all.skip(0) =~= all);
    while i < bases.len()
        invariant
            i <= bases@.len(),
            all == views::all(bases@),
            base_id == Some(id),
            base_with(all, id) == base_with(all.skip(i as int), id),
        decreases bases@.len() - i,
    {
        let ghost rest = all.skip(i as int);
        assert(rest[0] == bases@[i as int]@);
        assert(rest.skip(1) =~= all.skip(i + 1));
        if bases[i].id == id {
            return Ok(bases[i].dataset.clone());
        }
        i = i + 1;
    }
    Err(Error::CorruptFile { reason: Reason::UnknownBase { base_id: id } })
}

/// Where the object a reference names lives: inside the tree's directory of
/// the dataset that owns it.
pub fn resolve_child(own: &Dataset, bases: &Vec<ForeignBase>, child: &FragmentMetadataChild) -> (r:
    Result<String, Error>)
    ensures
        match dataset_of(own@, views::all(bases@), child@.base_id) {
            Err(error) => r == Err::<String, Error>(error),
            Ok(dataset) => match paths::path_fault(child@.path, paths::parsed_path(child@.path)) {
                Some(reason) => r == Err::<String, Error>(Error::CorruptFile { reason }),
                None => r is Ok && r->Ok_0@ == paths::below(dataset.base, child@.path),
            },
        },
{
    match child_dataset(own, bases, child.base_id) {
        Ok(dataset) => paths::resolve_under(&dataset.base, &child.path),
        Err(error) => Err(error),
    }
}

} // verus!
