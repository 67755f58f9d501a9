//! How many bytes messages take when encoded.
//!
//! Messages are protocol buffers. Every field number is below 16, so a field's
//! key takes one byte. Scalars that are zero and texts that are empty are not
//! stored, except where the field is optional or a member of a choice.
//! Lengths that do not fit in 64 bits are reported as the largest length.

use vstd::prelude::*;

use crate::node;
use crate::pb::{Action, ActionView, ChildView, DataFragment, DataFragmentView, DeletionFile,
    FragmentAction, FragmentMetadataChild, FragmentMetadataMutation, MutationView};
use crate::record::{DataFile, DataOverlayFile, FileView, LineageMeta, LineageView, OverlayView};
use crate::views;

verus! {

/// Bytes of a variable-length integer: seven bits to a byte, at least one.
pub open spec fn varint_len(value: nat) -> nat
    decreases value,
{
    if value < 0x80 {
        1
    } else {
        1 + varint_len(value / 0x80)
    }
}

/// `prost::encoding::encoded_len_varint` is the length of the value in base
/// 128, at least one byte.
pub assume_specification[ prost::encoding::encoded_len_varint ](value: u64) -> (r: usize)
    ensures
        r == varint_len(value as nat),
;

/// A length as reported: the length, or the largest one that can be reported.
pub open spec fn capped(len: nat) -> u64 {
    if len > u64::MAX {
        u64::MAX
    } else {
        len as u64
    }
}

/// The two's complement form in which negative numbers are stored.
pub open spec fn unsigned(value: int) -> nat {
    if value < 0 {
        (value + 0x1_0000_0000_0000_0000) as nat
    } else {
        value as nat
    }
}

pub proof fn lemma_varint_len(value: nat)
    requires
        value <= u64::MAX,
    ensures
        1 <= varint_len(value) <= 10,
{
    reveal_with_fuel(varint_len, 11);
}

// The length of one field.

pub open spec fn uint_len(value: nat) -> nat {
    if value == 0 {
        0
    } else {
        1 + varint_len(value)
    }
}

pub open spec fn opt_uint_len(value: Option<u32>) -> nat {
    match value {
        Some(value) => 1 + varint_len(value as nat),
        None => 0,
    }
}

pub open spec fn utf8_len(text: Seq<char>) -> nat {
    vstd::utf8::encode_utf8(text).len()
}

/// A length-delimited field that is always stored.
pub open spec fn delimited_len(payload: nat) -> nat {
    1 + varint_len(payload) + payload
}

pub open spec fn text_len(text: Seq<char>) -> nat {
    if text.len() == 0 {
        0
    } else {
        delimited_len(utf8_len(text))
    }
}

pub open spec fn ints_payload(values: Seq<i32>) -> nat
    decreases values.len(),
{
    if values.len() == 0 {
        0
    } else {
        ints_payload(values.drop_last()) + varint_len(unsigned(values.last() as int))
    }
}

/// A packed list of numbers.
pub open spec fn ints_len(values: Seq<i32>) -> nat {
    if values.len() == 0 {
        0
    } else {
        delimited_len(ints_payload(values))
    }
}

// The length of one message.

impl FileView {
    pub open spec fn encoded_len(self) -> nat {
        text_len(self.path) + ints_len(self.fields) + ints_len(self.column_indices) + uint_len(
            self.file_major_version as nat,
        ) + uint_len(self.file_minor_version as nat) + uint_len(self.file_size_bytes as nat)
            + opt_uint_len(self.base_id)
    }
}

impl OverlayView {
    pub open spec fn encoded_len(self) -> nat {
        delimited_len(self.data_file.encoded_len()) + self.overlay_meta.len()
    }
}

impl LineageView {
    /// The field that holds the lineage, whichever choice it is.
    pub open spec fn field_len(self) -> nat {
        match self {
            LineageView::Inline(bytes) => delimited_len(bytes.len()),
            LineageView::External { path, offset, size } => delimited_len(
                text_len(path) + uint_len(offset as nat) + uint_len(size as nat),
            ),
            LineageView::Column => delimited_len(0),
        }
    }
}

impl DeletionFile {
    pub open spec fn encoded_len(self) -> nat {
        uint_len(unsigned(self.file_type as int)) + uint_len(self.read_version as nat) + uint_len(
            self.id as nat,
        ) + uint_len(self.num_deleted_rows as nat) + opt_uint_len(self.base_id)
    }
}

pub open spec fn files_len(files: Seq<FileView>) -> nat
    decreases files.len(),
{
    if files.len() == 0 {
        0
    } else {
        files_len(files.drop_last()) + delimited_len(files.last().encoded_len())
    }
}

pub open spec fn overlays_len(overlays: Seq<OverlayView>) -> nat
    decreases overlays.len(),
{
    if overlays.len() == 0 {
        0
    } else {
        overlays_len(overlays.drop_last()) + delimited_len(overlays.last().encoded_len())
    }
}

pub open spec fn lineage_len(lineage: Option<LineageView>) -> nat {
    match lineage {
        Some(lineage) => lineage.field_len(),
        None => 0,
    }
}

pub open spec fn opt_deletion_len(file: Option<DeletionFile>) -> nat {
    match file {
        Some(file) => delimited_len(file.encoded_len()),
        None => 0,
    }
}

impl DataFragmentView {
    pub open spec fn encoded_len(self) -> nat {
        uint_len(self.id as nat) + files_len(self.files) + overlays_len(self.overlays)
            + opt_deletion_len(self.deletion_file) + lineage_len(self.row_id_sequence) + uint_len(
            self.physical_rows as nat,
        ) + lineage_len(self.last_updated_at_version_sequence) + lineage_len(
            self.created_at_version_sequence,
        )
    }
}

impl ActionView {
    /// The chosen member of an action message.
    pub open spec fn member_len(self) -> nat {
        match self {
            ActionView::AddFragment(fragment) => delimited_len(fragment.encoded_len()),
            ActionView::RemoveFragment(id) => 1 + varint_len(id as nat),
            ActionView::AddDataFile { frag_id, file } => delimited_len(
                uint_len(frag_id as nat) + match file {
                    Some(file) => delimited_len(file.encoded_len()),
                    None => 0,
                },
            ),
            ActionView::RemoveDataFile { frag_id, path } => delimited_len(
                uint_len(frag_id as nat) + text_len(path),
            ),
            ActionView::ReplaceDataFile {
                frag_id,
                expected_path,
                path,
                file_size_bytes,
                base_id,
            } => delimited_len(
                uint_len(frag_id as nat) + text_len(expected_path) + text_len(path) + uint_len(
                    file_size_bytes as nat,
                ) + opt_uint_len(base_id),
            ),
            ActionView::AddDeletionFile { frag_id, deletion_file } => delimited_len(
                uint_len(frag_id as nat) + opt_deletion_len(deletion_file),
            ),
            ActionView::ClearDeletionFile { frag_id } => delimited_len(uint_len(frag_id as nat)),
        }
    }
}

impl MutationView {
    pub open spec fn encoded_len(self) -> nat {
        uint_len(self.action_sequence as nat) + match self.action {
            Some(action) => delimited_len(
                match action {
                    Some(action) => action.member_len(),
                    None => 0,
                },
            ),
            None => 0,
        } + uint_len(unsigned(self.fragment_count_delta as int)) + uint_len(
            unsigned(self.total_rows_delta as int),
        ) + uint_len(unsigned(self.visible_rows_delta as int))
    }
}

impl ChildView {
    pub open spec fn encoded_len(self) -> nat {
        text_len(self.path) + opt_uint_len(self.base_id) + uint_len(self.min_key as nat) + uint_len(
            self.num_keys as nat,
        ) + uint_len(self.height as nat) + uint_len(self.num_children as nat) + uint_len(
            self.total_rows as nat,
        ) + uint_len(self.object_size as nat) + uint_len(
            self.materialized_through_action_sequence as nat,
        ) + uint_len(self.visible_rows as nat)
    }
}

// Computing them.

pub(crate) fn uint_bytes(value: u64) -> (r: u64)
    ensures
        r == uint_len(value as nat),
        r <= 11,
{
    proof {
        lemma_varint_len(value as nat);
    }
    if value == 0 {
        0
    } else {
        1 + prost::encoding::encoded_len_varint(value) as u64
    }
}

fn int_bytes(value: i64) -> (r: u64)
    ensures
        r == uint_len(unsigned(value as int)),
        r <= 11,
{
    uint_bytes(to_unsigned(value))
}

/// The two's complement form of a number.
fn to_unsigned(value: i64) -> (r: u64)
    ensures
        r == unsigned(value as int),
{
    if value >= 0 {
        value as u64
    } else {
        (value as i128 + 0x1_0000_0000_0000_0000) as u64
    }
}

fn opt_uint_bytes(value: Option<u32>) -> (r: u64)
    ensures
        r == opt_uint_len(value),
        r <= 11,
{
    match value {
        Some(value) => {
            proof {
                lemma_varint_len(value as nat);
            }
            1 + prost::encoding::encoded_len_varint(value as u64) as u64
        },
        None => 0,
    }
}

/// A length-delimited field around a payload of a reported length.
pub(crate) fn delimited_bytes(payload: u64, Ghost(len): Ghost<nat>) -> (r: u64)
    requires
        payload == capped(len),
    ensures
        r == capped(delimited_len(len)),
{
    proof {
        lemma_varint_len(payload as nat);
    }
    let head: u64 = 1 + prost::encoding::encoded_len_varint(payload) as u64;
    head.saturating_add(payload)
}

fn text_bytes(text: &String) -> (r: u64)
    ensures
        r == capped(text_len(text@)),
{
    if crate::replay::is_empty(text) {
        0
    } else {
        let len: usize = text.as_str().as_bytes().len();
        delimited_bytes(len as u64, Ghost(utf8_len(text@)))
    }
}

fn ints_bytes(values: &Vec<i32>) -> (r: u64)
    ensures
        r == capped(ints_len(values@)),
{
    let mut payload: u64 = 0;
    let mut i: usize = 0;
    while i < values.len()
        invariant
            i <= values@.len(),
            payload == capped(ints_payload(values@.take(i as int))),
        decreases values@.len() - i,
    {
        let value: u64 = to_unsigned(values[i] as i64);
        proof {
            assert(values@.take(i + 1).drop_last() =~= values@.take(i as int));
            lemma_varint_len(value as nat);
        }
        payload = payload.saturating_add(prost::encoding::encoded_len_varint(value) as u64);
        i = i + 1;
    }
    assert(values@.take(values@.len() as int) =~= values@);
    if values.len() == 0 {
        0
    } else {
        delimited_bytes(payload, Ghost(ints_payload(values@)))
    }
}

/// Encoded bytes of a data file.
pub fn file_bytes(file: &DataFile) -> (r: u64)
    ensures
        r == capped(file@.encoded_len()),
{
    text_bytes(&file.path).saturating_add(ints_bytes(&file.fields)).saturating_add(
        ints_bytes(&file.column_indices),
    ).saturating_add(uint_bytes(file.file_major_version as u64)).saturating_add(
        uint_bytes(file.file_minor_version as u64),
    ).saturating_add(uint_bytes(file.file_size_bytes)).saturating_add(
        opt_uint_bytes(file.base_id),
    )
}

fn overlay_bytes(overlay: &DataOverlayFile) -> (r: u64)
    ensures
        r == capped(overlay@.encoded_len()),
{
    let head: u64 = delimited_bytes(
        file_bytes(&overlay.data_file),
        Ghost(overlay@.data_file.encoded_len()),
    );
    head.saturating_add(overlay.overlay_meta.len() as u64)
}

fn lineage_bytes(lineage: &Option<LineageMeta>) -> (r: u64)
    ensures
        r == capped(lineage_len(views::opt(*lineage))),
{
    match lineage {
        None => 0,
        Some(LineageMeta::Inline(bytes)) => delimited_bytes(
            bytes.len() as u64,
            Ghost(bytes@.len()),
        ),
        Some(LineageMeta::External { path, offset, size }) => {
            let payload: u64 = text_bytes(path).saturating_add(uint_bytes(*offset)).saturating_add(
                uint_bytes(*size),
            );
            delimited_bytes(
                payload,
                Ghost(text_len(path@) + uint_len(*offset as nat) + uint_len(*size as nat)),
            )
        },
        Some(LineageMeta::Column) => delimited_bytes(0, Ghost(0)),
    }
}

fn deletion_bytes(file: &DeletionFile) -> (r: u64)
    ensures
        r == file.encoded_len(),
        r <= 100,
{
    int_bytes(file.file_type as i64) + uint_bytes(file.read_version) + uint_bytes(file.id)
        + uint_bytes(file.num_deleted_rows) + opt_uint_bytes(file.base_id)
}

fn opt_deletion_bytes(file: &Option<DeletionFile>) -> (r: u64)
    ensures
        r == capped(opt_deletion_len(*file)),
{
    match file {
        Some(file) => delimited_bytes(deletion_bytes(file), Ghost(file.encoded_len())),
        None => 0,
    }
}

fn files_bytes(files: &Vec<DataFile>) -> (r: u64)
    ensures
        r == capped(files_len(views::all(files@))),
{
    let ghost all = views::all(files@);
    let mut sum: u64 = 0;
    let mut i: usize = 0;
    while i < files.len()
        invariant
            i <= files@.len(),
            all == views::all(files@),
            sum == capped(files_len(all.take(i as int))),
        decreases files@.len() - i,
    {
        proof {
            assert(all.take(i + 1).drop_last() =~= all.take(i as int));
            assert(all.take(i + 1).last() == files@[i as int]@);
        }
        sum = sum.saturating_add(
            delimited_bytes(file_bytes(&files[i]), Ghost(files@[i as int]@.encoded_len())),
        );
        i = i + 1;
    }
    assert(all.take(all.len() as int) =~= all);
    sum
}

fn overlays_bytes(overlays: &Vec<DataOverlayFile>) -> (r: u64)
    ensures
        r == capped(overlays_len(views::all(overlays@))),
{
    let ghost all = views::all(overlays@);
    let mut sum: u64 = 0;
    let mut i: usize = 0;
    while i < overlays.len()
        invariant
            i <= overlays@.len(),
            all == views::all(overlays@),
            sum == capped(overlays_len(all.take(i as int))),
        decreases overlays@.len() - i,
    {
        proof {
            assert(all.take(i + 1).drop_last() =~= all.take(i as int));
            assert(all.take(i + 1).last() == overlays@[i as int]@);
        }
        sum = sum.saturating_add(
            delimited_bytes(
                overlay_bytes(&overlays[i]),
                Ghost(overlays@[i as int]@.encoded_len()),
            ),
        );
        i = i + 1;
    }
    assert(all.take(all.len() as int) =~= all);
    sum
}

/// Encoded bytes of a stored fragment record.
pub fn fragment_bytes(fragment: &DataFragment) -> (r: u64)
    ensures
        r == capped(fragment@.encoded_len()),
{
    uint_bytes(fragment.id).saturating_add(files_bytes(&fragment.files)).saturating_add(
        overlays_bytes(&fragment.overlays),
    ).saturating_add(opt_deletion_bytes(&fragment.deletion_file)).saturating_add(
        lineage_bytes(&fragment.row_id_sequence),
    ).saturating_add(uint_bytes(fragment.physical_rows)).saturating_add(
        lineage_bytes(&fragment.last_updated_at_version_sequence),
    ).saturating_add(lineage_bytes(&fragment.created_at_version_sequence))
}

fn member_bytes(action: &Action) -> (r: u64)
    ensures
        r == capped(action@.member_len()),
{
    match action {
        Action::AddFragment(fragment) => delimited_bytes(
            fragment_bytes(fragment),
            Ghost(fragment@.encoded_len()),
        ),
        Action::RemoveFragment(id) => {
            proof {
                lemma_varint_len(*id as nat);
            }
            1 + prost::encoding::encoded_len_varint(*id) as u64
        },
        Action::AddDataFile(a) => {
            let file: u64 = match &a.file {
                Some(file) => delimited_bytes(file_bytes(file), Ghost(file@.encoded_len())),
                None => 0,
            };
            delimited_bytes(
                uint_bytes(a.frag_id).saturating_add(file),
                Ghost(
                    uint_len(a.frag_id as nat) + match &a.file {
                        Some(file) => delimited_len(file@.encoded_len()),
                        None => 0,
                    },
                ),
            )
        },
        Action::RemoveDataFile(a) => delimited_bytes(
            uint_bytes(a.frag_id).saturating_add(text_bytes(&a.path)),
            Ghost(uint_len(a.frag_id as nat) + text_len(a.path@)),
        ),
        Action::ReplaceDataFile(a) => delimited_bytes(
            uint_bytes(a.frag_id).saturating_add(text_bytes(&a.expected_path)).saturating_add(
                text_bytes(&a.path),
            ).saturating_add(uint_bytes(a.file_size_bytes)).saturating_add(
                opt_uint_bytes(a.base_id),
            ),
            Ghost(
                uint_len(a.frag_id as nat) + text_len(a.expected_path@) + text_len(a.path@)
                    + uint_len(a.file_size_bytes as nat) + opt_uint_len(a.base_id),
            ),
        ),
        Action::AddDeletionFile(a) => delimited_bytes(
            uint_bytes(a.frag_id).saturating_add(opt_deletion_bytes(&a.deletion_file)),
            Ghost(uint_len(a.frag_id as nat) + opt_deletion_len(a.deletion_file)),
        ),
        Action::ClearDeletionFile(a) => delimited_bytes(
            uint_bytes(a.frag_id),
            Ghost(uint_len(a.frag_id as nat)),
        ),
    }
}

fn action_bytes(action: &FragmentAction) -> (r: u64)
    ensures
        r == capped(
            match action@ {
                Some(action) => action.member_len(),
                None => 0,
            },
        ),
{
    match &action.action {
        Some(action) => member_bytes(action),
        None => 0,
    }
}

/// Encoded bytes of a buffered mutation.
pub fn mutation_bytes(mutation: &FragmentMetadataMutation) -> (r: u64)
    ensures
        r == capped(mutation@.encoded_len()),
{
    let action: u64 = match &mutation.action {
        Some(action) => delimited_bytes(
            action_bytes(action),
            Ghost(
                match action@ {
                    Some(action) => action.member_len(),
                    None => 0,
                },
            ),
        ),
        None => 0,
    };
    uint_bytes(mutation.action_sequence).saturating_add(action).saturating_add(
        int_bytes(mutation.fragment_count_delta),
    ).saturating_add(int_bytes(mutation.total_rows_delta)).saturating_add(
        int_bytes(mutation.visible_rows_delta),
    )
}

/// Encoded bytes of a child reference.
pub fn child_bytes(child: &FragmentMetadataChild) -> (r: u64)
    ensures
        r == capped(child@.encoded_len()),
{
    text_bytes(&child.path).saturating_add(opt_uint_bytes(child.base_id)).saturating_add(
        uint_bytes(child.min_key),
    ).saturating_add(uint_bytes(child.num_keys)).saturating_add(
        uint_bytes(child.height as u64),
    ).saturating_add(uint_bytes(child.num_children as u64)).saturating_add(
        uint_bytes(child.total_rows),
    ).saturating_add(uint_bytes(child.object_size)).saturating_add(
        uint_bytes(child.materialized_through_action_sequence),
    ).saturating_add(uint_bytes(child.visible_rows))
}

/// A number in base 128, the least significant digit first and all but the last
/// digit marked.
pub open spec fn varint(value: nat) -> Seq<u8>
    decreases value,
{
    if value < 0x80 {
        seq![value as u8]
    } else {
        seq![(0x80 + value % 0x80) as u8] + varint(value / 0x80)
    }
}

/// The number that digits of base 128 stand for, whatever is marked.
pub open spec fn varint_value(bytes: Seq<u8>) -> int
    decreases bytes.len(),
{
    if bytes.len() == 0 {
        0
    } else {
        (bytes[0] as int) % 0x80 + 0x80 * varint_value(bytes.skip(1))
    }
}

/// The length of a number is that of its digits in base 128, which stand for
/// it.
pub proof fn law_varint_len_is_the_length(value: nat)
    ensures
        varint(value).len() == varint_len(value),
        varint_value(varint(value)) == value,
    decreases value,
{
    let bytes = varint(value);
    if value < 0x80 {
        assert(bytes.skip(1) =~= Seq::<u8>::empty());
        assert(varint_value(bytes.skip(1)) == 0);
    } else {
        law_varint_len_is_the_length(value / 0x80);
        assert(bytes.skip(1) =~= varint(value / 0x80));
        assert(bytes[0] == (0x80 + value % 0x80) as u8);
        assert((0x80 + value % 0x80) % 0x80 == value % 0x80) by (nonlinear_arith);
        assert(value == value % 0x80 + 0x80 * (value / 0x80)) by (nonlinear_arith);
    }
}

/// What a number adds to a message: its key and its digits where it is not
/// zero.
pub open spec fn adds(value: nat) -> nat {
    if value == 0 {
        0
    } else {
        1 + varint(value).len()
    }
}

/// What an owner adds to a message: its key and its digits, also where its
/// number is zero.
pub open spec fn owner_adds(base_id: Option<u32>) -> nat {
    match base_id {
        Some(id) => 1 + varint(id as nat).len(),
        None => 0,
    }
}

/// Each field of a reference adds to its length what that field takes, and
/// nothing where it has its default: a reference without anything takes no
/// bytes.
pub proof fn law_child_length_is_that_of_its_fields(c: ChildView)
    ensures
        (ChildView { base_id: None, ..c }).encoded_len() + owner_adds(c.base_id)
            == c.encoded_len(),
        (ChildView { min_key: 0, ..c }).encoded_len() + adds(c.min_key as nat) == c.encoded_len(),
        (ChildView { num_keys: 0, ..c }).encoded_len() + adds(c.num_keys as nat)
            == c.encoded_len(),
        (ChildView { height: 0, ..c }).encoded_len() + adds(c.height as nat) == c.encoded_len(),
        (ChildView { num_children: 0, ..c }).encoded_len() + adds(c.num_children as nat)
            == c.encoded_len(),
        (ChildView { total_rows: 0, ..c }).encoded_len() + adds(c.total_rows as nat)
            == c.encoded_len(),
        (ChildView { object_size: 0, ..c }).encoded_len() + adds(c.object_size as nat)
            == c.encoded_len(),
        (ChildView { materialized_through_action_sequence: 0, ..c }).encoded_len() + adds(
            c.materialized_through_action_sequence as nat,
        ) == c.encoded_len(),
        (ChildView { visible_rows: 0, ..c }).encoded_len() + adds(c.visible_rows as nat)
            == c.encoded_len(),
        c.path.len() > 0 ==> (ChildView { path: Seq::empty(), ..c }).encoded_len() + 1 + varint(
            utf8_len(c.path),
        ).len() + utf8_len(c.path) == c.encoded_len(),
        c.path.len() == 0 && c.base_id is None && c.min_key == 0 && c.num_keys == 0 && c.height
            == 0 && c.num_children == 0 && c.total_rows == 0 && c.object_size == 0
            && c.materialized_through_action_sequence == 0 && c.visible_rows == 0
            ==> c.encoded_len() == 0,
{
    law_varint_len_is_the_length(c.min_key as nat);
    law_varint_len_is_the_length(c.num_keys as nat);
    law_varint_len_is_the_length(c.height as nat);
    law_varint_len_is_the_length(c.num_children as nat);
    law_varint_len_is_the_length(c.total_rows as nat);
    law_varint_len_is_the_length(c.object_size as nat);
    law_varint_len_is_the_length(c.materialized_through_action_sequence as nat);
    law_varint_len_is_the_length(c.visible_rows as nat);
    law_varint_len_is_the_length(utf8_len(c.path));
    if let Some(id) = c.base_id {
        law_varint_len_is_the_length(id as nat);
    }
}

/// A negative number as it is stored, in two's complement of 64 bits.
pub open spec fn stored(value: i64) -> nat {
    if value < 0 {
        (0x1_0000_0000_0000_0000 + value) as nat
    } else {
        value as nat
    }
}

/// Each field of a mutation adds to its length what that field takes, and
/// nothing where it has its default. An action adds its key, its length and its
/// own bytes.
pub proof fn law_mutation_length_is_that_of_its_fields(m: MutationView)
    ensures
        (MutationView { action_sequence: 0, ..m }).encoded_len() + adds(m.action_sequence as nat)
            == m.encoded_len(),
        (MutationView { fragment_count_delta: 0, ..m }).encoded_len() + adds(
            stored(m.fragment_count_delta),
        ) == m.encoded_len(),
        (MutationView { total_rows_delta: 0, ..m }).encoded_len() + adds(
            stored(m.total_rows_delta),
        ) == m.encoded_len(),
        (MutationView { visible_rows_delta: 0, ..m }).encoded_len() + adds(
            stored(m.visible_rows_delta),
        ) == m.encoded_len(),
        m.action matches Some(Some(action)) ==> (MutationView { action: None, ..m }).encoded_len()
            + 1 + varint(action.member_len()).len() + action.member_len() == m.encoded_len(),
        m.action is None && m.action_sequence == 0 && m.fragment_count_delta == 0
            && m.total_rows_delta == 0 && m.visible_rows_delta == 0 ==> m.encoded_len() == 0,
{
    law_varint_len_is_the_length(m.action_sequence as nat);
    law_varint_len_is_the_length(stored(m.fragment_count_delta));
    law_varint_len_is_the_length(stored(m.total_rows_delta));
    law_varint_len_is_the_length(stored(m.visible_rows_delta));
    if let Some(Some(action)) = m.action {
        law_varint_len_is_the_length(action.member_len());
    }
}

/// Each field of a data file adds to its length what that field takes.
pub proof fn law_file_length_is_that_of_its_fields(f: FileView)
    ensures
        (FileView { file_major_version: 0, ..f }).encoded_len() + adds(
            f.file_major_version as nat,
        ) == f.encoded_len(),
        (FileView { file_minor_version: 0, ..f }).encoded_len() + adds(
            f.file_minor_version as nat,
        ) == f.encoded_len(),
        (FileView { file_size_bytes: 0, ..f }).encoded_len() + adds(f.file_size_bytes as nat)
            == f.encoded_len(),
        (FileView { base_id: None, ..f }).encoded_len() + owner_adds(f.base_id)
            == f.encoded_len(),
        f.path.len() > 0 ==> (FileView { path: Seq::empty(), ..f }).encoded_len() + 1 + varint(
            utf8_len(f.path),
        ).len() + utf8_len(f.path) == f.encoded_len(),
        (FileView { fields: Seq::empty(), ..f }).encoded_len() + ints_len(f.fields)
            == f.encoded_len(),
        (FileView { column_indices: Seq::empty(), ..f }).encoded_len() + ints_len(
            f.column_indices,
        ) == f.encoded_len(),
{
    law_varint_len_is_the_length(f.file_major_version as nat);
    law_varint_len_is_the_length(f.file_minor_version as nat);
    law_varint_len_is_the_length(f.file_size_bytes as nat);
    law_varint_len_is_the_length(utf8_len(f.path));
    if let Some(id) = f.base_id {
        law_varint_len_is_the_length(id as nat);
    }
}

/// A packed list of numbers adds its key, its length and its digits, one number
/// after the other; an empty list adds nothing.
pub proof fn law_packed_numbers_take_their_digits(values: Seq<i32>, value: i32)
    ensures
        ints_len(Seq::<i32>::empty()) == 0,
        values.len() > 0 ==> ints_len(values) == 1 + varint(ints_payload(values)).len()
            + ints_payload(values),
        ints_payload(Seq::<i32>::empty()) == 0,
        ints_payload(values.push(value)) == ints_payload(values) + varint(
            stored(value as i64),
        ).len(),
{
    law_varint_len_is_the_length(ints_payload(values));
    law_varint_len_is_the_length(stored(value as i64));
    assert(values.push(value).drop_last() =~= values);
}

/// Each field of a deletion file adds to its length what that field takes.
pub proof fn law_deletion_length_is_that_of_its_fields(d: DeletionFile)
    ensures
        (DeletionFile { read_version: 0, ..d }).encoded_len() + adds(d.read_version as nat)
            == d.encoded_len(),
        (DeletionFile { id: 0, ..d }).encoded_len() + adds(d.id as nat) == d.encoded_len(),
        (DeletionFile { file_type: 0, ..d }).encoded_len() + adds(stored(d.file_type as i64))
            == d.encoded_len(),
        (DeletionFile { num_deleted_rows: 0, ..d }).encoded_len() + adds(
            d.num_deleted_rows as nat,
        ) == d.encoded_len(),
        (DeletionFile { base_id: None, ..d }).encoded_len() + owner_adds(d.base_id)
            == d.encoded_len(),
        d.read_version == 0 && d.id == 0 && d.file_type == 0 && d.num_deleted_rows == 0
            && d.base_id is None ==> d.encoded_len() == 0,
{
    law_varint_len_is_the_length(d.read_version as nat);
    law_varint_len_is_the_length(d.id as nat);
    law_varint_len_is_the_length(stored(d.file_type as i64));
    law_varint_len_is_the_length(d.num_deleted_rows as nat);
    if let Some(id) = d.base_id {
        law_varint_len_is_the_length(id as nat);
    }
}

/// A message in front of its key and its length.
pub open spec fn wrapped(len: nat) -> nat {
    1 + varint(len).len() + len
}

/// Each field of a stored record adds to its length what that field takes: every
/// file and overlay, the deletion file and the lineages as messages of their own.
pub proof fn law_record_length_is_that_of_its_fields(
    f: DataFragmentView,
    file: FileView,
    overlay: OverlayView,
)
    ensures
        (DataFragmentView { id: 0, ..f }).encoded_len() + adds(f.id as nat) == f.encoded_len(),
        (DataFragmentView { physical_rows: 0, ..f }).encoded_len() + adds(f.physical_rows as nat)
            == f.encoded_len(),
        (DataFragmentView { files: f.files.push(file), ..f }).encoded_len() == f.encoded_len()
            + wrapped(file.encoded_len()),
        (DataFragmentView { overlays: f.overlays.push(overlay), ..f }).encoded_len()
            == f.encoded_len() + wrapped(overlay.encoded_len()),
        overlay.encoded_len() == wrapped(overlay.data_file.encoded_len())
            + overlay.overlay_meta.len(),
        f.deletion_file matches Some(d) ==> (DataFragmentView {
            deletion_file: None,
            ..f
        }).encoded_len() + wrapped(d.encoded_len()) == f.encoded_len(),
        f.row_id_sequence matches Some(l) ==> (DataFragmentView {
            row_id_sequence: None,
            ..f
        }).encoded_len() + l.field_len() == f.encoded_len(),
        f.last_updated_at_version_sequence matches Some(l) ==> (DataFragmentView {
            last_updated_at_version_sequence: None,
            ..f
        }).encoded_len() + l.field_len() == f.encoded_len(),
        f.created_at_version_sequence matches Some(l) ==> (DataFragmentView {
            created_at_version_sequence: None,
            ..f
        }).encoded_len() + l.field_len() == f.encoded_len(),
        f.id == 0 && f.physical_rows == 0 && f.files.len() == 0 && f.overlays.len() == 0
            && f.deletion_file is None && f.row_id_sequence is None
            && f.last_updated_at_version_sequence is None && f.created_at_version_sequence is None
            ==> f.encoded_len() == 0,
{
    law_varint_len_is_the_length(f.id as nat);
    law_varint_len_is_the_length(f.physical_rows as nat);
    law_varint_len_is_the_length(file.encoded_len());
    law_varint_len_is_the_length(overlay.encoded_len());
    law_varint_len_is_the_length(overlay.data_file.encoded_len());
    if let Some(d) = f.deletion_file {
        law_varint_len_is_the_length(d.encoded_len());
    }
    assert(f.files.push(file).drop_last() =~= f.files);
    assert(f.overlays.push(overlay).drop_last() =~= f.overlays);
}

/// A buffer or a list of references takes what its members take, each behind
/// its key and its length.
pub proof fn law_list_length_is_that_of_its_members(
    children: Seq<ChildView>,
    child: ChildView,
    buffer: Seq<MutationView>,
    m: MutationView,
)
    ensures
        node::children_len(Seq::<ChildView>::empty()) == 0,
        node::buffer_len(Seq::<MutationView>::empty()) == 0,
        node::children_len(children.push(child)) == node::children_len(children) + wrapped(
            child.encoded_len(),
        ),
        node::buffer_len(buffer.push(m)) == node::buffer_len(buffer) + wrapped(m.encoded_len()),
{
    law_varint_len_is_the_length(child.encoded_len());
    law_varint_len_is_the_length(m.encoded_len());
    assert(children.push(child).drop_last() =~= children);
    assert(buffer.push(m).drop_last() =~= buffer);
}

/// What a buffer holds is the messages of its mutations, one by one.
pub proof fn law_payload_is_that_of_its_mutations(buffer: Seq<MutationView>, m: MutationView)
    ensures
        node::payload_len(Seq::<MutationView>::empty()) == 0,
        node::payload_len(buffer.push(m)) == node::payload_len(buffer) + m.encoded_len(),
{
    assert(buffer.push(m).drop_last() =~= buffer);
}

} // verus!
