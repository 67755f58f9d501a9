//! What a caller is told of a refusal.

use vstd::prelude::*;

use crate::error::{Aggregate, EditKind, Error, LeafField, Reason};
use crate::text;
use crate::views;

verus! {

broadcast use crate::views::group_views;

/// A part of a sentence.
pub enum Piece {
    Text(&'static str),
    Number(i128),
}

pub enum PieceView {
    Text(Seq<char>),
    Number(int),
}

impl View for Piece {
    type V = PieceView;

    open spec fn view(&self) -> PieceView {
        match self {
            Piece::Text(words) => PieceView::Text(words@),
            Piece::Number(value) => PieceView::Number(*value as int),
        }
    }
}

/// A part of a sentence as text.
pub open spec fn written(piece: PieceView) -> Seq<char> {
    match piece {
        PieceView::Text(words) => words,
        PieceView::Number(value) => text::signed(value),
    }
}

/// A sentence.
pub open spec fn told(pieces: Seq<PieceView>) -> Seq<char>
    decreases pieces.len(),
{
    if pieces.len() == 0 {
        Seq::empty()
    } else {
        told(pieces.drop_last()) + written(pieces.last())
    }
}

fn tell(pieces: &Vec<Piece>) -> (r: String)
    ensures
        r@ == told(views::all(pieces@)),
{
    let ghost all = views::all(pieces@);
    let mut out = String::new();
    let mut i: usize = 0;
    assert(out@ =~= told(all.take(0)));
    while i < pieces.len()
        invariant
            i <= pieces@.len(),
            all == views::all(pieces@),
            out@ == told(all.take(i as int)),
        decreases pieces@.len() - i,
    {
        proof {
            assert(all.take(i + 1).drop_last() =~= all.take(i as int));
            assert(all.take(i + 1).last() == pieces@[i as int]@);
        }
        out = match &pieces[i] {
            Piece::Text(words) => out.concat(words),
            Piece::Number(value) => out.concat(text::signed_text(*value).as_str()),
        };
        i = i + 1;
    }
    assert(all.take(all.len() as int) =~= all);
    out
}

impl EditKind {
    pub open spec fn name(self) -> Seq<char> {
        match self {
            EditKind::AddDataFile => "AddDataFile"@,
            EditKind::RemoveDataFile => "RemoveDataFile"@,
            EditKind::ReplaceDataFile => "ReplaceDataFile"@,
            EditKind::AddDeletionFile => "AddDeletionFile"@,
            EditKind::ClearDeletionFile => "ClearDeletionFile"@,
        }
    }

    /// How messages name it.
    pub fn text(&self) -> (r: &'static str)
        ensures
            r@ == self.name(),
    {
        match self {
            EditKind::AddDataFile => "AddDataFile",
            EditKind::RemoveDataFile => "RemoveDataFile",
            EditKind::ReplaceDataFile => "ReplaceDataFile",
            EditKind::AddDeletionFile => "AddDeletionFile",
            EditKind::ClearDeletionFile => "ClearDeletionFile",
        }
    }
}

impl Aggregate {
    pub open spec fn name(self) -> Seq<char> {
        match self {
            Aggregate::NumKeys => "num_keys"@,
            Aggregate::TotalRows => "total_rows"@,
            Aggregate::VisibleRows => "visible_rows"@,
            Aggregate::FragmentCountDelta => "fragment_count_delta"@,
            Aggregate::TotalRowsDelta => "total_rows_delta"@,
            Aggregate::VisibleRowsDelta => "visible_rows_delta"@,
            Aggregate::TotalFragments => "total_fragments"@,
            Aggregate::Fragments => "Fragments"@,
            Aggregate::PhysicalRows => "physical rows"@,
            Aggregate::DerivedVisibleRows => "visible rows"@,
        }
    }

    /// How messages name it.
    pub fn text(&self) -> (r: &'static str)
        ensures
            r@ == self.name(),
    {
        match self {
            Aggregate::NumKeys => "num_keys",
            Aggregate::TotalRows => "total_rows",
            Aggregate::VisibleRows => "visible_rows",
            Aggregate::FragmentCountDelta => "fragment_count_delta",
            Aggregate::TotalRowsDelta => "total_rows_delta",
            Aggregate::VisibleRowsDelta => "visible_rows_delta",
            Aggregate::TotalFragments => "total_fragments",
            Aggregate::Fragments => "Fragments",
            Aggregate::PhysicalRows => "physical rows",
            Aggregate::DerivedVisibleRows => "visible rows",
        }
    }
}

impl LeafField {
    pub open spec fn name(self) -> Seq<char> {
        match self {
            LeafField::Id => "id"@,
            LeafField::FragmentMeta => "fragment_meta"@,
            LeafField::Files => "files"@,
            LeafField::Item => "item"@,
            LeafField::Path => "path"@,
            LeafField::FieldIds => "field_ids"@,
            LeafField::ColumnIndices => "column_indices"@,
            LeafField::MajorVersion => "major_version"@,
            LeafField::MinorVersion => "minor_version"@,
            LeafField::FileSizeBytes => "file_size_bytes"@,
            LeafField::Overlays => "overlays"@,
            LeafField::DataFile => "data_file"@,
            LeafField::OverlayMeta => "overlay_meta"@,
        }
    }

    /// How messages name it.
    pub fn text(&self) -> (r: &'static str)
        ensures
            r@ == self.name(),
    {
        match self {
            LeafField::Id => "id",
            LeafField::FragmentMeta => "fragment_meta",
            LeafField::Files => "files",
            LeafField::Item => "item",
            LeafField::Path => "path",
            LeafField::FieldIds => "field_ids",
            LeafField::ColumnIndices => "column_indices",
            LeafField::MajorVersion => "major_version",
            LeafField::MinorVersion => "minor_version",
            LeafField::FileSizeBytes => "file_size_bytes",
            LeafField::Overlays => "overlays",
            LeafField::DataFile => "data_file",
            LeafField::OverlayMeta => "overlay_meta",
        }
    }
}

impl Reason {
    /// The parts of the sentence a caller is told.
    pub open spec fn pieces(self) -> Seq<PieceView> {
        match self {
            Reason::UnknownDeletionFileType { file_type } => seq![PieceView::Text("unknown deletion file type: file_type="@), PieceView::Number(file_type as int)],
            Reason::RowCountExceedsUsize { id } => seq![PieceView::Text("fragment "@), PieceView::Number(id as int), PieceView::Text(" row count exceeds usize"@)],
            Reason::FragmentCounts { id, physical_rows, deleted_rows } => match deleted_rows {
            Some(deleted) => seq![
                PieceView::Text("fragment "@),
                PieceView::Number(id as int),
                PieceView::Text(" has physical_rows="@),
                PieceView::Number(physical_rows as int),
                PieceView::Text(", deleted_rows=Some("@),
                PieceView::Number(deleted as int),
                PieceView::Text(")"@),
            ],
            None => seq![
                PieceView::Text("fragment "@),
                PieceView::Number(id as int),
                PieceView::Text(" has physical_rows="@),
                PieceView::Number(physical_rows as int),
                PieceView::Text(", deleted_rows=None"@),
            ],
        },
            Reason::DuplicateReplaySequence => seq![PieceView::Text("Duplicate action sequence number on a fragment replay path"@)],
            Reason::ActionMissing { action_sequence } => seq![PieceView::Text("Buffered action sequence number "@), PieceView::Number(action_sequence as int), PieceView::Text(" has no action"@)],
            Reason::ActionUnknown => seq![PieceView::Text("Buffered action has no recognized variant"@)],
            Reason::ActionIdExceedsU32 { id } => seq![PieceView::Text("Buffered action Fragment ID "@), PieceView::Number(id as int), PieceView::Text(" exceeds u32"@)],
            Reason::EditWithoutFile { kind, id } => seq![PieceView::Text(kind.name()), PieceView::Text(" for fragment "@), PieceView::Number(id as int), PieceView::Text(" has no file"@)],
            Reason::ReplaceWithoutPath { id } => seq![PieceView::Text("ReplaceDataFile for fragment "@), PieceView::Number(id as int), PieceView::Text(" is missing expected_path or path"@)],
            Reason::EditTargetMissing { kind, frag_id } => seq![PieceView::Text(kind.name()), PieceView::Text(" action targets missing frag_id="@), PieceView::Number(frag_id as int)],
            Reason::ReplacedFileGone { frag_id } => seq![PieceView::Text("ReplaceDataFile for frag_id="@), PieceView::Number(frag_id as int), PieceView::Text(" names a data file which the fragment no longer holds; commit-time validation must have seen a different state"@)],
            Reason::DeletedCountExceedsUsize => seq![PieceView::Text("Deleted row count exceeds usize"@)],
            Reason::DeltaMismatch { action_sequence, key, stored, actual } => seq![PieceView::Text("Mutation action_sequence="@), PieceView::Number(action_sequence as int), PieceView::Text(" for fragment "@), PieceView::Number(key as int), PieceView::Text(" stores fragment, row, and visible deltas "@), PieceView::Number(stored.0 as int), PieceView::Text(" "@), PieceView::Number(stored.1 as int), PieceView::Text(" "@), PieceView::Number(stored.2 as int), PieceView::Text(" but the record changed by "@), PieceView::Number(actual.0 as int), PieceView::Text(" "@), PieceView::Number(actual.1 as int), PieceView::Text(" "@), PieceView::Number(actual.2 as int)],
            Reason::Config { max_node_bytes, max_leaf_bytes, semantic_buffer_bytes, hard_capacity_bytes, max_children_per_node } => seq![PieceView::Text("fragment metadata tree config is invalid: max_node_bytes="@), PieceView::Number(max_node_bytes as int), PieceView::Text(", max_leaf_bytes="@), PieceView::Number(max_leaf_bytes as int), PieceView::Text(", semantic_buffer_bytes="@), PieceView::Number(semantic_buffer_bytes as int), PieceView::Text(", hard_capacity_bytes="@), PieceView::Number(hard_capacity_bytes as int), PieceView::Text(", max_children_per_node="@), PieceView::Number(max_children_per_node as int)],
            Reason::SumOverflow { name, sum, value } => seq![PieceView::Text("fragment metadata tree "@), PieceView::Text(name.name()), PieceView::Text(" overflow while summing: sum="@), PieceView::Number(sum as int), PieceView::Text(", value="@), PieceView::Number(value as int)],
            Reason::DeltaSumOverflow { name, delta_sum, delta } => seq![PieceView::Text("fragment metadata tree "@), PieceView::Text(name.name()), PieceView::Text(" overflow while summing: sum="@), PieceView::Number(delta_sum as int), PieceView::Text(", delta="@), PieceView::Number(delta as int)],
            Reason::AggregateOverflow { name, base, delta } => seq![PieceView::Text("fragment metadata tree "@), PieceView::Text(name.name()), PieceView::Text(" aggregate overflow: base="@), PieceView::Number(base as int), PieceView::Text(", delta="@), PieceView::Number(delta as int)],
            Reason::AggregateUnderflow { name, base, delta } => seq![PieceView::Text("fragment metadata tree "@), PieceView::Text(name.name()), PieceView::Text(" aggregate underflow: base="@), PieceView::Number(base as int), PieceView::Text(", delta="@), PieceView::Number(delta as int)],
            Reason::HeightExceedsU32 => seq![PieceView::Text("Internal node height exceeds u32"@)],
            Reason::BufferSequence { action_sequence, first_action_sequence, next_action_sequence } => seq![PieceView::Text("Buffered action sequence number "@), PieceView::Number(action_sequence as int), PieceView::Text(" is duplicated or outside ["@), PieceView::Number(first_action_sequence as int), PieceView::Text(", "@), PieceView::Number(next_action_sequence as int), PieceView::Text(")"@)],
            Reason::InvalidChild { position, min_key, num_keys, height, num_children, object_size } => seq![PieceView::Text("Invalid child reference at position "@), PieceView::Number(position as int), PieceView::Text(": min_key="@), PieceView::Number(min_key as int), PieceView::Text(", num_keys="@), PieceView::Number(num_keys as int), PieceView::Text(", height="@), PieceView::Number(height as int), PieceView::Text(", num_children="@), PieceView::Number(num_children as int), PieceView::Text(", object_size="@), PieceView::Number(object_size as int)],
            Reason::NodeSize { declared, found } => seq![PieceView::Text("Internal node has "@), PieceView::Number(found as int), PieceView::Text(" bytes but its parent declares "@), PieceView::Number(declared as int)],
            Reason::NodeContentsDiffer => seq![PieceView::Text("Internal node contents differ from its parent reference"@)],
            Reason::NodeWithoutChildren { min_key } => seq![PieceView::Text("Interior at "@), PieceView::Number(min_key as int), PieceView::Text(" has no children"@)],
            Reason::RootCannotShrink { max_node_bytes, width } => seq![PieceView::Text("node budget "@), PieceView::Number(max_node_bytes as int), PieceView::Text(" cannot reduce a root with "@), PieceView::Number(width as int), PieceView::Text(" children"@)],
            Reason::CannotGroup { max_node_bytes } => seq![PieceView::Text("node budget "@), PieceView::Number(max_node_bytes as int), PieceView::Text(" cannot group two child references; widen the directory budget"@)],
            Reason::RecordSurvives { id } => seq![PieceView::Text("Buffered actions for a leaf count every stored fragment as removed or replaced, but fragment "@), PieceView::Number(id as int), PieceView::Text(" is neither"@)],
            Reason::RecordAboveEnd { id, end } => seq![PieceView::Text("Leaf stores fragment "@), PieceView::Number(id as int), PieceView::Text(" at or above the end "@), PieceView::Number(end as int), PieceView::Text(" of its range"@)],
            Reason::LeafObjectSize { object_size } => seq![PieceView::Text("leaf object_size does not fit usize: object_size="@), PieceView::Number(object_size as int)],
            Reason::LeafSize { declared, found } => seq![PieceView::Text("Leaf has "@), PieceView::Number(found as int), PieceView::Text(" bytes but its parent declares "@), PieceView::Number(declared as int)],
            Reason::LeafOrder { id } => seq![PieceView::Text("leaf fragment IDs are out of order at fragment "@), PieceView::Number(id as int)],
            Reason::LeafFence { fence, first } => seq![PieceView::Text("Leaf fence "@), PieceView::Number(fence as int), PieceView::Text(" is above its first fragment "@), PieceView::Number(first as int)],
            Reason::LeafContentsDiffer => seq![PieceView::Text("Leaf contents differ from its parent reference"@)],
            Reason::NodeTooLarge { bytes, hard_capacity_bytes } => seq![PieceView::Text("Internal node requires "@), PieceView::Number(bytes as int), PieceView::Text(" bytes, exceeding hard_capacity_bytes="@), PieceView::Number(hard_capacity_bytes as int)],
            Reason::LeafTooLarge { id, bytes, hard_capacity_bytes } => seq![PieceView::Text("fragment "@), PieceView::Number(id as int), PieceView::Text(" requires an encoded leaf of "@), PieceView::Number(bytes as int), PieceView::Text(" bytes, exceeding hard_capacity_bytes="@), PieceView::Number(hard_capacity_bytes as int)],
            Reason::PathTaken => seq![PieceView::Text("an object already exists at the path of a new node"@)],
            Reason::RootUuidLength { bytes } => seq![PieceView::Text("root_uuid has "@), PieceView::Number(bytes as int), PieceView::Text(" bytes; expected 16"@)],
            Reason::MetadataPathInvalid => seq![PieceView::Text("Invalid metadata path"@)],
            Reason::MetadataPathOutside => seq![PieceView::Text("Metadata path must be relative to _bt/"@)],
            Reason::RootSequenceZero => seq![PieceView::Text("Root next_action_sequence must be at least 1"@)],
            Reason::RootVisibleExceedsPhysical => seq![PieceView::Text("Root visible rows exceed physical rows derived from children and buffer"@)],
            Reason::FragmentsWithoutFrontier => seq![PieceView::Text("Tree names fragment state but Manifest.max_fragment_id is absent"@)],
            Reason::RootBeyondFrontier { next_fragment_id } => seq![PieceView::Text("Root contains a fragment beyond allocation high-water mark "@), PieceView::Number(next_fragment_id as int)],
            Reason::ActionOutsideRange { action_sequence, target, min_key, exclusive_end } => seq![PieceView::Text("Mutation action_sequence="@), PieceView::Number(action_sequence as int), PieceView::Text(" targets fragment "@), PieceView::Number(target as int), PieceView::Text(" outside ["@), PieceView::Number(min_key as int), PieceView::Text(", "@), PieceView::Number(exclusive_end as int), PieceView::Text(")"@)],
            Reason::ActionSequenceExhausted { next_action_sequence, action_count } => seq![PieceView::Text("fragment metadata tree action_sequence overflow: next_action_sequence="@), PieceView::Number(next_action_sequence as int), PieceView::Text(", action_count="@), PieceView::Number(action_count as int)],
            Reason::VersionExhausted => seq![PieceView::Text("fragment metadata tree version counter exhausted"@)],
            Reason::FrontierOutOfRange { next, at_least } => seq![PieceView::Text("Fragment ID frontier "@), PieceView::Number(next as int), PieceView::Text(" must be between "@), PieceView::Number(at_least as int), PieceView::Text(" and 2^32"@)],
            Reason::ForeignDescriptor { version } => seq![PieceView::Text("fragment metadata tree version "@), PieceView::Number(version as int), PieceView::Text(" received a descriptor from another validation state"@)],
            Reason::RootTooLarge { bytes, hard_capacity_bytes } => seq![PieceView::Text("fragment metadata root envelope requires "@), PieceView::Number(bytes as int), PieceView::Text(" encoded bytes, exceeding hard_capacity_bytes="@), PieceView::Number(hard_capacity_bytes as int)],
            Reason::RootMissing { version } => seq![PieceView::Text("fragment metadata tree version "@), PieceView::Number(version as int), PieceView::Text(" has no root base"@)],
            Reason::SuffixAfterInlineRoot { version } => seq![PieceView::Text("fragment metadata tree version "@), PieceView::Number(version as int), PieceView::Text(" has a suffix after an inline root"@)],
            Reason::RootNotLoaded { version } => seq![PieceView::Text("fragment metadata tree version "@), PieceView::Number(version as int), PieceView::Text(" has a stored root that was not read"@)],
            Reason::SnapshotFrontier { version } => seq![PieceView::Text("Invalid snapshot allocation frontier at version "@), PieceView::Number(version as int)],
            Reason::SequenceBelowRoot { version, next_action_sequence, root_next_action_sequence } => seq![PieceView::Text("fragment metadata tree version "@), PieceView::Number(version as int), PieceView::Text(" has next_action_sequence "@), PieceView::Number(next_action_sequence as int), PieceView::Text(" below the root's "@), PieceView::Number(root_next_action_sequence as int)],
            Reason::DerivedVisibleExceedsPhysical { visible_rows, total_rows, version } => seq![PieceView::Text("Derived visible rows "@), PieceView::Number(visible_rows as int), PieceView::Text(" exceed physical rows "@), PieceView::Number(total_rows as int), PieceView::Text(" at version "@), PieceView::Number(version as int)],
            Reason::RepeatedFragment { id } => seq![PieceView::Text("fragment metadata tree bootstrap contains duplicate fragment IDs: "@), PieceView::Number(id as int)],
            Reason::FragmentIdExhausted { id } => seq![PieceView::Text("Fragment ID "@), PieceView::Number(id as int), PieceView::Text(" leaves no next ID"@)],
            Reason::VisibleRowsOverflow { id } => seq![PieceView::Text("Visible row count overflow at fragment "@), PieceView::Number(id as int)],
            Reason::TotalRowsOverflow { id } => seq![PieceView::Text("fragment metadata tree total_rows overflow while bootstrapping fragment id="@), PieceView::Number(id as int)],
            Reason::RepeatedNode { version } => seq![PieceView::Text("fragment metadata tree version "@), PieceView::Number(version as int), PieceView::Text(" repeats resolved node"@)],
            Reason::LeafAhead { action_sequence, key, watermark } => seq![PieceView::Text("buffered action action_sequence="@), PieceView::Number(action_sequence as int), PieceView::Text(" for fragment "@), PieceView::Number(key as int), PieceView::Text(" is at or below its leaf's watermark "@), PieceView::Number(watermark as int), PieceView::Text(": the leaf claims a change it cannot hold"@)],
            Reason::FragmentIdExceedsU32 { id } => seq![PieceView::Text("Fragment ID "@), PieceView::Number(id as int), PieceView::Text(" exceeds u32"@)],
            Reason::PhysicalRowsUnknown { id } => seq![PieceView::Text("fragment "@), PieceView::Number(id as int), PieceView::Text(" has no physical row count; the fragment metadata tree requires known counts"@)],
            Reason::DeletedRowsUnknown { id } => seq![PieceView::Text("fragment "@), PieceView::Number(id as int), PieceView::Text(" has a deletion file without a deleted-row count; the fragment metadata tree requires known counts"@)],
            Reason::MoreDeletedThanRows { id, deleted, rows } => seq![PieceView::Text("fragment "@), PieceView::Number(id as int), PieceView::Text(" has "@), PieceView::Number(deleted as int), PieceView::Text(" deleted rows but only "@), PieceView::Number(rows as int), PieceView::Text(" physical rows"@)],
            Reason::EmptyAction => seq![PieceView::Text("fragment metadata tree commit contains an empty fragment action"@)],
            Reason::UnresolvedFragment { id } => seq![PieceView::Text("fragment metadata tree commit mutates fragment "@), PieceView::Number(id as int), PieceView::Text(" without resolving it first"@)],
            Reason::RowsExceedI64 { rows } => seq![PieceView::Text("row count does not fit aggregate delta: rows="@), PieceView::Number(rows as int)],
            Reason::PhysicalRowsExceedI64 { rows } => seq![PieceView::Text("fragment physical_rows does not fit aggregate delta: physical_rows="@), PieceView::Number(rows as int)],
            Reason::CountsUnknown { id } => seq![PieceView::Text("fragment "@), PieceView::Number(id as int), PieceView::Text(" reached visible-row accounting with unknown counts; require_known_counts must run first"@)],
            Reason::ReplacementTargetMissing { id } => seq![PieceView::Text("DataReplacement targets fragment "@), PieceView::Number(id as int), PieceView::Text(" which does not exist"@)],
            Reason::ReplacementUnchanged { id } => seq![PieceView::Text("DataReplacement for fragment "@), PieceView::Number(id as int), PieceView::Text(" made no changes: the replacement matches the existing data file exactly"@)],
            Reason::ReplacementOverlaps { id } => seq![PieceView::Text("DataReplacement for fragment "@), PieceView::Number(id as int), PieceView::Text(" partially overlaps existing fields"@)],
            Reason::OffsetExhausted { remaining } => seq![PieceView::Text("row-offset descent exhausted children with "@), PieceView::Number(remaining as int), PieceView::Text(" rows remaining"@)],
            Reason::TooManyMappings => seq![PieceView::Text("leaf has more than i32::MAX distinct mappings"@)],
            Reason::LeafNulls { field } => seq![PieceView::Text("leaf field "@), PieceView::Text(field.name()), PieceView::Text(" contains nulls"@)],
            Reason::LeafDictionaryNulls { field } => seq![PieceView::Text("leaf dictionary "@), PieceView::Text(field.name()), PieceView::Text(" contains null values"@)],
            Reason::LeafMappingWidth { bytes } => seq![PieceView::Text("leaf mapping has "@), PieceView::Number(bytes as int), PieceView::Text(" bytes; expected a multiple of 4"@)],
            Reason::LeafDictionaryKey { field, code } => seq![PieceView::Text("leaf dictionary "@), PieceView::Text(field.name()), PieceView::Text(" has invalid key "@), PieceView::Number(code as int)],
            Reason::FragmentMetaInvalid => seq![PieceView::Text("invalid fragment_meta"@)],
            Reason::FragmentMetaFilled => seq![PieceView::Text("fragment_meta must have id 0 and empty files and overlays"@)],
            Reason::FragmentHeaderInvalid { id } => seq![PieceView::Text("invalid fragment_meta for fragment "@), PieceView::Number(id as int)],
            Reason::FragmentHeaderFilled { id } => seq![PieceView::Text("fragment_meta for fragment "@), PieceView::Number(id as int), PieceView::Text(" must have id 0 and empty files and overlays"@)],
            Reason::LeafFragmentId { id } => seq![PieceView::Text("leaf fragment ID "@), PieceView::Number(id as int), PieceView::Text(" is out of range or order"@)],
            Reason::OverlayMetaInvalid => seq![PieceView::Text("invalid overlay_meta"@)],
            Reason::OverlayMetaFile => seq![PieceView::Text("overlay_meta must not contain data_file"@)],
            Reason::FewerColumnIndices => seq![PieceView::Text("data file contained fewer column_indices than fields"@)],
            Reason::UnsortedFieldIds => seq![PieceView::Text("data file contained unsorted or duplicate field ids"@)],
            Reason::LeafTotalRowsOverflow { id } => seq![PieceView::Text("leaf total_rows overflows at fragment "@), PieceView::Number(id as int)],
            Reason::LeafVisibleRowsOverflow { id } => seq![PieceView::Text("leaf visible_rows overflows at fragment "@), PieceView::Number(id as int)],
            Reason::ChildFragmentCount { recorded, found } => seq![PieceView::Text("child manifest fragment count mismatch: ref says "@), PieceView::Number(recorded as int), PieceView::Text(", file has "@), PieceView::Number(found as int)],
            Reason::FileTooSmall => seq![PieceView::Text("Invalid format: file size is smaller than 16 bytes"@)],
            Reason::MagicMismatch => seq![PieceView::Text("Invalid format: magic number does not match"@)],
            Reason::MessageLength { expected, found } => seq![PieceView::Text("Invalid format: message length does not match. Expected "@), PieceView::Number(expected as int), PieceView::Text(", got "@), PieceView::Number(found as int)],
            Reason::DictionaryInfoMissing { field_id } => seq![PieceView::Text("Lance field "@), PieceView::Number(field_id as int), PieceView::Text(" misses dictionary info"@)],
            Reason::DictionaryValuesMissing { field_id } => seq![PieceView::Text("Lance field "@), PieceView::Number(field_id as int), PieceView::Text(" is dictionary type, but misses the dictionary value array"@)],
            Reason::DictionaryValueType { field_id } => seq![PieceView::Text("Lance field "@), PieceView::Number(field_id as int), PieceView::Text(" does not support this dictionary value type"@)],
            Reason::LeafRows { rows, num_keys } => seq![PieceView::Text("Leaf has "@), PieceView::Number(rows as int), PieceView::Text(" rows but its parent declares num_keys="@), PieceView::Number(num_keys as int)],
            Reason::LeafHeadersDiffer { keys, first_id, total_rows, visible_rows, num_keys, min_key, declared_total_rows, declared_visible_rows } => match first_id { Some(first) => seq![PieceView::Text("Leaf contents differ from its parent reference: keys="@), PieceView::Number(keys as int), PieceView::Text(", first=Some("@), PieceView::Number(first as int), PieceView::Text(")"@), PieceView::Text(", total_rows="@), PieceView::Number(total_rows as int), PieceView::Text(", visible_rows="@), PieceView::Number(visible_rows as int), PieceView::Text("; the parent declares num_keys="@), PieceView::Number(num_keys as int), PieceView::Text(", min_key="@), PieceView::Number(min_key as int), PieceView::Text(", total_rows="@), PieceView::Number(declared_total_rows as int), PieceView::Text(", visible_rows="@), PieceView::Number(declared_visible_rows as int)], None => seq![PieceView::Text("Leaf contents differ from its parent reference: keys="@), PieceView::Number(keys as int), PieceView::Text(", first=None"@), PieceView::Text(", total_rows="@), PieceView::Number(total_rows as int), PieceView::Text(", visible_rows="@), PieceView::Number(visible_rows as int), PieceView::Text("; the parent declares num_keys="@), PieceView::Number(num_keys as int), PieceView::Text(", min_key="@), PieceView::Number(min_key as int), PieceView::Text(", total_rows="@), PieceView::Number(declared_total_rows as int), PieceView::Text(", visible_rows="@), PieceView::Number(declared_visible_rows as int)] },
            Reason::LeafRow { row, id } => seq![PieceView::Text("Leaf row "@), PieceView::Number(row as int), PieceView::Text(" does not decode to fragment "@), PieceView::Number(id as int)],
            Reason::UnknownBase { base_id } => seq![PieceView::Text("Tree child names unknown base_id "@), PieceView::Number(base_id as int)],
            Reason::ActionBelowWatermark { action_sequence, target, watermark } => seq![PieceView::Text("Mutation action_sequence="@), PieceView::Number(action_sequence as int), PieceView::Text(" for fragment "@), PieceView::Number(target as int), PieceView::Text(" is at or below the watermark "@), PieceView::Number(watermark as int), PieceView::Text(" of its leaf"@)],
        }
    }

    fn describe(&self) -> (r: Vec<Piece>)
        ensures
            views::all(r@) == self.pieces(),
    {
        let r: Vec<Piece> = match *self {
            Reason::UnknownDeletionFileType { file_type } => vec![Piece::Text("unknown deletion file type: file_type="), Piece::Number(file_type as i128)],
            Reason::RowCountExceedsUsize { id } => vec![Piece::Text("fragment "), Piece::Number(id as i128), Piece::Text(" row count exceeds usize")],
            Reason::FragmentCounts { id, physical_rows, deleted_rows } => match deleted_rows {
            Some(deleted) => vec![
                Piece::Text("fragment "),
                Piece::Number(id as i128),
                Piece::Text(" has physical_rows="),
                Piece::Number(physical_rows as i128),
                Piece::Text(", deleted_rows=Some("),
                Piece::Number(deleted as i128),
                Piece::Text(")"),
            ],
            None => vec![
                Piece::Text("fragment "),
                Piece::Number(id as i128),
                Piece::Text(" has physical_rows="),
                Piece::Number(physical_rows as i128),
                Piece::Text(", deleted_rows=None"),
            ],
        },
            Reason::DuplicateReplaySequence => vec![Piece::Text("Duplicate action sequence number on a fragment replay path")],
            Reason::ActionMissing { action_sequence } => vec![Piece::Text("Buffered action sequence number "), Piece::Number(action_sequence as i128), Piece::Text(" has no action")],
            Reason::ActionUnknown => vec![Piece::Text("Buffered action has no recognized variant")],
            Reason::ActionIdExceedsU32 { id } => vec![Piece::Text("Buffered action Fragment ID "), Piece::Number(id as i128), Piece::Text(" exceeds u32")],
            Reason::EditWithoutFile { kind, id } => vec![Piece::Text(kind.text()), Piece::Text(" for fragment "), Piece::Number(id as i128), Piece::Text(" has no file")],
            Reason::ReplaceWithoutPath { id } => vec![Piece::Text("ReplaceDataFile for fragment "), Piece::Number(id as i128), Piece::Text(" is missing expected_path or path")],
            Reason::EditTargetMissing { kind, frag_id } => vec![Piece::Text(kind.text()), Piece::Text(" action targets missing frag_id="), Piece::Number(frag_id as i128)],
            Reason::ReplacedFileGone { frag_id } => vec![Piece::Text("ReplaceDataFile for frag_id="), Piece::Number(frag_id as i128), Piece::Text(" names a data file which the fragment no longer holds; commit-time validation must have seen a different state")],
            Reason::DeletedCountExceedsUsize => vec![Piece::Text("Deleted row count exceeds usize")],
            Reason::DeltaMismatch { action_sequence, key, stored, actual } => vec![Piece::Text("Mutation action_sequence="), Piece::Number(action_sequence as i128), Piece::Text(" for fragment "), Piece::Number(key as i128), Piece::Text(" stores fragment, row, and visible deltas "), Piece::Number(stored.0 as i128), Piece::Text(" "), Piece::Number(stored.1 as i128), Piece::Text(" "), Piece::Number(stored.2 as i128), Piece::Text(" but the record changed by "), Piece::Number(actual.0 as i128), Piece::Text(" "), Piece::Number(actual.1 as i128), Piece::Text(" "), Piece::Number(actual.2 as i128)],
            Reason::Config { max_node_bytes, max_leaf_bytes, semantic_buffer_bytes, hard_capacity_bytes, max_children_per_node } => vec![Piece::Text("fragment metadata tree config is invalid: max_node_bytes="), Piece::Number(max_node_bytes as i128), Piece::Text(", max_leaf_bytes="), Piece::Number(max_leaf_bytes as i128), Piece::Text(", semantic_buffer_bytes="), Piece::Number(semantic_buffer_bytes as i128), Piece::Text(", hard_capacity_bytes="), Piece::Number(hard_capacity_bytes as i128), Piece::Text(", max_children_per_node="), Piece::Number(max_children_per_node as i128)],
            Reason::SumOverflow { name, sum, value } => vec![Piece::Text("fragment metadata tree "), Piece::Text(name.text()), Piece::Text(" overflow while summing: sum="), Piece::Number(sum as i128), Piece::Text(", value="), Piece::Number(value as i128)],
            Reason::DeltaSumOverflow { name, delta_sum, delta } => vec![Piece::Text("fragment metadata tree "), Piece::Text(name.text()), Piece::Text(" overflow while summing: sum="), Piece::Number(delta_sum as i128), Piece::Text(", delta="), Piece::Number(delta as i128)],
            Reason::AggregateOverflow { name, base, delta } => vec![Piece::Text("fragment metadata tree "), Piece::Text(name.text()), Piece::Text(" aggregate overflow: base="), Piece::Number(base as i128), Piece::Text(", delta="), Piece::Number(delta as i128)],
            Reason::AggregateUnderflow { name, base, delta } => vec![Piece::Text("fragment metadata tree "), Piece::Text(name.text()), Piece::Text(" aggregate underflow: base="), Piece::Number(base as i128), Piece::Text(", delta="), Piece::Number(delta as i128)],
            Reason::HeightExceedsU32 => vec![Piece::Text("Internal node height exceeds u32")],
            Reason::BufferSequence { action_sequence, first_action_sequence, next_action_sequence } => vec![Piece::Text("Buffered action sequence number "), Piece::Number(action_sequence as i128), Piece::Text(" is duplicated or outside ["), Piece::Number(first_action_sequence as i128), Piece::Text(", "), Piece::Number(next_action_sequence as i128), Piece::Text(")")],
            Reason::InvalidChild { position, min_key, num_keys, height, num_children, object_size } => vec![Piece::Text("Invalid child reference at position "), Piece::Number(position as i128), Piece::Text(": min_key="), Piece::Number(min_key as i128), Piece::Text(", num_keys="), Piece::Number(num_keys as i128), Piece::Text(", height="), Piece::Number(height as i128), Piece::Text(", num_children="), Piece::Number(num_children as i128), Piece::Text(", object_size="), Piece::Number(object_size as i128)],
            Reason::NodeSize { declared, found } => vec![Piece::Text("Internal node has "), Piece::Number(found as i128), Piece::Text(" bytes but its parent declares "), Piece::Number(declared as i128)],
            Reason::NodeContentsDiffer => vec![Piece::Text("Internal node contents differ from its parent reference")],
            Reason::NodeWithoutChildren { min_key } => vec![Piece::Text("Interior at "), Piece::Number(min_key as i128), Piece::Text(" has no children")],
            Reason::RootCannotShrink { max_node_bytes, width } => vec![Piece::Text("node budget "), Piece::Number(max_node_bytes as i128), Piece::Text(" cannot reduce a root with "), Piece::Number(width as i128), Piece::Text(" children")],
            Reason::CannotGroup { max_node_bytes } => vec![Piece::Text("node budget "), Piece::Number(max_node_bytes as i128), Piece::Text(" cannot group two child references; widen the directory budget")],
            Reason::RecordSurvives { id } => vec![Piece::Text("Buffered actions for a leaf count every stored fragment as removed or replaced, but fragment "), Piece::Number(id as i128), Piece::Text(" is neither")],
            Reason::RecordAboveEnd { id, end } => vec![Piece::Text("Leaf stores fragment "), Piece::Number(id as i128), Piece::Text(" at or above the end "), Piece::Number(end as i128), Piece::Text(" of its range")],
            Reason::LeafObjectSize { object_size } => vec![Piece::Text("leaf object_size does not fit usize: object_size="), Piece::Number(object_size as i128)],
            Reason::LeafSize { declared, found } => vec![Piece::Text("Leaf has "), Piece::Number(found as i128), Piece::Text(" bytes but its parent declares "), Piece::Number(declared as i128)],
            Reason::LeafOrder { id } => vec![Piece::Text("leaf fragment IDs are out of order at fragment "), Piece::Number(id as i128)],
            Reason::LeafFence { fence, first } => vec![Piece::Text("Leaf fence "), Piece::Number(fence as i128), Piece::Text(" is above its first fragment "), Piece::Number(first as i128)],
            Reason::LeafContentsDiffer => vec![Piece::Text("Leaf contents differ from its parent reference")],
            Reason::NodeTooLarge { bytes, hard_capacity_bytes } => vec![Piece::Text("Internal node requires "), Piece::Number(bytes as i128), Piece::Text(" bytes, exceeding hard_capacity_bytes="), Piece::Number(hard_capacity_bytes as i128)],
            Reason::LeafTooLarge { id, bytes, hard_capacity_bytes } => vec![Piece::Text("fragment "), Piece::Number(id as i128), Piece::Text(" requires an encoded leaf of "), Piece::Number(bytes as i128), Piece::Text(" bytes, exceeding hard_capacity_bytes="), Piece::Number(hard_capacity_bytes as i128)],
            Reason::PathTaken => vec![Piece::Text("an object already exists at the path of a new node")],
            Reason::RootUuidLength { bytes } => vec![Piece::Text("root_uuid has "), Piece::Number(bytes as i128), Piece::Text(" bytes; expected 16")],
            Reason::MetadataPathInvalid => vec![Piece::Text("Invalid metadata path")],
            Reason::MetadataPathOutside => vec![Piece::Text("Metadata path must be relative to _bt/")],
            Reason::RootSequenceZero => vec![Piece::Text("Root next_action_sequence must be at least 1")],
            Reason::RootVisibleExceedsPhysical => vec![Piece::Text("Root visible rows exceed physical rows derived from children and buffer")],
            Reason::FragmentsWithoutFrontier => vec![Piece::Text("Tree names fragment state but Manifest.max_fragment_id is absent")],
            Reason::RootBeyondFrontier { next_fragment_id } => vec![Piece::Text("Root contains a fragment beyond allocation high-water mark "), Piece::Number(next_fragment_id as i128)],
            Reason::ActionOutsideRange { action_sequence, target, min_key, exclusive_end } => vec![Piece::Text("Mutation action_sequence="), Piece::Number(action_sequence as i128), Piece::Text(" targets fragment "), Piece::Number(target as i128), Piece::Text(" outside ["), Piece::Number(min_key as i128), Piece::Text(", "), Piece::Number(exclusive_end as i128), Piece::Text(")")],
            Reason::ActionSequenceExhausted { next_action_sequence, action_count } => vec![Piece::Text("fragment metadata tree action_sequence overflow: next_action_sequence="), Piece::Number(next_action_sequence as i128), Piece::Text(", action_count="), Piece::Number(action_count as i128)],
            Reason::VersionExhausted => vec![Piece::Text("fragment metadata tree version counter exhausted")],
            Reason::FrontierOutOfRange { next, at_least } => vec![Piece::Text("Fragment ID frontier "), Piece::Number(next as i128), Piece::Text(" must be between "), Piece::Number(at_least as i128), Piece::Text(" and 2^32")],
            Reason::ForeignDescriptor { version } => vec![Piece::Text("fragment metadata tree version "), Piece::Number(version as i128), Piece::Text(" received a descriptor from another validation state")],
            Reason::RootTooLarge { bytes, hard_capacity_bytes } => vec![Piece::Text("fragment metadata root envelope requires "), Piece::Number(bytes as i128), Piece::Text(" encoded bytes, exceeding hard_capacity_bytes="), Piece::Number(hard_capacity_bytes as i128)],
            Reason::RootMissing { version } => vec![Piece::Text("fragment metadata tree version "), Piece::Number(version as i128), Piece::Text(" has no root base")],
            Reason::SuffixAfterInlineRoot { version } => vec![Piece::Text("fragment metadata tree version "), Piece::Number(version as i128), Piece::Text(" has a suffix after an inline root")],
            Reason::RootNotLoaded { version } => vec![Piece::Text("fragment metadata tree version "), Piece::Number(version as i128), Piece::Text(" has a stored root that was not read")],
            Reason::SnapshotFrontier { version } => vec![Piece::Text("Invalid snapshot allocation frontier at version "), Piece::Number(version as i128)],
            Reason::SequenceBelowRoot { version, next_action_sequence, root_next_action_sequence } => vec![Piece::Text("fragment metadata tree version "), Piece::Number(version as i128), Piece::Text(" has next_action_sequence "), Piece::Number(next_action_sequence as i128), Piece::Text(" below the root's "), Piece::Number(root_next_action_sequence as i128)],
            Reason::DerivedVisibleExceedsPhysical { visible_rows, total_rows, version } => vec![Piece::Text("Derived visible rows "), Piece::Number(visible_rows as i128), Piece::Text(" exceed physical rows "), Piece::Number(total_rows as i128), Piece::Text(" at version "), Piece::Number(version as i128)],
            Reason::RepeatedFragment { id } => vec![Piece::Text("fragment metadata tree bootstrap contains duplicate fragment IDs: "), Piece::Number(id as i128)],
            Reason::FragmentIdExhausted { id } => vec![Piece::Text("Fragment ID "), Piece::Number(id as i128), Piece::Text(" leaves no next ID")],
            Reason::VisibleRowsOverflow { id } => vec![Piece::Text("Visible row count overflow at fragment "), Piece::Number(id as i128)],
            Reason::TotalRowsOverflow { id } => vec![Piece::Text("fragment metadata tree total_rows overflow while bootstrapping fragment id="), Piece::Number(id as i128)],
            Reason::RepeatedNode { version } => vec![Piece::Text("fragment metadata tree version "), Piece::Number(version as i128), Piece::Text(" repeats resolved node")],
            Reason::LeafAhead { action_sequence, key, watermark } => vec![Piece::Text("buffered action action_sequence="), Piece::Number(action_sequence as i128), Piece::Text(" for fragment "), Piece::Number(key as i128), Piece::Text(" is at or below its leaf's watermark "), Piece::Number(watermark as i128), Piece::Text(": the leaf claims a change it cannot hold")],
            Reason::FragmentIdExceedsU32 { id } => vec![Piece::Text("Fragment ID "), Piece::Number(id as i128), Piece::Text(" exceeds u32")],
            Reason::PhysicalRowsUnknown { id } => vec![Piece::Text("fragment "), Piece::Number(id as i128), Piece::Text(" has no physical row count; the fragment metadata tree requires known counts")],
            Reason::DeletedRowsUnknown { id } => vec![Piece::Text("fragment "), Piece::Number(id as i128), Piece::Text(" has a deletion file without a deleted-row count; the fragment metadata tree requires known counts")],
            Reason::MoreDeletedThanRows { id, deleted, rows } => vec![Piece::Text("fragment "), Piece::Number(id as i128), Piece::Text(" has "), Piece::Number(deleted as i128), Piece::Text(" deleted rows but only "), Piece::Number(rows as i128), Piece::Text(" physical rows")],
            Reason::EmptyAction => vec![Piece::Text("fragment metadata tree commit contains an empty fragment action")],
            Reason::UnresolvedFragment { id } => vec![Piece::Text("fragment metadata tree commit mutates fragment "), Piece::Number(id as i128), Piece::Text(" without resolving it first")],
            Reason::RowsExceedI64 { rows } => vec![Piece::Text("row count does not fit aggregate delta: rows="), Piece::Number(rows as i128)],
            Reason::PhysicalRowsExceedI64 { rows } => vec![Piece::Text("fragment physical_rows does not fit aggregate delta: physical_rows="), Piece::Number(rows as i128)],
            Reason::CountsUnknown { id } => vec![Piece::Text("fragment "), Piece::Number(id as i128), Piece::Text(" reached visible-row accounting with unknown counts; require_known_counts must run first")],
            Reason::ReplacementTargetMissing { id } => vec![Piece::Text("DataReplacement targets fragment "), Piece::Number(id as i128), Piece::Text(" which does not exist")],
            Reason::ReplacementUnchanged { id } => vec![Piece::Text("DataReplacement for fragment "), Piece::Number(id as i128), Piece::Text(" made no changes: the replacement matches the existing data file exactly")],
            Reason::ReplacementOverlaps { id } => vec![Piece::Text("DataReplacement for fragment "), Piece::Number(id as i128), Piece::Text(" partially overlaps existing fields")],
            Reason::OffsetExhausted { remaining } => vec![Piece::Text("row-offset descent exhausted children with "), Piece::Number(remaining as i128), Piece::Text(" rows remaining")],
            Reason::TooManyMappings => vec![Piece::Text("leaf has more than i32::MAX distinct mappings")],
            Reason::LeafNulls { field } => vec![Piece::Text("leaf field "), Piece::Text(field.text()), Piece::Text(" contains nulls")],
            Reason::LeafDictionaryNulls { field } => vec![Piece::Text("leaf dictionary "), Piece::Text(field.text()), Piece::Text(" contains null values")],
            Reason::LeafMappingWidth { bytes } => vec![Piece::Text("leaf mapping has "), Piece::Number(bytes as i128), Piece::Text(" bytes; expected a multiple of 4")],
            Reason::LeafDictionaryKey { field, code } => vec![Piece::Text("leaf dictionary "), Piece::Text(field.text()), Piece::Text(" has invalid key "), Piece::Number(code as i128)],
            Reason::FragmentMetaInvalid => vec![Piece::Text("invalid fragment_meta")],
            Reason::FragmentMetaFilled => vec![Piece::Text("fragment_meta must have id 0 and empty files and overlays")],
            Reason::FragmentHeaderInvalid { id } => vec![Piece::Text("invalid fragment_meta for fragment "), Piece::Number(id as i128)],
            Reason::FragmentHeaderFilled { id } => vec![Piece::Text("fragment_meta for fragment "), Piece::Number(id as i128), Piece::Text(" must have id 0 and empty files and overlays")],
            Reason::LeafFragmentId { id } => vec![Piece::Text("leaf fragment ID "), Piece::Number(id as i128), Piece::Text(" is out of range or order")],
            Reason::OverlayMetaInvalid => vec![Piece::Text("invalid overlay_meta")],
            Reason::OverlayMetaFile => vec![Piece::Text("overlay_meta must not contain data_file")],
            Reason::FewerColumnIndices => vec![Piece::Text("data file contained fewer column_indices than fields")],
            Reason::UnsortedFieldIds => vec![Piece::Text("data file contained unsorted or duplicate field ids")],
            Reason::LeafTotalRowsOverflow { id } => vec![Piece::Text("leaf total_rows overflows at fragment "), Piece::Number(id as i128)],
            Reason::LeafVisibleRowsOverflow { id } => vec![Piece::Text("leaf visible_rows overflows at fragment "), Piece::Number(id as i128)],
            Reason::ChildFragmentCount { recorded, found } => vec![Piece::Text("child manifest fragment count mismatch: ref says "), Piece::Number(recorded as i128), Piece::Text(", file has "), Piece::Number(found as i128)],
            Reason::FileTooSmall => vec![Piece::Text("Invalid format: file size is smaller than 16 bytes")],
            Reason::MagicMismatch => vec![Piece::Text("Invalid format: magic number does not match")],
            Reason::MessageLength { expected, found } => vec![Piece::Text("Invalid format: message length does not match. Expected "), Piece::Number(expected as i128), Piece::Text(", got "), Piece::Number(found as i128)],
            Reason::DictionaryInfoMissing { field_id } => vec![Piece::Text("Lance field "), Piece::Number(field_id as i128), Piece::Text(" misses dictionary info")],
            Reason::DictionaryValuesMissing { field_id } => vec![Piece::Text("Lance field "), Piece::Number(field_id as i128), Piece::Text(" is dictionary type, but misses the dictionary value array")],
            Reason::DictionaryValueType { field_id } => vec![Piece::Text("Lance field "), Piece::Number(field_id as i128), Piece::Text(" does not support this dictionary value type")],
            Reason::LeafRows { rows, num_keys } => vec![Piece::Text("Leaf has "), Piece::Number(rows as i128), Piece::Text(" rows but its parent declares num_keys="), Piece::Number(num_keys as i128)],
            Reason::LeafHeadersDiffer { keys, first_id, total_rows, visible_rows, num_keys, min_key, declared_total_rows, declared_visible_rows } => match first_id { Some(first) => vec![Piece::Text("Leaf contents differ from its parent reference: keys="), Piece::Number(keys as i128), Piece::Text(", first=Some("), Piece::Number(first as i128), Piece::Text(")"), Piece::Text(", total_rows="), Piece::Number(total_rows as i128), Piece::Text(", visible_rows="), Piece::Number(visible_rows as i128), Piece::Text("; the parent declares num_keys="), Piece::Number(num_keys as i128), Piece::Text(", min_key="), Piece::Number(min_key as i128), Piece::Text(", total_rows="), Piece::Number(declared_total_rows as i128), Piece::Text(", visible_rows="), Piece::Number(declared_visible_rows as i128)], None => vec![Piece::Text("Leaf contents differ from its parent reference: keys="), Piece::Number(keys as i128), Piece::Text(", first=None"), Piece::Text(", total_rows="), Piece::Number(total_rows as i128), Piece::Text(", visible_rows="), Piece::Number(visible_rows as i128), Piece::Text("; the parent declares num_keys="), Piece::Number(num_keys as i128), Piece::Text(", min_key="), Piece::Number(min_key as i128), Piece::Text(", total_rows="), Piece::Number(declared_total_rows as i128), Piece::Text(", visible_rows="), Piece::Number(declared_visible_rows as i128)] },
            Reason::LeafRow { row, id } => vec![Piece::Text("Leaf row "), Piece::Number(row as i128), Piece::Text(" does not decode to fragment "), Piece::Number(id as i128)],
            Reason::UnknownBase { base_id } => vec![Piece::Text("Tree child names unknown base_id "), Piece::Number(base_id as i128)],
            Reason::ActionBelowWatermark { action_sequence, target, watermark } => vec![Piece::Text("Mutation action_sequence="), Piece::Number(action_sequence as i128), Piece::Text(" for fragment "), Piece::Number(target as i128), Piece::Text(" is at or below the watermark "), Piece::Number(watermark as i128), Piece::Text(" of its leaf")],
        };
        assert(views::all(r@) =~= self.pieces());
        r
    }

    /// The sentence a caller is told.
    pub fn message(&self) -> (r: String)
        ensures
            r@ == told(self.pieces()),
    {
        tell(&self.describe())
    }
}

impl Error {
    pub open spec fn reason(self) -> Reason {
        match self {
            Error::InvalidInput { reason } => reason,
            Error::CorruptFile { reason } => reason,
            Error::Internal { reason } => reason,
            Error::NotSupported { reason } => reason,
            Error::Io { reason } => reason,
            Error::Schema { reason } => reason,
        }
    }

    /// The sentence a caller is told.
    pub fn message(&self) -> (r: String)
        ensures
            r@ == told(self.reason().pieces()),
    {
        match self {
            Error::InvalidInput { reason } => reason.message(),
            Error::CorruptFile { reason } => reason.message(),
            Error::Internal { reason } => reason.message(),
            Error::NotSupported { reason } => reason.message(),
            Error::Io { reason } => reason.message(),
            Error::Schema { reason } => reason.message(),
        }
    }
}

} // verus!
