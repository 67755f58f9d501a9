//! What a refused request is answered.

use vstd::prelude::*;

verus! {

/// The actions that change a record in place.
#[derive(Clone, Copy, Debug, PartialEq, Eq)]
pub enum EditKind {
    AddDataFile,
    RemoveDataFile,
    ReplaceDataFile,
    AddDeletionFile,
    ClearDeletionFile,
}

/// The sums a child reference carries and the deltas that change them.
#[derive(Clone, Copy, Debug, PartialEq, Eq)]
pub enum Aggregate {
    NumKeys,
    TotalRows,
    VisibleRows,
    FragmentCountDelta,
    TotalRowsDelta,
    VisibleRowsDelta,
    TotalFragments,
    Fragments,
    PhysicalRows,
    DerivedVisibleRows,
}

/// The columns of a leaf, and the columns inside them.
#[derive(Clone, Copy, Debug, PartialEq, Eq)]
pub enum LeafField {
    Id,
    FragmentMeta,
    Files,
    Item,
    Path,
    FieldIds,
    ColumnIndices,
    MajorVersion,
    MinorVersion,
    FileSizeBytes,
    Overlays,
    DataFile,
    OverlayMeta,
}

/// Why a request was refused. Each reason carries the numbers that identify
/// the record or action at fault.
#[derive(Clone, Copy, Debug, PartialEq, Eq)]
pub enum Reason {
    UnknownDeletionFileType { file_type: i32 },
    RowCountExceedsUsize { id: u64 },
    FragmentCounts { id: u64, physical_rows: u64, deleted_rows: Option<u64> },
    DuplicateReplaySequence,
    ActionMissing { action_sequence: u64 },
    ActionUnknown,
    ActionIdExceedsU32 { id: u64 },
    EditWithoutFile { kind: EditKind, id: u64 },
    ReplaceWithoutPath { id: u64 },
    EditTargetMissing { kind: EditKind, frag_id: u64 },
    ReplacedFileGone { frag_id: u64 },
    DeletedCountExceedsUsize,
    DeltaMismatch {
        action_sequence: u64,
        key: u64,
        stored: (i64, i64, i64),
        actual: (i128, i128, i128),
    },
    Config {
        max_node_bytes: u64,
        max_leaf_bytes: u64,
        semantic_buffer_bytes: u64,
        hard_capacity_bytes: u64,
        max_children_per_node: u32,
    },
    SumOverflow { name: Aggregate, sum: u64, value: u64 },
    DeltaSumOverflow { name: Aggregate, delta_sum: i64, delta: i64 },
    AggregateOverflow { name: Aggregate, base: u64, delta: i64 },
    AggregateUnderflow { name: Aggregate, base: u64, delta: i64 },
    HeightExceedsU32,
    BufferSequence {
        action_sequence: u64,
        first_action_sequence: u64,
        next_action_sequence: u64,
    },
    InvalidChild {
        position: u64,
        min_key: u64,
        num_keys: u64,
        height: u32,
        num_children: u32,
        object_size: u64,
    },
    NodeSize { declared: u64, found: u64 },
    NodeContentsDiffer,
    NodeWithoutChildren { min_key: u64 },
    RootCannotShrink { max_node_bytes: u64, width: u64 },
    CannotGroup { max_node_bytes: u64 },
    RecordSurvives { id: u64 },
    RecordAboveEnd { id: u64, end: u64 },
    LeafObjectSize { object_size: u64 },
    LeafSize { declared: u64, found: u64 },
    LeafOrder { id: u64 },
    LeafFence { fence: u64, first: u64 },
    LeafContentsDiffer,
    NodeTooLarge { bytes: u64, hard_capacity_bytes: u64 },
    LeafTooLarge { id: u64, bytes: u64, hard_capacity_bytes: u64 },
    PathTaken,
    RootUuidLength { bytes: u64 },
    MetadataPathInvalid,
    MetadataPathOutside,
    RootSequenceZero,
    RootVisibleExceedsPhysical,
    FragmentsWithoutFrontier,
    RootBeyondFrontier { next_fragment_id: u64 },
    ActionOutsideRange {
        action_sequence: u64,
        target: u64,
        min_key: u64,
        exclusive_end: u64,
    },
    ActionSequenceExhausted { next_action_sequence: u64, action_count: u64 },
    VersionExhausted,
    FrontierOutOfRange { next: u64, at_least: u64 },
    ForeignDescriptor { version: u64 },
    RootTooLarge { bytes: u64, hard_capacity_bytes: u64 },
    RootMissing { version: u64 },
    SuffixAfterInlineRoot { version: u64 },
    RootNotLoaded { version: u64 },
    SnapshotFrontier { version: u64 },
    SequenceBelowRoot { version: u64, next_action_sequence: u64, root_next_action_sequence: u64 },
    DerivedVisibleExceedsPhysical { visible_rows: u64, total_rows: u64, version: u64 },
    RepeatedFragment { id: u64 },
    FragmentIdExhausted { id: u64 },
    VisibleRowsOverflow { id: u64 },
    TotalRowsOverflow { id: u64 },
    RepeatedNode { version: u64 },
    LeafAhead { action_sequence: u64, key: u64, watermark: u64 },
    FragmentIdExceedsU32 { id: u64 },
    PhysicalRowsUnknown { id: u64 },
    DeletedRowsUnknown { id: u64 },
    MoreDeletedThanRows { id: u64, deleted: u64, rows: u64 },
    EmptyAction,
    UnresolvedFragment { id: u64 },
    RowsExceedI64 { rows: u64 },
    PhysicalRowsExceedI64 { rows: u64 },
    CountsUnknown { id: u64 },
    ReplacementTargetMissing { id: u64 },
    ReplacementUnchanged { id: u64 },
    ReplacementOverlaps { id: u64 },
    OffsetExhausted { remaining: u64 },
    TooManyMappings,
    LeafNulls { field: LeafField },
    LeafDictionaryNulls { field: LeafField },
    LeafMappingWidth { bytes: u64 },
    LeafDictionaryKey { field: LeafField, code: i32 },
    FragmentMetaInvalid,
    FragmentMetaFilled,
    FragmentHeaderInvalid { id: u64 },
    FragmentHeaderFilled { id: u64 },
    LeafFragmentId { id: u64 },
    OverlayMetaInvalid,
    OverlayMetaFile,
    FewerColumnIndices,
    UnsortedFieldIds,
    LeafTotalRowsOverflow { id: u64 },
    LeafVisibleRowsOverflow { id: u64 },
    ChildFragmentCount { recorded: u32, found: u64 },
    FileTooSmall,
    MagicMismatch,
    MessageLength { expected: u64, found: u64 },
    DictionaryInfoMissing { field_id: i32 },
    DictionaryValuesMissing { field_id: i32 },
    DictionaryValueType { field_id: i32 },
    LeafRows { rows: u64, num_keys: u64 },
    LeafHeadersDiffer {
        keys: u64,
        first_id: Option<u64>,
        total_rows: u64,
        visible_rows: u64,
        num_keys: u64,
        min_key: u64,
        declared_total_rows: u64,
        declared_visible_rows: u64,
    },
    LeafRow { row: u64, id: u64 },
    UnknownBase { base_id: u32 },
    ActionBelowWatermark { action_sequence: u64, target: u64, watermark: u64 },
}

/// The kinds of failure a caller can tell apart.
#[derive(Clone, Copy, Debug, PartialEq, Eq)]
pub enum Error {
    /// The request itself is not acceptable.
    InvalidInput { reason: Reason },
    /// Persisted metadata contradicts the format.
    CorruptFile { reason: Reason },
    /// An invariant that validation should have established does not hold.
    Internal { reason: Reason },
    /// Persisted metadata uses a feature this version does not know.
    NotSupported { reason: Reason },
    /// What is to be written is not complete.
    Io { reason: Reason },
    /// A field has a type that cannot be written.
    Schema { reason: Reason },
}

} // verus!
