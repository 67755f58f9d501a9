//! What callers are told.

use fragment_tree::error::{Aggregate, EditKind, Error, Reason};
use fragment_tree::le::{push_i32s, read_i32s};
use fragment_tree::text::{decimal_text, signed_text};

#[test]
fn numbers_are_written_in_decimal() {
    for value in [0u128, 9, 10, 99, 100, 1_000_000_007, u64::MAX as u128, u128::MAX] {
        assert_eq!(decimal_text(value), value.to_string());
    }
    for value in [0i128, -1, 10, -10, i64::MIN as i128, i128::MIN, i128::MAX] {
        assert_eq!(signed_text(value), value.to_string());
    }
}

#[test]
fn numbers_read_back_from_their_bytes() {
    let values = vec![0, 1, -1, 255, 256, i32::MIN, i32::MAX, -65536];
    let mut bytes = vec![7];
    push_i32s(&mut bytes, &values);
    let mut expected = vec![7];
    for value in &values {
        expected.extend_from_slice(&value.to_le_bytes());
    }
    assert_eq!(bytes, expected);
    assert_eq!(read_i32s(&bytes[1..].to_vec()), values);
}

#[test]
fn messages_name_what_is_at_fault() {
    let told = |reason: Reason| Error::InvalidInput { reason }.message();
    assert_eq!(
        told(Reason::AggregateOverflow {
            name: Aggregate::VisibleRows,
            base: 7,
            delta: -3
        }),
        "fragment metadata tree visible_rows aggregate overflow: base=7, delta=-3"
    );
    assert_eq!(
        told(Reason::EditTargetMissing {
            kind: EditKind::ClearDeletionFile,
            frag_id: 12
        }),
        "ClearDeletionFile action targets missing frag_id=12"
    );
    assert_eq!(
        told(Reason::FragmentCounts {
            id: 1,
            physical_rows: 2,
            deleted_rows: Some(3)
        }),
        "fragment 1 has physical_rows=2, deleted_rows=Some(3)"
    );
    assert_eq!(
        told(Reason::FragmentCounts {
            id: 1,
            physical_rows: 2,
            deleted_rows: None
        }),
        "fragment 1 has physical_rows=2, deleted_rows=None"
    );
    assert_eq!(
        told(Reason::DeltaMismatch {
            action_sequence: 5,
            key: 6,
            stored: (1, -2, 3),
            actual: (0, 4, -5)
        }),
        "Mutation action_sequence=5 for fragment 6 stores fragment, row, and visible deltas 1 -2 3 \
         but the record changed by 0 4 -5"
    );
    assert_eq!(
        told(Reason::FrontierOutOfRange {
            next: 9,
            at_least: 11
        }),
        "Fragment ID frontier 9 must be between 11 and 2^32"
    );
}
