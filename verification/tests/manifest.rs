//! Framing of manifest files and where they live.

use fragment_tree::error::{Error, Reason};
use fragment_tree::fragment_catalog::seal_run;
use fragment_tree::manifest::{
    child_full_path, dataset_root_of_manifest, message_position, plan_dictionary, read_tail,
    tail_range, unframe, verify_child_fragment_count, write_magics, write_protobuf,
    DictionaryEncoding, DictionaryField, TailStep, ValueKind,
};
use fragment_tree::record::Fragment;

fn framed(prefix: &[u8], message: &[u8]) -> Vec<u8> {
    let mut file = prefix.to_vec();
    file.extend_from_slice(&(message.len() as u32).to_le_bytes());
    file.extend_from_slice(message);
    file.extend_from_slice(&(prefix.len() as i64).to_le_bytes());
    file.extend_from_slice(&0i16.to_le_bytes());
    file.extend_from_slice(&2i16.to_le_bytes());
    file.extend_from_slice(b"LANC");
    file
}

/// Read the message of a file as a reader with ranged reads does.
fn read(file: &[u8], known_size: Option<u64>) -> Result<Vec<u8>, Error> {
    let size = known_size.unwrap_or(file.len() as u64);
    let (start, end) = tail_range(size);
    let end = (end as usize).min(file.len());
    let start = (start as usize).min(end);
    let bytes = file[start..end].to_vec();
    match read_tail(&bytes, size, known_size.is_some())? {
        TailStep::Retry => read(file, None),
        TailStep::Message(message) => unframe(&message),
        TailStep::Fetch(from, to) => {
            let mut whole = file[from as usize..to as usize].to_vec();
            whole.extend_from_slice(&bytes);
            unframe(&whole)
        }
    }
}

#[test]
fn messages_of_all_sizes_read_back() {
    for prefix in [0usize, 1000, 70_000] {
        for size in [0usize, 1, 1000, 65_516, 65_517, 100_000, 200_000] {
            let message: Vec<u8> = (0..size).map(|i| (i * 7 % 251) as u8).collect();
            let file = framed(&vec![9; prefix], &message);
            assert_eq!(read(&file, None).unwrap(), message);
            assert_eq!(read(&file, Some(file.len() as u64)).unwrap(), message);
        }
    }
}

#[test]
fn what_is_written_is_a_framed_message() {
    for prefix in [0usize, 300, 70_000] {
        let message: Vec<u8> = (0..1000usize).map(|i| (i % 251) as u8).collect();
        let mut file = vec![9u8; prefix];
        let start = write_protobuf(&mut file, &message);
        assert_eq!(start, prefix as u64);
        write_magics(&mut file, start, 0, 2);
        assert_eq!(file, framed(&vec![9; prefix], &message));
        assert_eq!(read(&file, None).unwrap(), message);
    }
    let mut file = Vec::new();
    write_magics(&mut file, 0x0102, 0x0304, 5);
    assert_eq!(file, b"\x02\x01\0\0\0\0\0\0\x04\x03\x05\0LANC".to_vec());
}

#[test]
fn an_outdated_size_is_asked_for_again() {
    let message = vec![5u8; 300];
    let file = framed(&[1, 2, 3], &message);
    assert_eq!(read(&file, Some(100)).unwrap(), message);
    assert_eq!(read(&file, Some(10)).unwrap(), message);
}

#[test]
fn files_that_are_no_manifests_are_refused() {
    assert_eq!(
        read(&[1, 2, 3], None).unwrap_err().message(),
        "Invalid format: file size is smaller than 16 bytes"
    );
    assert_eq!(
        read(&[0; 40], None).unwrap_err().message(),
        "Invalid format: magic number does not match"
    );
    let mut file = framed(&[], &[1, 2, 3, 4]);
    file[0] = 9;
    assert_eq!(
        read(&file, None).unwrap_err().message(),
        "Invalid format: message length does not match. Expected 9, got 4"
    );
}

#[test]
fn positions_are_signed_and_little_endian() {
    let mut file = framed(&[0; 513], &[7]);
    assert_eq!(message_position(&file), 513);
    let n = file.len();
    file[n - 16..n - 8].copy_from_slice(&(-2i64).to_le_bytes());
    assert_eq!(message_position(&file), -2);
}

#[test]
fn children_live_below_the_dataset_of_their_manifest() {
    let root = dataset_root_of_manifest(&"a/b/_versions/1.manifest".to_string());
    assert_eq!(root, "a/b");
    assert_eq!(
        child_full_path(&root, "_manifest_children/x.manifest"),
        "a/b/_manifest_children/x.manifest"
    );
    let top = dataset_root_of_manifest(&"_versions/1.manifest".to_string());
    assert_eq!(top, "");
    assert_eq!(child_full_path(&top, "child"), "child");
    assert_eq!(dataset_root_of_manifest(&"1.manifest".to_string()), "");
    // What a segment may not hold is encoded.
    assert_eq!(child_full_path(&"a".to_string(), "b c/d*"), "a/b c/d%2A");
}

#[test]
fn children_hold_what_their_references_say() {
    let run = vec![Fragment::new(1).with_physical_rows(1), Fragment::new(2)];
    let reference = seal_run(&run, "p".to_string(), 0);
    verify_child_fragment_count(&reference, 2).unwrap();
    assert_eq!(
        verify_child_fragment_count(&reference, 3).unwrap_err(),
        Error::CorruptFile {
            reason: Reason::ChildFragmentCount {
                recorded: 2,
                found: 3
            }
        }
    );
}

#[test]
fn only_legacy_storage_writes_dictionaries() {
    let field = DictionaryField {
        field_id: 4,
        is_dictionary: true,
        has_info: true,
        values: Some(ValueKind::Numeric),
    };
    assert_eq!(plan_dictionary(field, false).unwrap(), None);
    assert_eq!(
        plan_dictionary(field, true).unwrap(),
        Some(DictionaryEncoding::Plain)
    );
    let binary = DictionaryField {
        values: Some(ValueKind::BinaryLike),
        ..field
    };
    assert_eq!(
        plan_dictionary(binary, true).unwrap(),
        Some(DictionaryEncoding::Binary)
    );
    let plain = DictionaryField {
        is_dictionary: false,
        ..field
    };
    assert_eq!(plan_dictionary(plain, true).unwrap(), None);
    let bare = DictionaryField {
        has_info: false,
        ..field
    };
    assert!(matches!(
        plan_dictionary(bare, true).unwrap_err(),
        Error::Io { .. }
    ));
    let empty = DictionaryField {
        values: None,
        ..field
    };
    assert!(matches!(
        plan_dictionary(empty, true).unwrap_err(),
        Error::Io { .. }
    ));
    let other = DictionaryField {
        values: Some(ValueKind::Other),
        ..field
    };
    assert!(matches!(
        plan_dictionary(other, true).unwrap_err(),
        Error::Schema { .. }
    ));
}
