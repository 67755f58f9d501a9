//! Choosing a manifest layout.

use fragment_tree::layout::{ManifestLayout, MANIFEST_LAYOUT_KEY};

#[test]
fn layout_defaults_to_flat_and_rejects_unknown_values() {
    assert_eq!(
        ManifestLayout::from_config(&vec![]).unwrap(),
        ManifestLayout::Flat
    );
    let flat = vec![(MANIFEST_LAYOUT_KEY.to_string(), "flat".to_string())];
    assert_eq!(
        ManifestLayout::from_config(&flat).unwrap(),
        ManifestLayout::Flat
    );
    let tree = vec![(MANIFEST_LAYOUT_KEY.to_string(), "tree".to_string())];
    assert_eq!(
        ManifestLayout::from_config(&tree).unwrap(),
        ManifestLayout::Tree
    );
    let unknown = vec![(MANIFEST_LAYOUT_KEY.to_string(), "tiered".to_string())];
    let error = ManifestLayout::from_config(&unknown).unwrap_err();
    assert!(
        error.message().contains("layout=\"tiered\""),
        "{}",
        error.message()
    );
}

#[test]
fn other_keys_do_not_choose_a_layout() {
    let config = vec![
        ("lance.other".to_string(), "tree".to_string()),
        (MANIFEST_LAYOUT_KEY.to_string(), "tree".to_string()),
        ("lance.manifest".to_string(), "flat".to_string()),
    ];
    assert_eq!(
        ManifestLayout::from_config(&config).unwrap(),
        ManifestLayout::Tree
    );
}

#[test]
fn unknown_values_are_told_between_quotes() {
    let config = vec![(MANIFEST_LAYOUT_KEY.to_string(), "a\"b".to_string())];
    assert_eq!(
        ManifestLayout::from_config(&config).unwrap_err().message(),
        "unsupported lance.manifest.layout value: layout=\"a\\\"b\", expected=\"flat\" or \"tree\""
    );
}
