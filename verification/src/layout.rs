//! Creation-time layout selection. Manifest feature flags govern
//! compatibility; this setting chooses which writer to use for a new dataset.

use vstd::prelude::*;

verus! {

/// Table config key selecting a manifest layout.
pub const MANIFEST_LAYOUT_KEY: &'static str = "lance.manifest.layout";

/// Config value selecting the flat manifest, also the default.
pub const MANIFEST_LAYOUT_FLAT: &'static str = "flat";

/// Config value selecting the buffered fragment tree layout.
pub const MANIFEST_LAYOUT_TREE: &'static str = "tree";

/// The manifest layout a table's config selects.
#[derive(Clone, Copy, Debug, PartialEq, Eq)]
pub enum ManifestLayout {
    /// Single-protobuf manifest. The default when the key is unset.
    Flat,
    /// Buffered fragment metadata, selected by `lance.manifest.layout=tree`.
    Tree,
}

/// A layout value that is not known.
#[derive(Debug)]
pub struct UnsupportedLayout {
    pub layout: String,
}

/// What `std` writes for a text between quotes, with escapes.
pub uninterp spec fn quoted(text: Seq<char>) -> Seq<char>;

/// `std`'s debug form of a text: the text between quotes, with what cannot
/// stand there escaped.
#[verifier::external_body]
fn quote(text: &str) -> (r: String)
    ensures
        r@ == quoted(text@),
{
    format!("{:?}", text)
}

/// What a caller is told of a layout value, given it between quotes.
pub open spec fn unsupported(value: Seq<char>) -> Seq<char> {
    "unsupported lance.manifest.layout value: layout="@ + value
        + ", expected=\"flat\" or \"tree\""@
}

/// What a caller is told of a layout value, given it between quotes.
pub fn unsupported_message(value: &str) -> (r: String)
    ensures
        r@ == unsupported(value@),
{
    String::from_str("unsupported lance.manifest.layout value: layout=").concat(value).concat(
        ", expected=\"flat\" or \"tree\"",
    )
}

impl UnsupportedLayout {
    /// What a caller is told.
    pub fn message(&self) -> (r: String)
        ensures
            r@ == unsupported(quoted(self.layout@)),
    {
        unsupported_message(quote(self.layout.as_str()).as_str())
    }
}

/// The value of a key in table config, given as pairs of key and value: that
/// of the last pair with the key.
pub open spec fn config_value(config: Seq<(String, String)>, key: Seq<char>) -> Option<Seq<char>>
    decreases config.len(),
{
    if config.len() == 0 {
        None
    } else if config.last().0@ == key {
        Some(config.last().1@)
    } else {
        config_value(config.drop_last(), key)
    }
}

/// The layout a config value selects.
pub open spec fn selected(value: Option<Seq<char>>) -> Option<ManifestLayout> {
    match value {
        None => Some(ManifestLayout::Flat),
        Some(value) => if value == "flat"@ {
            Some(ManifestLayout::Flat)
        } else if value == "tree"@ {
            Some(ManifestLayout::Tree)
        } else {
            None
        },
    }
}

impl ManifestLayout {
    /// Select a layout from table config, treating an unset key as flat.
    ///
    /// Rejects unknown values instead of falling back, so a typo cannot
    /// silently create a flat dataset.
    pub fn from_config(config: &Vec<(String, String)>) -> (r: Result<Self, UnsupportedLayout>)
        ensures
            ({
                let value = config_value(config@, "lance.manifest.layout"@);
                match selected(value) {
                    Some(layout) => r == Ok::<Self, UnsupportedLayout>(layout),
                    None => r matches Err(error) && value == Some(error.layout@),
                }
            }),
    {
        let key = String::from_str(MANIFEST_LAYOUT_KEY);
        let flat = String::from_str(MANIFEST_LAYOUT_FLAT);
        let tree = String::from_str(MANIFEST_LAYOUT_TREE);
        let mut i: usize = config.len();
        assert(config@.take(i as int) =~= config@);
        while i > 0
            invariant
                i <= config@.len(),
                key@ == "lance.manifest.layout"@,
                flat@ == "flat"@,
                tree@ == "tree"@,
                config_value(config@, "lance.manifest.layout"@) == config_value(
                    config@.take(i as int),
                    "lance.manifest.layout"@,
                ),
            decreases i,
        {
            i = i - 1;
            proof {
                let taken = config@.take(i + 1);
                assert(taken.drop_last() =~= config@.take(i as int));
                assert(taken.last() == config@[i as int]);
            }
            if config[i].0 == key {
                return if config[i].1 == flat {
                    Ok(ManifestLayout::Flat)
                } else if config[i].1 == tree {
                    Ok(ManifestLayout::Tree)
                } else {
                    Err(UnsupportedLayout { layout: config[i].1.clone() })
                };
            }
        }
        Ok(ManifestLayout::Flat)
    }
}

/// A table has the layout that the last value of its key names: the flat one
/// for `flat`, the tree for `tree`. A table without the key is flat, and every
/// other value is refused.
pub proof fn law_last_value_selects_the_layout(config: Seq<(String, String)>, at: int)
    requires
        -1 <= at < config.len(),
        at >= 0 ==> config[at].0@ == "lance.manifest.layout"@,
        forall|i: int|
            at < i < config.len() ==> (#[trigger] config[i]).0@ != "lance.manifest.layout"@,
    ensures
        ({
            let layout = selected(config_value(config, "lance.manifest.layout"@));
            if at < 0 || config[at].1@ == "flat"@ {
                layout == Some(ManifestLayout::Flat)
            } else if config[at].1@ == "tree"@ {
                layout == Some(ManifestLayout::Tree)
            } else {
                layout is None
            }
        }),
    decreases config.len(),
{
    if config.len() > 0 && at < config.len() - 1 {
        let rest = config.drop_last();
        assert(config[config.len() - 1].0@ != "lance.manifest.layout"@);
        assert forall|i: int| at < i < rest.len() implies (#[trigger] rest[i]).0@
            != "lance.manifest.layout"@ by {
            assert(rest[i] == config[i]);
        }
        law_last_value_selects_the_layout(rest, at);
    }
}

} // verus!
