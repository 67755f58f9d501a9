//! Where tree objects live, relative to the dataset that owns them.
//!
//! Every rewrite gets a new identifier, so a path is written once.

use vstd::prelude::*;

use crate::error::{Error, Reason};
use crate::le;

verus! {

/// A lowercase hexadecimal digit.
pub open spec fn hex_digit(value: int) -> char {
    if value < 10 {
        ('0' as int + value) as char
    } else {
        ('a' as int + value - 10) as char
    }
}

/// Bytes as lowercase hexadecimal digits.
pub open spec fn hex(bytes: Seq<u8>) -> Seq<char>
    decreases bytes.len(),
{
    if bytes.len() == 0 {
        Seq::empty()
    } else {
        hex(bytes.drop_last()).push(hex_digit(bytes.last() as int / 16)).push(
            hex_digit(bytes.last() as int % 16),
        )
    }
}

/// An identifier as text: lowercase hexadecimal in groups of 8, 4, 4, 4 and
/// 12 digits, joined by hyphens.
pub open spec fn hyphenated(bytes: Seq<u8>) -> Seq<char> {
    hex(bytes.subrange(0, 4)).push('-') + hex(bytes.subrange(4, 6)).push('-') + hex(
        bytes.subrange(6, 8),
    ).push('-') + hex(bytes.subrange(8, 10)).push('-') + hex(bytes.subrange(10, 16))
}

/// `uuid::Uuid::new_v4` draws sixteen bytes at random. Nothing is claimed of
/// them but their number.
#[verifier::external_body]
pub(crate) fn new_identifier() -> (r: Vec<u8>)
    ensures
        r@.len() == 16,
{
    uuid::Uuid::new_v4().as_bytes().to_vec()
}

/// `uuid::Uuid::from_slice` takes exactly sixteen bytes, and the identifier's
/// text is the hyphenated lowercase form of those bytes in their order.
#[verifier::external_body]
pub(crate) fn identifier_text(bytes: &Vec<u8>) -> (r: Option<String>)
    ensures
        r is Some == (bytes@.len() == 16),
        r is Some ==> r->0@ == hyphenated(bytes@),
{
    uuid::Uuid::from_slice(bytes).ok().map(|uuid| uuid.to_string())
}

/// `uuid::Uuid::from_slice` takes exactly sixteen bytes, and the simple form
/// of the identifier is the lowercase form of those bytes in their order,
/// without hyphens.
#[verifier::external_body]
pub(crate) fn simple_text(bytes: &Vec<u8>) -> (r: Option<String>)
    ensures
        r is Some == (bytes@.len() == 16),
        r is Some ==> r->0@ == hex(bytes@),
{
    uuid::Uuid::from_slice(bytes).ok().map(|uuid| uuid.simple().to_string())
}

/// The path of a leaf with an identifier.
pub open spec fn leaf_path_of(identifier: Seq<u8>) -> Seq<char> {
    "_bt/leaf/"@ + hyphenated(identifier) + ".lance"@
}

/// The path of an internal node with an identifier.
pub open spec fn node_path_of(identifier: Seq<u8>) -> Seq<char> {
    "_bt/node/"@ + hyphenated(identifier) + ".node"@
}

/// The path of a root with an identifier.
pub open spec fn root_path_of(identifier: Seq<u8>) -> Seq<char> {
    "_bt/root/"@ + hyphenated(identifier) + ".root"@
}

fn in_directory(directory: &str, identifier: &Vec<u8>, extension: &str) -> (r: Option<String>)
    ensures
        r is Some == (identifier@.len() == 16),
        r is Some ==> r->0@ == directory@ + hyphenated(identifier@) + extension@,
{
    match identifier_text(identifier) {
        Some(text) => {
            let path = String::from_str(directory).concat(text.as_str()).concat(extension);
            Some(path)
        },
        None => None,
    }
}

/// The path of a leaf with an identifier.
pub(crate) fn leaf_path(identifier: &Vec<u8>) -> (r: String)
    requires
        identifier@.len() == 16,
    ensures
        r@ == leaf_path_of(identifier@),
{
    match in_directory("_bt/leaf/", identifier, ".lance") {
        Some(path) => path,
        None => String::new(),
    }
}

/// The path of an internal node with an identifier.
pub(crate) fn node_path(identifier: &Vec<u8>) -> (r: String)
    requires
        identifier@.len() == 16,
    ensures
        r@ == node_path_of(identifier@),
{
    match in_directory("_bt/node/", identifier, ".node") {
        Some(path) => path,
        None => String::new(),
    }
}

// Identifiers to turn to where a drawn one is taken.

/// An identifier with its second half replaced by a number.
pub open spec fn numbered(identifier: Seq<u8>, number: nat) -> Seq<u8> {
    identifier.take(8) + le::to_le(number, 8)
}

/// An identifier with its second half replaced by a number.
pub(crate) fn number_identifier(identifier: &Vec<u8>, number: u64) -> (r: Vec<u8>)
    requires
        identifier@.len() == 16,
    ensures
        r@ == numbered(identifier@, number as nat),
        r@.len() == 16,
{
    let mut out: Vec<u8> = Vec::new();
    let mut i: usize = 0;
    while i < 8
        invariant
            i <= 8,
            identifier@.len() == 16,
            out@ == identifier@.take(i as int),
        decreases 8 - i,
    {
        out.push(identifier[i]);
        assert(out@ =~= identifier@.take(i + 1));
        i = i + 1;
    }
    let ghost head = out@;
    let mut rest: u64 = number;
    let mut width: usize = 8;
    proof {
        le::lemma_to_le_len(number as nat, 8);
        assert(head + le::to_le(number as nat, 8) =~= out@ + le::to_le(rest as nat, width as nat));
    }
    while width > 0
        invariant
            width <= 8,
            numbered(identifier@, number as nat) == out@ + le::to_le(rest as nat, width as nat),
        decreases width,
    {
        let digit: u8 = (rest % 0x100) as u8;
        let ghost had = out@;
        out.push(digit);
        proof {
            let tail = le::to_le(rest as nat / 0x100, (width - 1) as nat);
            assert(le::to_le(rest as nat, width as nat) == seq![digit] + tail);
            assert(had + (seq![digit] + tail) =~= out@ + tail);
        }
        rest = rest / 0x100;
        width = width - 1;
    }
    proof {
        assert(out@ + le::to_le(rest as nat, 0) =~= out@);
        le::lemma_to_le_len(number as nat, 8);
    }
    out
}

proof fn lemma_hex_digit(a: int, b: int)
    requires
        0 <= a < 16,
        0 <= b < 16,
        hex_digit(a) == hex_digit(b),
    ensures
        a == b,
{
}

proof fn lemma_hex_len(bytes: Seq<u8>)
    ensures
        hex(bytes).len() == 2 * bytes.len(),
    decreases bytes.len(),
{
    if bytes.len() > 0 {
        lemma_hex_len(bytes.drop_last());
    }
}

/// Every path made from an identifier is as long as any other, so the size of
/// a reference does not depend on the identifier that was drawn.
pub proof fn law_drawn_paths_have_one_length(identifier: Seq<u8>)
    requires
        identifier.len() == 16,
    ensures
        leaf_path_of(identifier).len() == 51,
        node_path_of(identifier).len() == 50,
{
    reveal_strlit("_bt/leaf/");
    reveal_strlit("_bt/node/");
    reveal_strlit(".lance");
    reveal_strlit(".node");
    lemma_hex_len(identifier.subrange(0, 4));
    lemma_hex_len(identifier.subrange(4, 6));
    lemma_hex_len(identifier.subrange(6, 8));
    lemma_hex_len(identifier.subrange(8, 10));
    lemma_hex_len(identifier.subrange(10, 16));
}

/// Different bytes are written differently.
proof fn lemma_hex(a: Seq<u8>, b: Seq<u8>)
    requires
        a.len() == b.len(),
        hex(a) == hex(b),
    ensures
        a == b,
    decreases a.len(),
{
    if a.len() == 0 {
        assert(a =~= b);
    } else {
        let x = a.drop_last();
        let y = b.drop_last();
        let n = 2 * x.len() as int;
        lemma_hex_len(x);
        lemma_hex_len(y);
        assert(hex(a)[n] == hex_digit(a.last() as int / 16));
        assert(hex(b)[n] == hex_digit(b.last() as int / 16));
        assert(hex(a)[n + 1] == hex_digit(a.last() as int % 16));
        assert(hex(b)[n + 1] == hex_digit(b.last() as int % 16));
        lemma_hex_digit(a.last() as int / 16, b.last() as int / 16);
        lemma_hex_digit(a.last() as int % 16, b.last() as int % 16);
        assert(hex(x) =~= hex(a).take(n));
        assert(hex(y) =~= hex(b).take(n));
        lemma_hex(x, y);
        assert(a =~= x.push(a.last()));
        assert(b =~= y.push(b.last()));
    }
}

/// Where the groups of an identifier's text stand.
proof fn lemma_groups(bytes: Seq<u8>)
    requires
        bytes.len() == 16,
    ensures
        hyphenated(bytes).len() == 36,
        hyphenated(bytes).subrange(19, 23) == hex(bytes.subrange(8, 10)),
        hyphenated(bytes).subrange(24, 36) == hex(bytes.subrange(10, 16)),
{
    lemma_hex_len(bytes.subrange(0, 4));
    lemma_hex_len(bytes.subrange(4, 6));
    lemma_hex_len(bytes.subrange(6, 8));
    lemma_hex_len(bytes.subrange(8, 10));
    lemma_hex_len(bytes.subrange(10, 16));
    assert(hyphenated(bytes).subrange(19, 23) =~= hex(bytes.subrange(8, 10)));
    assert(hyphenated(bytes).subrange(24, 36) =~= hex(bytes.subrange(10, 16)));
}

/// Identifiers with different numbers have different texts.
proof fn lemma_numbered(identifier: Seq<u8>, a: nat, b: nat)
    requires
        identifier.len() == 16,
        a <= u64::MAX,
        b <= u64::MAX,
        hyphenated(numbered(identifier, a)) == hyphenated(numbered(identifier, b)),
    ensures
        a == b,
{
    let x = numbered(identifier, a);
    let y = numbered(identifier, b);
    le::lemma_to_le_len(a, 8);
    le::lemma_to_le_len(b, 8);
    lemma_groups(x);
    lemma_groups(y);
    lemma_hex(x.subrange(8, 10), y.subrange(8, 10));
    lemma_hex(x.subrange(10, 16), y.subrange(10, 16));
    assert forall|i: int| 8 <= i < 16 implies x[i] == y[i] by {
        if i < 10 {
            assert(x.subrange(8, 10)[i - 8] == y.subrange(8, 10)[i - 8]);
        } else {
            assert(x.subrange(10, 16)[i - 10] == y.subrange(10, 16)[i - 10]);
        }
    }
    assert(x.skip(8) =~= le::to_le(a, 8));
    assert(y.skip(8) =~= le::to_le(b, 8));
    assert(x.skip(8) =~= y.skip(8));
    assert(le::bound(8) == 0x1_0000_0000_0000_0000) by {
        reveal_with_fuel(le::bound, 9);
    }
    le::law_le_reads_back(a, 8);
    le::law_le_reads_back(b, 8);
}

/// Identifiers with different numbers name different objects.
pub proof fn lemma_numbered_paths(identifier: Seq<u8>, a: nat, b: nat)
    requires
        identifier.len() == 16,
        a <= u64::MAX,
        b <= u64::MAX,
        node_path_of(numbered(identifier, a)) == node_path_of(numbered(identifier, b))
            || leaf_path_of(numbered(identifier, a)) == leaf_path_of(numbered(identifier, b)),
    ensures
        a == b,
{
    let x = numbered(identifier, a);
    let y = numbered(identifier, b);
    le::lemma_to_le_len(a, 8);
    le::lemma_to_le_len(b, 8);
    lemma_groups(x);
    lemma_groups(y);
    let n = "_bt/node/"@.len() as int;
    let m = "_bt/leaf/"@.len() as int;
    assert(node_path_of(x).subrange(n, n + 36) =~= hyphenated(x));
    assert(node_path_of(y).subrange(n, n + 36) =~= hyphenated(y));
    assert(leaf_path_of(x).subrange(m, m + 36) =~= hyphenated(x));
    assert(leaf_path_of(y).subrange(m, m + 36) =~= hyphenated(y));
    lemma_numbered(identifier, a, b);
}

/// Numbers below a count that are all different are not more than the count.
pub proof fn lemma_crowded(places: Seq<int>, count: nat)
    requires
        forall|i: int| 0 <= i < places.len() ==> 0 <= #[trigger] places[i] < count,
        forall|i: int, j: int|
            0 <= i < j < places.len() ==> #[trigger] places[i] != #[trigger] places[j],
    ensures
        places.len() <= count,
{
    let range = vstd::set_lib::set_int_range(0, count as int);
    vstd::set_lib::lemma_int_range(0, count as int);
    places.unique_seq_to_set();
    assert(places.to_set().subset_of(range));
    vstd::set_lib::lemma_len_subset(places.to_set(), range);
}

/// Resolve the manifest's root identifier within its dataset.
pub fn root_path(bytes: &Vec<u8>) -> (r: Result<String, Error>)
    ensures
        bytes@.len() == 16 ==> r is Ok && r->Ok_0@ == root_path_of(bytes@),
        bytes@.len() != 16 ==> r == Err::<String, Error>(
            Error::CorruptFile { reason: Reason::RootUuidLength { bytes: bytes@.len() as u64 } },
        ),
{
    match in_directory("_bt/root/", bytes, ".root") {
        Some(path) => Ok(path),
        None => Err(
            Error::CorruptFile { reason: Reason::RootUuidLength { bytes: bytes.len() as u64 } },
        ),
    }
}

/// A text cut at its delimiters.
pub open spec fn segments(text: Seq<char>) -> Seq<Seq<char>>
    decreases text.len(),
{
    if text.len() == 0 {
        seq![Seq::empty()]
    } else {
        let rest = segments(text.drop_last());
        if text.last() == '/' {
            rest.push(Seq::empty())
        } else {
            rest.update(rest.len() - 1, rest.last().push(text.last()))
        }
    }
}

/// Whether a text can stand between the delimiters of a path: it is not empty,
/// not relative, and holds no control character of ASCII.
pub open spec fn is_segment(text: Seq<char>) -> bool {
    &&& text.len() > 0
    &&& text != seq!['.']
    &&& text != seq!['.', '.']
    &&& forall|i: int| 0 <= i < text.len() ==> ' ' <= #[trigger] text[i] && text[i] != '\u{7f}'
}

/// What a text is as a path: without one leading and one trailing delimiter,
/// where all its segments can stand in one.
pub open spec fn parsed_path(text: Seq<char>) -> Option<Seq<char>> {
    let tail = if text.len() > 0 && text[0] == '/' {
        text.skip(1)
    } else {
        text
    };
    let stripped = if tail.len() > 0 && tail.last() == '/' {
        tail.drop_last()
    } else {
        tail
    };
    let parts = segments(stripped);
    if tail.len() == 0 {
        Some(tail)
    } else if forall|i: int| 0 <= i < parts.len() ==> is_segment(#[trigger] parts[i]) {
        Some(stripped)
    } else {
        None
    }
}

/// `object_store::path::Path::parse` drops one leading and then one trailing
/// delimiter, and refuses a text with an empty or relative segment or with a
/// control character. A text that is empty or one delimiter is the empty path.
#[verifier::external_body]
pub(crate) fn parse_path(text: &str) -> (r: Option<String>)
    ensures
        match r {
            Some(path) => parsed_path(text@) == Some(path@),
            None => parsed_path(text@) is None,
        },
{
    object_store::path::Path::parse(text).ok().map(|path| path.to_string())
}

/// Whether a text starts with another.
pub open spec fn starts_with(text: Seq<char>, prefix: Seq<char>) -> bool {
    prefix.len() <= text.len() && text.subrange(0, prefix.len() as int) == prefix
}

fn begins_with(text: &String, prefix: &str) -> (r: bool)
    ensures
        r == starts_with(text@, prefix@),
{
    let n: usize = prefix.unicode_len();
    let m: usize = text.as_str().unicode_len();
    if n > m {
        return false;
    }
    let mut i: usize = 0;
    while i < n
        invariant
            i <= n <= m,
            n == prefix@.len(),
            m == text@.len(),
            text@.subrange(0, i as int) == prefix@.subrange(0, i as int),
        decreases n - i,
    {
        if text.as_str().get_char(i) != prefix.get_char(i) {
            assert(text@.subrange(0, n as int)[i as int] == text@[i as int]);
            return false;
        }
        assert(text@.subrange(0, i + 1) =~= text@.subrange(0, i as int).push(text@[i as int]));
        assert(prefix@.subrange(0, i + 1) =~= prefix@.subrange(0, i as int).push(
            prefix@[i as int],
        ));
        i = i + 1;
    }
    assert(prefix@.subrange(0, n as int) =~= prefix@);
    true
}

/// Why a metadata path is refused, given what it parses to.
pub open spec fn path_fault(path: Seq<char>, parsed: Option<Seq<char>>) -> Option<Reason> {
    match parsed {
        None => Some(Reason::MetadataPathInvalid),
        Some(relative) => if !starts_with(path, "_bt/"@) || path != relative {
            Some(Reason::MetadataPathOutside)
        } else {
            None
        },
    }
}

/// A path below a base. An empty base is the top of its store.
pub open spec fn below(base: Seq<char>, path: Seq<char>) -> Seq<char> {
    if base.len() == 0 {
        path
    } else {
        base.push('/') + path
    }
}

/// A path below a base.
pub(crate) fn join(base: &String, path: &String) -> (r: String)
    ensures
        r@ == below(base@, path@),
{
    if crate::replay::is_empty(base) {
        path.clone()
    } else {
        let joined = base.clone().concat("/").concat(path.as_str());
        proof {
            reveal_strlit("/");
            assert("/"@ =~= seq!['/']);
            assert(joined@ =~= below(base@, path@));
        }
        joined
    }
}

/// Where a metadata path resolves in a dataset, given what it parses to: only
/// a canonical path inside the tree's own directory does.
pub fn resolve_parsed(base: &String, path: &String, parsed: &Option<String>) -> (r: Result<
    String,
    Error,
>)
    ensures
        match path_fault(
            path@,
            match *parsed {
                Some(text) => Some(text@),
                None => None,
            },
        ) {
            Some(reason) => r == Err::<String, Error>(Error::CorruptFile { reason }),
            None => r is Ok && r->Ok_0@ == below(base@, path@),
        },
{
    let Some(relative) = parsed else {
        return Err(Error::CorruptFile { reason: Reason::MetadataPathInvalid });
    };
    if !begins_with(path, "_bt/") || *path != *relative {
        return Err(Error::CorruptFile { reason: Reason::MetadataPathOutside });
    }
    Ok(join(base, path))
}

/// Where a metadata path resolves in the dataset at `base`.
pub fn resolve_under(base: &String, path: &String) -> (r: Result<String, Error>)
    ensures
        match path_fault(path@, parsed_path(path@)) {
            Some(reason) => r == Err::<String, Error>(Error::CorruptFile { reason }),
            None => r is Ok && r->Ok_0@ == below(base@, path@),
        },
{
    let parsed = parse_path(path.as_str());
    resolve_parsed(base, path, &parsed)
}

/// A path that is resolved starts with the tree's directory, is a path as it
/// stands, and leads below the base: its text is what the base and a delimiter
/// are put in front of, and nothing is put in front of it at the top.
pub proof fn law_resolved_path_stays_in_the_tree(
    base: Seq<char>,
    path: Seq<char>,
    parsed: Option<Seq<char>>,
)
    ensures
        path_fault(path, parsed) is None <==> {
            &&& parsed == Some(path)
            &&& path.len() >= 4
            &&& path[0] == '_' && path[1] == 'b' && path[2] == 't' && path[3] == '/'
        },
        base.len() == 0 ==> below(base, path) == path,
        base.len() > 0 ==> below(base, path) == base + seq!['/'] + path,
{
    reveal_strlit("_bt/");
    let prefix = "_bt/"@;
    assert(prefix.len() == 4);
    if base.len() > 0 {
        assert(below(base, path) =~= base + seq!['/'] + path);
    }
    if path.len() >= 4 {
        let front = path.subrange(0, 4);
        assert(front[0] == path[0] && front[1] == path[1] && front[2] == path[2] && front[3]
            == path[3]);
        if path[0] == '_' && path[1] == 'b' && path[2] == 't' && path[3] == '/' {
            assert(front =~= prefix);
        }
    }
}

/// Leaves, nodes and roots lie in directories of their own under names of their
/// own kind.
pub proof fn law_objects_lie_in_their_directories(identifier: Seq<u8>)
    ensures
        leaf_path_of(identifier) == "_bt/leaf/"@ + hyphenated(identifier) + ".lance"@,
        node_path_of(identifier) == "_bt/node/"@ + hyphenated(identifier) + ".node"@,
        root_path_of(identifier) == "_bt/root/"@ + hyphenated(identifier) + ".root"@,
{
}

} // verus!
