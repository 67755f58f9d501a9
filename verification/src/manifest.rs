//! Framing of manifest files, and putting a tiered manifest together.
//!
//! A manifest file ends with its message, where the message starts, the
//! format version and a magic number. The message is preceded by its length.

use vstd::prelude::*;

use crate::error::{Error, Reason};
use crate::fragment_catalog::{FragmentManifestRef, RefView};
use crate::le;
use crate::record::{clone_fragments, Fragment, FragmentView};
use crate::tiered;
use crate::tiered::LayoutView;
use crate::views;

verus! {

broadcast use crate::views::group_views;

/// The bytes that end every file.
pub open spec fn magic() -> Seq<u8> {
    seq![0x4cu8, 0x41u8, 0x4eu8, 0x43u8]
}

/// Bytes read from the end of a file before its message is known.
pub const PREFETCH_SIZE: u64 = 65536;

/// The bytes behind a message: where it starts, the version and the magic
/// number.
pub const TAIL_SIZE: usize = 16;

/// `byteorder::LittleEndian::read_u32` reads the first four bytes, the least
/// significant first.
#[verifier::external_body]
fn read_u32(bytes: &[u8]) -> (r: u32)
    requires
        bytes@.len() >= 4,
    ensures
        r as nat == le::from_le(bytes@.take(4)),
{
    <byteorder::LittleEndian as byteorder::ByteOrder>::read_u32(bytes)
}

/// A number of eight bytes as a signed one in two's complement.
pub open spec fn signed(value: nat) -> i64 {
    if value >= 0x8000_0000_0000_0000 {
        (value - 0x1_0000_0000_0000_0000) as i64
    } else {
        value as i64
    }
}

/// `byteorder::LittleEndian::read_i64` reads the first eight bytes, the least
/// significant first, as a number in two's complement.
#[verifier::external_body]
fn read_i64(bytes: &[u8]) -> (r: i64)
    requires
        bytes@.len() >= 8,
    ensures
        r == signed(le::from_le(bytes@.take(8))),
{
    <byteorder::LittleEndian as byteorder::ByteOrder>::read_i64(bytes)
}

/// The range of bytes to read from the end of a file of a size.
pub fn tail_range(file_size: u64) -> (r: (u64, u64))
    ensures
        r.1 == file_size,
        r.0 == if file_size >= PREFETCH_SIZE {
            file_size - PREFETCH_SIZE
        } else {
            0
        },
{
    if file_size >= PREFETCH_SIZE {
        (file_size - PREFETCH_SIZE, file_size)
    } else {
        (0, file_size)
    }
}

/// Whether bytes end as a file does.
pub open spec fn ends_well(bytes: Seq<u8>) -> bool {
    bytes.len() >= TAIL_SIZE && bytes.skip(bytes.len() - 4) == magic()
}

/// Whether bytes end with the magic number.
pub fn has_magic(bytes: &Vec<u8>) -> (r: bool)
    requires
        bytes@.len() >= TAIL_SIZE,
    ensures
        r == (bytes@.skip(bytes@.len() - 4) == magic()),
{
    let n: usize = bytes.len();
    let ghost end = bytes@.skip(n - 4);
    let same = bytes[n - 4] == 0x4c && bytes[n - 3] == 0x41 && bytes[n - 2] == 0x4e && bytes[n
        - 1] == 0x43;
    proof {
        assert(end[0] == bytes@[n - 4]);
        assert(end[1] == bytes@[n - 3]);
        assert(end[2] == bytes@[n - 2]);
        assert(end[3] == bytes@[n - 1]);
        if same {
            assert(end =~= magic());
        } else if end == magic() {
            assert(magic()[0] == 0x4c && magic()[1] == 0x41 && magic()[2] == 0x4e && magic()[3]
                == 0x43);
        }
    }
    same
}

/// What to do with the bytes read from the end of a file.
#[derive(Debug)]
pub enum TailStep {
    /// The size that was known may be out of date: ask for it and read again.
    Retry,
    /// The bytes hold the message, with its length and what follows it.
    Message(Vec<u8>),
    /// The message starts before the bytes: read this range and put it in
    /// front of them.
    Fetch(u64, u64),
}

pub enum TailView {
    Retry,
    Message(Seq<u8>),
    Fetch(u64, u64),
}

impl View for TailStep {
    type V = TailView;

    open spec fn view(&self) -> TailView {
        match self {
            TailStep::Retry => TailView::Retry,
            TailStep::Message(bytes) => TailView::Message(bytes@),
            TailStep::Fetch(start, end) => TailView::Fetch(*start, *end),
        }
    }
}

/// Where the bytes at the end of a file say that its message starts.
pub open spec fn position(bytes: Seq<u8>) -> i64 {
    signed(le::from_le(bytes.subrange(bytes.len() - 16, bytes.len() - 8)))
}

/// Where the message of a file starts, by the bytes at its end.
pub fn message_position(bytes: &Vec<u8>) -> (r: i64)
    requires
        bytes@.len() >= TAIL_SIZE,
    ensures
        r == position(bytes@),
{
    let n: usize = bytes.len();
    let mut eight: Vec<u8> = Vec::new();
    let mut i: usize = n - 16;
    while i < n - 8
        invariant
            n == bytes@.len(),
            n >= 16,
            n - 16 <= i <= n - 8,
            eight@ == bytes@.subrange(n - 16, i as int),
        decreases n - 8 - i,
    {
        eight.push(bytes[i]);
        assert(bytes@.subrange(n - 16, i + 1) =~= bytes@.subrange(n - 16, i as int).push(
            bytes@[i as int],
        ));
        i = i + 1;
    }
    assert(eight@.take(8) =~= bytes@.subrange(n - 16, n - 8));
    read_i64(eight.as_slice())
}

/// What to do with the bytes read from the end of a file of a size.
pub open spec fn tail_step(bytes: Seq<u8>, file_size: u64, size_was_known: bool) -> Result<
    TailView,
    Error,
> {
    if !ends_well(bytes) && size_was_known {
        Ok(TailView::Retry)
    } else if bytes.len() < TAIL_SIZE {
        Err(Error::CorruptFile { reason: Reason::FileTooSmall })
    } else if !ends_well(bytes) {
        Err(Error::CorruptFile { reason: Reason::MagicMismatch })
    } else {
        let length = file_size - position(bytes);
        if length <= bytes.len() {
            Ok(TailView::Message(bytes.skip(bytes.len() - length)))
        } else {
            Ok(TailView::Fetch(position(bytes) as u64, (file_size - PREFETCH_SIZE) as u64))
        }
    }
}

fn tail_bytes(bytes: &Vec<u8>, from: usize) -> (r: Vec<u8>)
    requires
        from <= bytes@.len(),
    ensures
        r@ == bytes@.skip(from as int),
{
    let mut out: Vec<u8> = Vec::new();
    let mut i: usize = from;
    while i < bytes.len()
        invariant
            from <= i <= bytes@.len(),
            out@ == bytes@.subrange(from as int, i as int),
        decreases bytes@.len() - i,
    {
        out.push(bytes[i]);
        assert(bytes@.subrange(from as int, i + 1) =~= bytes@.subrange(
            from as int,
            i as int,
        ).push(bytes@[i as int]));
        i = i + 1;
    }
    assert(out@ =~= bytes@.skip(from as int));
    out
}

/// Decide what to do with the bytes read from the end of a file of a size.
/// Where the bytes end as a file does, the place they name is inside the file,
/// and a message that they do not hold starts before the bytes that were read.
pub fn read_tail(bytes: &Vec<u8>, file_size: u64, size_was_known: bool) -> (r: Result<
    TailStep,
    Error,
>)
    requires
        ends_well(bytes@) ==> 0 <= position(bytes@) <= file_size,
        ends_well(bytes@) && file_size - position(bytes@) > bytes@.len() ==> file_size
            >= PREFETCH_SIZE,
    ensures
        match tail_step(bytes@, file_size, size_was_known) {
            Ok(step) => r is Ok && r->Ok_0@ == step,
            Err(error) => r == Err::<TailStep, Error>(error),
        },
{
    let n: usize = bytes.len();
    if n < TAIL_SIZE {
        return if size_was_known {
            Ok(TailStep::Retry)
        } else {
            Err(Error::CorruptFile { reason: Reason::FileTooSmall })
        };
    }
    if !has_magic(bytes) {
        return if size_was_known {
            Ok(TailStep::Retry)
        } else {
            Err(Error::CorruptFile { reason: Reason::MagicMismatch })
        };
    }
    let start: u64 = message_position(bytes) as u64;
    let length: u64 = file_size - start;
    if length <= n as u64 {
        Ok(TailStep::Message(tail_bytes(bytes, n - length as usize)))
    } else {
        Ok(TailStep::Fetch(start, file_size - PREFETCH_SIZE))
    }
}

/// The message of a file, given it with its length and what follows it.
pub open spec fn unframed(bytes: Seq<u8>) -> Result<Seq<u8>, Error> {
    let recorded = le::from_le(bytes.take(4));
    let message = bytes.subrange(4, bytes.len() - 16);
    if message.len() != recorded {
        Err(
            Error::InvalidInput {
                reason: Reason::MessageLength {
                    expected: recorded as u64,
                    found: message.len() as u64,
                },
            },
        )
    } else {
        Ok(message)
    }
}

/// Take the message out of its frame. The frame alone takes twenty bytes.
pub fn unframe(bytes: &Vec<u8>) -> (r: Result<Vec<u8>, Error>)
    requires
        bytes@.len() >= 20,
    ensures
        match unframed(bytes@) {
            Ok(message) => r is Ok && r->Ok_0@ == message,
            Err(error) => r == Err::<Vec<u8>, Error>(error),
        },
{
    let n: usize = bytes.len();
    let recorded: u32 = read_u32(bytes.as_slice());
    proof {
        le::lemma_from_le_four(bytes@.take(4));
        le::lemma_from_le_bound(bytes@.take(4));
    }
    let found: usize = n - 20;
    if found as u64 != recorded as u64 {
        return Err(
            Error::InvalidInput {
                reason: Reason::MessageLength { expected: recorded as u64, found: found as u64 },
            },
        );
    }
    let mut message = tail_bytes(bytes, 4);
    message.truncate(found);
    assert(message@ =~= bytes@.subrange(4, n - 16));
    Ok(message)
}

/// Append the lowest bytes of a number, the least significant first.
fn push_le(file: &mut Vec<u8>, value: u64, width: usize)
    ensures
        final(file)@ == old(file)@ + le::to_le(value as nat, width as nat),
{
    let ghost before = file@;
    let mut left: u64 = value;
    let mut i: usize = 0;
    assert(before + le::to_le(value as nat, width as nat) =~= file@ + le::to_le(
        left as nat,
        (width - i) as nat,
    ));
    while i < width
        invariant
            i <= width,
            before + le::to_le(value as nat, width as nat) == file@ + le::to_le(
                left as nat,
                (width - i) as nat,
            ),
        decreases width - i,
    {
        let byte: u8 = (left % 256) as u8;
        let ghost so_far = file@;
        file.push(byte);
        proof {
            let rest = le::to_le((left / 256) as nat, (width - i - 1) as nat);
            assert(le::to_le(left as nat, (width - i) as nat) == seq![byte] + rest);
            assert(so_far + (seq![byte] + rest) =~= so_far.push(byte) + rest);
        }
        left = left / 256;
        i = i + 1;
    }
    assert(le::to_le(left as nat, 0) =~= Seq::<u8>::empty());
    assert(file@ + le::to_le(left as nat, 0) =~= file@);
}

/// Append a message to a file, behind its length, and give where that starts.
/// The length takes four bytes.
pub fn write_protobuf(file: &mut Vec<u8>, message: &Vec<u8>) -> (r: u64)
    requires
        message@.len() <= u32::MAX,
    ensures
        r == old(file)@.len(),
        final(file)@ == old(file)@ + le::to_le(message@.len(), 4) + message@,
{
    let start: u64 = file.len() as u64;
    push_le(file, message.len() as u64, 4);
    let ghost before = file@;
    let mut i: usize = 0;
    assert(file@ =~= before + message@.take(0));
    while i < message.len()
        invariant
            i <= message@.len(),
            file@ == before + message@.take(i as int),
        decreases message@.len() - i,
    {
        file.push(message[i]);
        assert(message@.take(i + 1) =~= message@.take(i as int).push(message@[i as int]));
        assert(file@ =~= before + message@.take(i + 1));
        i = i + 1;
    }
    assert(message@.take(message@.len() as int) =~= message@);
    start
}

/// End a file: where its last message starts, the version and the magic number.
pub fn write_magics(file: &mut Vec<u8>, start: u64, major: u16, minor: u16)
    ensures
        final(file)@ == old(file)@ + le::to_le(start as nat, 8) + le::to_le(major as nat, 2)
            + le::to_le(minor as nat, 2) + magic(),
{
    push_le(file, start, 8);
    push_le(file, major as u64, 2);
    push_le(file, minor as u64, 2);
    let ghost before = file@;
    file.push(0x4c);
    file.push(0x41);
    file.push(0x4e);
    file.push(0x43);
    assert(file@ =~= before + magic());
}

/// A message in its frame, starting at a place of its file.
pub open spec fn framed(message: Seq<u8>, start: u64, major: nat, minor: nat) -> Seq<u8> {
    le::to_le(message.len(), 4) + message + le::to_le(start as nat, 8) + le::to_le(major, 2)
        + le::to_le(minor, 2) + magic()
}

/// A message in its frame reads back, whatever stands before it in the file,
/// and a message that is written and ended is a message in its frame.
pub proof fn law_framed_message_reads_back(
    before: Seq<u8>,
    message: Seq<u8>,
    major: nat,
    minor: nat,
)
    requires
        message.len() <= u32::MAX,
        before.len() <= i64::MAX,
        before.len() + message.len() + 20 <= u64::MAX,
    ensures
        ({
            let frame = framed(message, before.len() as u64, major, minor);
            let file = before + frame;
            &&& ends_well(file)
            &&& position(file) == before.len()
            &&& tail_step(file, file.len() as u64, false) == Ok::<TailView, Error>(
                TailView::Message(frame),
            )
            &&& unframed(frame) == Ok::<Seq<u8>, Error>(message)
            &&& file == before + le::to_le(message.len(), 4) + message + le::to_le(before.len(), 8)
                + le::to_le(major, 2) + le::to_le(minor, 2) + magic()
        }),
{
    let start = before.len() as u64;
    let frame = framed(message, start, major, minor);
    let file = before + frame;
    le::lemma_to_le_len(message.len(), 4);
    le::lemma_to_le_len(start as nat, 8);
    le::lemma_to_le_len(major, 2);
    le::lemma_to_le_len(minor, 2);
    assert(frame.len() == message.len() + 20);
    assert(file.skip(file.len() - 4) =~= magic());
    assert(file.subrange(file.len() - 16, file.len() - 8) =~= le::to_le(start as nat, 8));
    assert(le::bound(8) == 0x1_0000_0000_0000_0000) by {
        reveal_with_fuel(le::bound, 9);
    }
    assert(le::bound(4) == 0x1_0000_0000) by {
        reveal_with_fuel(le::bound, 5);
    }
    le::law_le_reads_back(start as nat, 8);
    le::law_le_reads_back(message.len(), 4);
    assert(frame.take(4) =~= le::to_le(message.len(), 4));
    assert(frame.subrange(4, frame.len() - 16) =~= message);
    assert(file.skip(file.len() - frame.len()) =~= frame);
}

// Paths.

/// What `object_store::path::Path::from` makes of a text: the text of the
/// path.
pub uninterp spec fn path_of(text: Seq<char>) -> Seq<char>;

/// `object_store::path::Path::from` splits a text at its delimiters, drops
/// empty segments and encodes what a segment may not hold.
#[verifier::external_body]
fn path_from(text: &str) -> (r: String)
    ensures
        r@ == path_of(text@),
{
    object_store::path::Path::from(text).to_string()
}

/// A path without its last segment; nothing where there is only one.
pub open spec fn parent(path: Seq<char>) -> Seq<char>
    decreases path.len(),
{
    if path.len() == 0 {
        path
    } else if path.last() == '/' {
        path.drop_last()
    } else {
        parent(path.drop_last())
    }
}

/// A path without a delimiter at its end.
pub open spec fn unterminated(path: Seq<char>) -> Seq<char> {
    if path.len() > 0 && path.last() == '/' {
        path.drop_last()
    } else {
        path
    }
}

fn parent_of(path: &String) -> (r: String)
    ensures
        r@ == parent(path@),
{
    let mut n: usize = path.as_str().unicode_len();
    assert(path@.take(n as int) =~= path@);
    while n > 0
        invariant
            n <= path@.len(),
            parent(path@) == parent(path@.take(n as int)),
        decreases n,
    {
        let ghost taken = path@.take(n as int);
        n = n - 1;
        proof {
            assert(taken.drop_last() =~= path@.take(n as int));
            assert(taken.last() == path@[n as int]);
        }
        if path.as_str().get_char(n) == '/' {
            return prefix_of(path, n);
        }
    }
    String::new()
}

fn prefix_of(path: &String, n: usize) -> (r: String)
    requires
        n <= path@.len(),
    ensures
        r@ == path@.take(n as int),
{
    let r = String::from_str(path.as_str().substring_char(0, n));
    assert(path@.subrange(0, n as int) =~= path@.take(n as int));
    r
}

fn without_end(path: &String) -> (r: String)
    ensures
        r@ == unterminated(path@),
{
    let n: usize = path.as_str().unicode_len();
    if n > 0 && path.as_str().get_char(n - 1) == '/' {
        let r = prefix_of(path, n - 1);
        assert(path@.take(n - 1) =~= path@.drop_last());
        r
    } else {
        path.clone()
    }
}

/// The dataset a manifest belongs to, as text: the manifest's directory is
/// directly below it.
pub open spec fn root_text(manifest_path: Seq<char>) -> Seq<char> {
    parent(parent(unterminated(manifest_path)))
}

fn root_text_of(manifest_path: &String) -> (r: String)
    ensures
        r@ == root_text(manifest_path@),
{
    parent_of(&parent_of(&without_end(manifest_path)))
}

/// The dataset a manifest belongs to.
pub fn dataset_root_of_manifest(manifest_path: &String) -> (r: String)
    ensures
        r@ == path_of(root_text(manifest_path@)),
{
    path_from(root_text_of(manifest_path).as_str())
}

/// The text of a child's path below a dataset.
pub open spec fn child_text(root: Seq<char>, relative: Seq<char>) -> Seq<char> {
    if root.len() == 0 {
        relative
    } else {
        root + "/"@ + relative
    }
}

/// The text of a child's path below a dataset. A dataset at the top of its
/// store has an empty root.
pub fn child_path_text(root: &String, relative: &str) -> (r: String)
    ensures
        r@ == child_text(root@, relative@),
{
    if crate::replay::is_empty(root) {
        String::from_str(relative)
    } else {
        root.clone().concat("/").concat(relative)
    }
}

/// Where a child lives in the store.
pub fn child_full_path(root: &String, relative: &str) -> (r: String)
    ensures
        r@ == path_of(child_text(root@, relative@)),
{
    path_from(child_path_text(root, relative).as_str())
}

// Putting a tiered manifest together.

/// Why a child that was read is refused.
pub open spec fn count_fault(reference: RefView, found: nat) -> Option<Reason> {
    if found != reference.fragment_count {
        Some(
            Reason::ChildFragmentCount {
                recorded: reference.fragment_count,
                found: found as u64,
            },
        )
    } else {
        None
    }
}

/// Check that a child holds as many fragments as its reference says.
pub fn verify_child_fragment_count(reference: &FragmentManifestRef, actual: usize) -> (r: Result<
    (),
    Error,
>)
    ensures
        match count_fault(reference@, actual as nat) {
            Some(reason) => r == Err::<(), Error>(Error::CorruptFile { reason }),
            None => r is Ok,
        },
{
    if actual as u64 != reference.fragment_count as u64 {
        return Err(
            Error::CorruptFile {
                reason: Reason::ChildFragmentCount {
                    recorded: reference.fragment_count,
                    found: actual as u64,
                },
            },
        );
    }
    Ok(())
}

/// The fragments of some children, child after child, up to the first child
/// that is refused.
pub open spec fn gathered(references: Seq<RefView>, runs: Seq<Seq<FragmentView>>, n: int) -> Result<
    Seq<FragmentView>,
    Error,
>
    decreases n,
{
    if n <= 0 {
        Ok(Seq::empty())
    } else {
        match gathered(references, runs, n - 1) {
            Err(error) => Err(error),
            Ok(before) => match count_fault(references[n - 1], runs[n - 1].len()) {
                Some(reason) => Err(Error::CorruptFile { reason }),
                None => Ok(before + runs[n - 1]),
            },
        }
    }
}

/// The views of some runs.
pub open spec fn run_views(runs: Seq<Vec<Fragment>>) -> Seq<Seq<FragmentView>> {
    Seq::new(runs.len(), |i: int| views::all(runs[i]@))
}

/// Every fragment of a tiered manifest: those of its children, in their
/// order, and behind them those the root keeps itself.
pub open spec fn materialized(
    references: Seq<RefView>,
    runs: Seq<Seq<FragmentView>>,
    tail: Seq<FragmentView>,
) -> Result<Seq<FragmentView>, Error> {
    match gathered(references, runs, references.len() as int) {
        Err(error) => Err(error),
        Ok(sealed) => Ok(sealed + tail),
    }
}

proof fn lemma_gathered_err(
    references: Seq<RefView>,
    runs: Seq<Seq<FragmentView>>,
    n: int,
    m: int,
)
    requires
        0 <= n <= m,
        gathered(references, runs, n) is Err,
    ensures
        gathered(references, runs, m) == gathered(references, runs, n),
    decreases m - n,
{
    if n < m {
        lemma_gathered_err(references, runs, n, m - 1);
    }
}

/// Put the fragments of sealed children, as they were read, in front of those
/// the root keeps itself.
pub fn materialize_child_manifests(
    references: &Vec<FragmentManifestRef>,
    runs: Vec<Vec<Fragment>>,
    tail: &Vec<Fragment>,
) -> (r: Result<Vec<Fragment>, Error>)
    requires
        runs@.len() == references@.len(),
    ensures
        match materialized(
            views::all(references@),
            run_views(runs@),
            views::all(tail@),
        ) {
            Ok(fragments) => r is Ok && views::all(r->Ok_0@) == fragments,
            Err(error) => r == Err::<Vec<Fragment>, Error>(error),
        },
{
    let ghost refs = views::all(references@);
    let ghost held = run_views(runs@);
    let mut all: Vec<Fragment> = Vec::new();
    let mut i: usize = 0;
    while i < references.len()
        invariant
            i <= references@.len() == runs@.len(),
            refs == views::all(references@),
            held == run_views(runs@),
            gathered(refs, held, i as int) == Ok::<Seq<FragmentView>, Error>(
                views::all(all@),
            ),
        decreases references@.len() - i,
    {
        proof {
            assert(refs[i as int] == references@[i as int]@);
            assert(held[i as int] == views::all(runs@[i as int]@));
        }
        match verify_child_fragment_count(&references[i], runs[i].len()) {
            Ok(()) => {},
            Err(error) => {
                proof {
                    lemma_gathered_err(refs, held, i + 1, refs.len() as int);
                }
                return Err(error);
            },
        }
        let mut run = clone_fragments(&runs[i]);
        all.append(&mut run);
        i = i + 1;
    }
    let mut rest = clone_fragments(tail);
    all.append(&mut rest);
    Ok(all)
}

/// A tiered layout whose children are written as they are and read back gives
/// every fragment in the order it was appended.
pub proof fn law_tiered_manifest_reads_back(layout: LayoutView)
    requires
        layout.wf(),
        layout.buffer_cap <= u32::MAX,
    ensures
        materialized(
            tiered::references(layout.children),
            Seq::new(layout.children.len(), |i: int| layout.children[i].fragments),
            layout.buffer,
        ) == Ok::<Seq<FragmentView>, Error>(layout.fragments()),
{
    lemma_gathered(layout, layout.children.len() as int);
    assert(layout.children.take(layout.children.len() as int) =~= layout.children);
}

proof fn lemma_gathered(layout: LayoutView, n: int)
    requires
        layout.wf(),
        layout.buffer_cap <= u32::MAX,
        0 <= n <= layout.children.len(),
    ensures
        gathered(
            tiered::references(layout.children),
            Seq::new(layout.children.len(), |i: int| layout.children[i].fragments),
            n,
        ) == Ok::<Seq<FragmentView>, Error>(tiered::flattened(layout.children.take(n))),
    decreases n,
{
    if n == 0 {
        assert(layout.children.take(0) =~= Seq::empty());
    } else {
        lemma_gathered(layout, n - 1);
        assert(tiered::well_sealed(
            layout.children[n - 1],
            layout.children.take(n - 1),
            layout.buffer_cap,
            layout.version,
        ));
        assert(layout.children.take(n).drop_last() =~= layout.children.take(n - 1));
        assert(layout.children.take(n).last() == layout.children[n - 1]);
    }
}

// Dictionary values of a legacy manifest.

/// What the values of a dictionary column are.
#[derive(Clone, Copy, Debug, PartialEq, Eq)]
pub enum ValueKind {
    Numeric,
    BinaryLike,
    Other,
}

/// What is known of a field before its manifest is written.
#[derive(Clone, Copy, Debug, PartialEq, Eq)]
pub struct DictionaryField {
    pub field_id: i32,
    pub is_dictionary: bool,
    pub has_info: bool,
    /// Unset where there are no values.
    pub values: Option<ValueKind>,
}

/// How the values of a dictionary are written.
#[derive(Clone, Copy, Debug, PartialEq, Eq)]
pub enum DictionaryEncoding {
    Plain,
    Binary,
}

/// How the values of a field's dictionary are written, or why they cannot be.
/// Only legacy storage keeps them with the manifest.
pub open spec fn dictionary_plan(field: DictionaryField, legacy: bool) -> Result<
    Option<DictionaryEncoding>,
    Error,
> {
    if !field.is_dictionary || !legacy {
        Ok(None)
    } else if !field.has_info {
        Err(
            Error::Io {
                reason: Reason::DictionaryInfoMissing { field_id: field.field_id },
            },
        )
    } else {
        match field.values {
            None => Err(
                Error::Io {
                    reason: Reason::DictionaryValuesMissing { field_id: field.field_id },
                },
            ),
            Some(ValueKind::Numeric) => Ok(Some(DictionaryEncoding::Plain)),
            Some(ValueKind::BinaryLike) => Ok(Some(DictionaryEncoding::Binary)),
            Some(ValueKind::Other) => Err(
                Error::Schema {
                    reason: Reason::DictionaryValueType { field_id: field.field_id },
                },
            ),
        }
    }
}

/// Decide how the values of a field's dictionary are written.
pub fn plan_dictionary(field: DictionaryField, legacy: bool) -> (r: Result<
    Option<DictionaryEncoding>,
    Error,
>)
    ensures
        r == dictionary_plan(field, legacy),
{
    if !field.is_dictionary || !legacy {
        return Ok(None);
    }
    if !field.has_info {
        return Err(
            Error::Io {
                reason: Reason::DictionaryInfoMissing { field_id: field.field_id },
            },
        );
    }
    match field.values {
        None => Err(
            Error::Io {
                reason: Reason::DictionaryValuesMissing { field_id: field.field_id },
            },
        ),
        Some(ValueKind::Numeric) => Ok(Some(DictionaryEncoding::Plain)),
        Some(ValueKind::BinaryLike) => Ok(Some(DictionaryEncoding::Binary)),
        Some(ValueKind::Other) => Err(
            Error::Schema {
                reason: Reason::DictionaryValueType { field_id: field.field_id },
            },
        ),
    }
}

/// A file ends with the place of its message in eight bytes, the version in two
/// and two, and the magic number; in front of the message stand its length in
/// four bytes. All numbers have their least significant byte first.
pub proof fn law_frame_is_laid_out(message: Seq<u8>, start: u64, major: nat, minor: nat)
    requires
        message.len() <= u32::MAX,
        major <= u16::MAX,
        minor <= u16::MAX,
    ensures
        ({
            let frame = framed(message, start, major, minor);
            let n = frame.len() as int;
            &&& n == message.len() + 20
            &&& frame.subrange(4, n - 16) == message
            &&& frame[0] + 0x100 * frame[1] + 0x1_0000 * frame[2] + 0x100_0000 * frame[3]
                == message.len()
            &&& frame[n - 8] + 0x100 * frame[n - 7] == major
            &&& frame[n - 6] + 0x100 * frame[n - 5] == minor
            &&& frame[n - 4] == 'L' as u8 && frame[n - 3] == 'A' as u8 && frame[n - 2] == 'N' as u8
                && frame[n - 1] == 'C' as u8
        }),
{
    let frame = framed(message, start, major, minor);
    let a = le::to_le(message.len(), 4);
    let c = le::to_le(major, 2);
    let d = le::to_le(minor, 2);
    le::lemma_to_le_len(message.len(), 4);
    le::lemma_to_le_len(start as nat, 8);
    le::lemma_to_le_len(major, 2);
    le::lemma_to_le_len(minor, 2);
    let n = frame.len() as int;
    assert(frame.subrange(4, n - 16) =~= message);
    assert(frame[0] == a[0] && frame[1] == a[1] && frame[2] == a[2] && frame[3] == a[3]);
    assert(frame[n - 8] == c[0] && frame[n - 7] == c[1]);
    assert(frame[n - 6] == d[0] && frame[n - 5] == d[1]);
    assert(magic()[0] == 0x4c && magic()[1] == 0x41 && magic()[2] == 0x4e && magic()[3] == 0x43);
    assert(frame[n - 4] == magic()[0] && frame[n - 3] == magic()[1] && frame[n - 2] == magic()[2]
        && frame[n - 1] == magic()[3]);
    reveal_with_fuel(le::to_le, 5);
    let len = message.len();
    assert(a[0] == (len % 256) as u8);
    assert(a[1] == (len / 256 % 256) as u8);
    assert(a[2] == (len / 256 / 256 % 256) as u8);
    assert(a[3] == (len / 256 / 256 / 256 % 256) as u8);
    assert(c[0] == (major % 256) as u8 && c[1] == (major / 256 % 256) as u8);
    assert(d[0] == (minor % 256) as u8 && d[1] == (minor / 256 % 256) as u8);
}

/// What was read from the end of a file is used where it ends as a file does:
/// as the message with its frame where it reaches back to it, and otherwise the
/// rest of the message is asked for, up to the bytes that were read. Where it
/// does not end so, a size that was only remembered is asked for again, and
/// otherwise the file is refused.
pub proof fn law_file_end_is_used_where_it_is_whole(
    bytes: Seq<u8>,
    file_size: u64,
    size_was_known: bool,
)
    requires
        ends_well(bytes) ==> 0 <= position(bytes) <= file_size,
        ends_well(bytes) && file_size - position(bytes) > bytes.len() ==> file_size >= 65536,
    ensures
        ({
            let n = bytes.len() as int;
            let whole = n >= 16 && bytes[n - 4] == 0x4c && bytes[n - 3] == 0x41 && bytes[n - 2]
                == 0x4e && bytes[n - 1] == 0x43;
            match tail_step(bytes, file_size, size_was_known) {
                Ok(TailView::Retry) => !whole && size_was_known,
                Ok(TailView::Message(message)) => {
                    &&& whole
                    &&& message.len() == file_size - position(bytes)
                    &&& message.len() <= n
                    &&& message == bytes.skip(n - message.len())
                },
                Ok(TailView::Fetch(from, to)) => {
                    &&& whole
                    &&& from == position(bytes)
                    &&& to == file_size - 65536
                    &&& file_size - from > n
                },
                Err(Error::CorruptFile { reason }) => {
                    &&& !whole && !size_was_known
                    &&& reason == if n < 16 {
                        Reason::FileTooSmall
                    } else {
                        Reason::MagicMismatch
                    }
                },
                Err(_) => false,
            }
        }),
{
    let n = bytes.len() as int;
    if n >= 16 {
        let end = bytes.skip(n - 4);
        assert(end[0] == bytes[n - 4] && end[1] == bytes[n - 3] && end[2] == bytes[n - 2] && end[3]
            == bytes[n - 1]);
        assert(magic()[0] == 0x4c && magic()[1] == 0x41 && magic()[2] == 0x4e && magic()[3]
            == 0x43);
        if end[0] == 0x4c && end[1] == 0x41 && end[2] == 0x4e && end[3] == 0x43 {
            assert(end =~= magic());
        }
    }
}

/// A message is taken out of its frame exactly where its length is the one that
/// is recorded in front of it.
pub proof fn law_message_has_its_recorded_length(bytes: Seq<u8>)
    requires
        bytes.len() >= 20,
    ensures
        unframed(bytes) is Ok == (bytes.len() - 20 == bytes[0] + 0x100 * bytes[1] + 0x1_0000
            * bytes[2] + 0x100_0000 * bytes[3]),
        unframed(bytes) matches Ok(message) ==> message == bytes.subrange(4, bytes.len() - 16),
{
    let four = bytes.take(4);
    le::lemma_from_le_four(four);
}

/// The fragments of a tiered manifest are those of its children, one after the
/// other, and then the root's own. It is refused exactly where some child does
/// not hold as many as its reference says.
pub proof fn law_manifest_is_its_children_and_its_tail(
    references: Seq<RefView>,
    runs: Seq<Seq<FragmentView>>,
    tail: Seq<FragmentView>,
)
    requires
        runs.len() == references.len(),
    ensures
        ({
            let r = materialized(references, runs, tail);
            &&& r is Ok == forall|i: int|
                0 <= i < runs.len() ==> (#[trigger] runs[i]).len() == references[i].fragment_count
            &&& r matches Ok(all) ==> all == concatenated(runs) + tail
        }),
{
    lemma_gathered_all(references, runs, references.len() as int);
    assert(runs.take(runs.len() as int) =~= runs);
    if forall|i: int|
        0 <= i < runs.len() ==> (#[trigger] runs[i]).len() == references[i].fragment_count {
        assert(counts_agree(references, runs, runs.len() as int));
    }
}

/// Some runs one after the other.
pub open spec fn concatenated(runs: Seq<Seq<FragmentView>>) -> Seq<FragmentView>
    decreases runs.len(),
{
    if runs.len() == 0 {
        Seq::empty()
    } else {
        concatenated(runs.drop_last()) + runs.last()
    }
}

spec fn counts_agree(references: Seq<RefView>, runs: Seq<Seq<FragmentView>>, n: int) -> bool {
    forall|i: int| 0 <= i < n ==> (#[trigger] runs[i]).len() == references[i].fragment_count
}

proof fn lemma_gathered_all(references: Seq<RefView>, runs: Seq<Seq<FragmentView>>, n: int)
    requires
        0 <= n <= runs.len() == references.len(),
    ensures
        gathered(references, runs, n) is Ok == counts_agree(references, runs, n),
        gathered(references, runs, n) matches Ok(all) ==> all == concatenated(runs.take(n)),
    decreases n,
{
    if n > 0 {
        lemma_gathered_all(references, runs, n - 1);
        assert(runs.take(n).drop_last() =~= runs.take(n - 1));
        assert(runs.take(n).last() == runs[n - 1]);
        if counts_agree(references, runs, n) {
            assert(counts_agree(references, runs, n - 1));
            assert(runs[n - 1].len() == references[n - 1].fragment_count);
        }
    } else {
        assert(runs.take(0) =~= Seq::<Seq<FragmentView>>::empty());
    }
}

/// The values of a dictionary are written with the manifest exactly where the
/// field has a dictionary, the storage is legacy, and the values are there and
/// are numbers or byte strings. Elsewhere nothing is written, or it is said what
/// is missing.
pub proof fn law_dictionary_is_written_for_legacy_storage(field: DictionaryField, legacy: bool)
    ensures
        dictionary_plan(field, legacy) == Ok::<Option<DictionaryEncoding>, Error>(None) <==> !(
        field.is_dictionary && legacy),
        field.is_dictionary && legacy ==> (dictionary_plan(field, legacy) is Ok <==> field.has_info
            && (field.values == Some(ValueKind::Numeric) || field.values == Some(
            ValueKind::BinaryLike,
        ))),
        dictionary_plan(field, legacy) == Ok::<Option<DictionaryEncoding>, Error>(
            Some(DictionaryEncoding::Plain),
        ) ==> field.values == Some(ValueKind::Numeric),
        dictionary_plan(field, legacy) == Ok::<Option<DictionaryEncoding>, Error>(
            Some(DictionaryEncoding::Binary),
        ) ==> field.values == Some(ValueKind::BinaryLike),
        match dictionary_plan(field, legacy) {
            Err(Error::Io { reason: Reason::DictionaryInfoMissing { field_id } }) => field_id
                == field.field_id && !field.has_info,
            Err(Error::Io { reason: Reason::DictionaryValuesMissing { field_id } }) => field_id
                == field.field_id && field.has_info && field.values is None,
            Err(Error::Schema { reason: Reason::DictionaryValueType { field_id } }) => field_id
                == field.field_id && field.has_info && field.values == Some(ValueKind::Other),
            Err(_) => false,
            Ok(_) => true,
        },
{
}

proof fn lemma_parent(before: Seq<char>, name: Seq<char>)
    requires
        !name.contains('/'),
    ensures
        parent(before + seq!['/'] + name) == before,
    decreases name.len(),
{
    let path = before + seq!['/'] + name;
    if name.len() == 0 {
        assert(path.last() == '/');
        assert(path.drop_last() =~= before);
    } else {
        let shorter = name.drop_last();
        assert(path.last() == name.last());
        assert(name[name.len() - 1] == name.last());
        assert(name.contains(name.last()));
        assert(path.drop_last() =~= before + seq!['/'] + shorter);
        if shorter.contains('/') {
            let k = choose|k: int| 0 <= k < shorter.len() && shorter[k] == '/';
            assert(name[k] == '/');
        }
        lemma_parent(before, shorter);
    }
}

/// The dataset of a manifest is two levels above it: what stands before the
/// manifest's directory and its name.
pub proof fn law_dataset_is_two_levels_above(
    root: Seq<char>,
    directory: Seq<char>,
    name: Seq<char>,
)
    requires
        !directory.contains('/'),
        !name.contains('/'),
        name.len() > 0,
    ensures
        root_text(root + seq!['/'] + directory + seq!['/'] + name) == root,
        root_text(directory + seq!['/'] + name) == Seq::<char>::empty(),
{
    let path = root + seq!['/'] + directory + seq!['/'] + name;
    assert(path.last() == name.last());
    assert(name.contains(name[name.len() - 1]));
    lemma_parent(root + seq!['/'] + directory, name);
    lemma_parent(root, directory);
    let short = directory + seq!['/'] + name;
    assert(short.last() == name.last());
    lemma_parent(directory, name);
    lemma_topmost(directory);
}

proof fn lemma_topmost(name: Seq<char>)
    requires
        !name.contains('/'),
    ensures
        parent(name) == Seq::<char>::empty(),
    decreases name.len(),
{
    if name.len() > 0 {
        assert(name.contains(name[name.len() - 1]));
        let shorter = name.drop_last();
        if shorter.contains('/') {
            let k = choose|k: int| 0 <= k < shorter.len() && shorter[k] == '/';
            assert(name[k] == '/');
        }
        lemma_topmost(shorter);
    } else {
        assert(name =~= Seq::<char>::empty());
    }
}

/// A child of a dataset lies below the dataset's root; at the top of a store it
/// lies where its own path says.
pub proof fn law_child_lies_below_its_dataset(root: Seq<char>, relative: Seq<char>)
    ensures
        root.len() == 0 ==> child_text(root, relative) == relative,
        root.len() > 0 ==> {
            let path = child_text(root, relative);
            &&& path.len() == root.len() + 1 + relative.len()
            &&& path.take(root.len() as int) == root
            &&& path[root.len() as int] == '/'
            &&& path.skip(root.len() as int + 1) == relative
        },
{
    reveal_strlit("/");
    if root.len() > 0 {
        let path = child_text(root, relative);
        assert(path.take(root.len() as int) =~= root);
        assert(path.skip(root.len() as int + 1) =~= relative);
    }
}

} // verus!
