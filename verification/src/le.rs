//! Numbers as bytes, the least significant byte first.

use vstd::prelude::*;

verus! {

/// A number in a given count of bytes.
pub open spec fn to_le(value: nat, width: nat) -> Seq<u8>
    decreases width,
{
    if width == 0 {
        Seq::empty()
    } else {
        seq![(value % 0x100) as u8] + to_le(value / 0x100, (width - 1) as nat)
    }
}

/// The number some bytes stand for.
pub open spec fn from_le(bytes: Seq<u8>) -> nat
    decreases bytes.len(),
{
    if bytes.len() == 0 {
        0
    } else {
        bytes[0] as nat + 0x100 * from_le(bytes.skip(1))
    }
}

/// One more than the largest number of a count of bytes.
pub open spec fn bound(width: nat) -> nat
    decreases width,
{
    if width == 0 {
        1
    } else {
        0x100 * bound((width - 1) as nat)
    }
}

pub proof fn lemma_to_le_len(value: nat, width: nat)
    ensures
        to_le(value, width).len() == width,
    decreases width,
{
    if width > 0 {
        lemma_to_le_len(value / 0x100, (width - 1) as nat);
    }
}

/// A number that fits reads back from its bytes.
pub proof fn law_le_reads_back(value: nat, width: nat)
    requires
        value < bound(width),
    ensures
        from_le(to_le(value, width)) == value,
    decreases width,
{
    lemma_to_le_len(value, width);
    if width > 0 {
        let rest = to_le(value / 0x100, (width - 1) as nat);
        assert(to_le(value, width).skip(1) =~= rest);
        assert(value / 0x100 < bound((width - 1) as nat));
        law_le_reads_back(value / 0x100, (width - 1) as nat);
    }
}

/// Bytes stand for a number that fits in their count.
pub proof fn lemma_from_le_bound(bytes: Seq<u8>)
    ensures
        from_le(bytes) < bound(bytes.len()),
    decreases bytes.len(),
{
    if bytes.len() > 0 {
        lemma_from_le_bound(bytes.skip(1));
    }
}

/// Four bytes.
pub proof fn lemma_from_le_four(bytes: Seq<u8>)
    requires
        bytes.len() == 4,
    ensures
        from_le(bytes) == bytes[0] + 0x100 * bytes[1] + 0x1_0000 * bytes[2] + 0x100_0000
            * bytes[3],
        bound(4) == 0x1_0000_0000,
{
    reveal_with_fuel(from_le, 5);
    reveal_with_fuel(bound, 5);
    assert(bytes.skip(1).skip(1).skip(1).skip(1).len() == 0);
}

pub proof fn lemma_to_le_four(value: nat)
    ensures
        to_le(value, 4) == seq![
            (value % 0x100) as u8,
            (value / 0x100 % 0x100) as u8,
            (value / 0x100 / 0x100 % 0x100) as u8,
            (value / 0x100 / 0x100 / 0x100 % 0x100) as u8,
        ],
{
    reveal_with_fuel(to_le, 5);
    assert(to_le(value, 4) =~= seq![
        (value % 0x100) as u8,
        (value / 0x100 % 0x100) as u8,
        (value / 0x100 / 0x100 % 0x100) as u8,
        (value / 0x100 / 0x100 / 0x100 % 0x100) as u8,
    ]);
}

// Signed numbers of four bytes.

/// A signed number in two's complement.
pub open spec fn complement(value: i32) -> nat {
    if value < 0 {
        (value + 0x1_0000_0000) as nat
    } else {
        value as nat
    }
}

/// The signed number that a number in two's complement stands for.
pub open spec fn uncomplement(value: nat) -> i32 {
    if value >= 0x8000_0000 {
        (value - 0x1_0000_0000) as i32
    } else {
        value as i32
    }
}

/// Numbers one after another, four bytes each.
pub open spec fn i32_bytes(values: Seq<i32>) -> Seq<u8>
    decreases values.len(),
{
    if values.len() == 0 {
        Seq::empty()
    } else {
        i32_bytes(values.drop_last()) + to_le(complement(values.last()), 4)
    }
}

/// The numbers that bytes stand for, four bytes each.
pub open spec fn i32_values(bytes: Seq<u8>) -> Seq<i32> {
    Seq::new(
        bytes.len() / 4,
        |i: int| uncomplement(from_le(bytes.subrange(4 * i, 4 * i + 4))),
    )
}

pub proof fn lemma_i32_bytes_len(values: Seq<i32>)
    ensures
        i32_bytes(values).len() == 4 * values.len(),
    decreases values.len(),
{
    if values.len() > 0 {
        lemma_i32_bytes_len(values.drop_last());
        lemma_to_le_len(complement(values.last()), 4);
    }
}

/// Numbers read back from their bytes.
pub proof fn law_i32_values_read_back(values: Seq<i32>)
    ensures
        i32_values(i32_bytes(values)) == values,
    decreases values.len(),
{
    lemma_i32_bytes_len(values);
    let bytes = i32_bytes(values);
    if values.len() > 0 {
        let n = values.len() - 1;
        let rest = values.drop_last();
        let before = i32_bytes(rest);
        let last = to_le(complement(values.last()), 4);
        law_i32_values_read_back(rest);
        lemma_i32_bytes_len(rest);
        lemma_to_le_len(complement(values.last()), 4);
        assert forall|i: int| 0 <= i < values.len() implies #[trigger] i32_values(bytes)[i]
            == values[i] by {
            if i < n {
                assert(bytes.subrange(4 * i, 4 * i + 4) =~= before.subrange(4 * i, 4 * i + 4));
                assert(i32_values(before)[i] == rest[i]);
            } else {
                assert(bytes.subrange(4 * i, 4 * i + 4) =~= last);
                lemma_from_le_four(last);
                law_le_reads_back(complement(values.last()), 4);
            }
        }
    }
    assert(i32_values(bytes) =~= values);
}

/// Append numbers to bytes, four bytes each.
pub fn push_i32s(out: &mut Vec<u8>, values: &Vec<i32>)
    ensures
        final(out)@ == old(out)@ + i32_bytes(values@),
{
    let ghost before = out@;
    let mut i: usize = 0;
    assert(out@ =~= before + i32_bytes(values@.take(0)));
    while i < values.len()
        invariant
            i <= values@.len(),
            out@ == before + i32_bytes(values@.take(i as int)),
        decreases values@.len() - i,
    {
        let value: i32 = values[i];
        let number: u32 = if value < 0 {
            (value as i64 + 0x1_0000_0000) as u32
        } else {
            value as u32
        };
        let ghost held = out@;
        out.push((number % 0x100) as u8);
        out.push((number / 0x100 % 0x100) as u8);
        out.push((number / 0x100 / 0x100 % 0x100) as u8);
        out.push((number / 0x100 / 0x100 / 0x100 % 0x100) as u8);
        proof {
            assert(number == complement(value));
            lemma_to_le_four(number as nat);
            let taken = values@.take(i + 1);
            assert(taken.drop_last() =~= values@.take(i as int));
            assert(taken.last() == value);
            assert(out@ =~= held + to_le(number as nat, 4));
            assert(out@ =~= before + i32_bytes(taken));
        }
        i = i + 1;
    }
    assert(values@.take(values@.len() as int) =~= values@);
}

/// Read numbers from bytes, four bytes each.
pub fn read_i32s(bytes: &Vec<u8>) -> (r: Vec<i32>)
    requires
        bytes@.len() % 4 == 0,
    ensures
        r@ == i32_values(bytes@),
{
    let mut out: Vec<i32> = Vec::new();
    let mut i: usize = 0;
    let len: usize = bytes.len();
    let n: usize = len / 4;
    while i < n
        invariant
            i <= n,
            len == bytes@.len(),
            n == len / 4,
            bytes@.len() % 4 == 0,
            out@ == i32_values(bytes@).take(i as int),
        decreases n - i,
    {
        let ghost four = bytes@.subrange(4 * i, 4 * i + 4);
        let number: u32 = bytes[4 * i] as u32 + 0x100 * (bytes[4 * i + 1] as u32) + 0x1_0000 * (
        bytes[4 * i + 2] as u32) + 0x100_0000 * (bytes[4 * i + 3] as u32);
        proof {
            lemma_from_le_four(four);
            assert(number == from_le(four));
        }
        let value: i32 = if number >= 0x8000_0000 {
            (number as i64 - 0x1_0000_0000) as i32
        } else {
            number as i32
        };
        out.push(value);
        i = i + 1;
        assert(out@ =~= i32_values(bytes@).take(i as int));
    }
    assert(out@ =~= i32_values(bytes@));
    out
}

} // verus!
