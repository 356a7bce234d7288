//! Fixed-width big-endian and little-endian integers as byte sequences.

use vstd::prelude::*;

verus! {

/// `256` to the power `width`: the number of values that fit in `width` bytes.
pub open spec fn byte_power(width: nat) -> nat
    decreases width,
{
    if width == 0 {
        1
    } else {
        256 * byte_power((width - 1) as nat)
    }
}

/// The natural number that a byte sequence spells, most significant byte first.
pub open spec fn be_value(bytes: Seq<u8>) -> nat
    decreases bytes.len(),
{
    if bytes.len() == 0 {
        0
    } else {
        be_value(bytes.drop_last()) * 256 + bytes.last() as nat
    }
}

/// The `width` low bytes of `value`, most significant byte first.
pub open spec fn be_bytes(value: nat, width: nat) -> Seq<u8>
    decreases width,
{
    if width == 0 {
        Seq::empty()
    } else {
        be_bytes(value / 256, (width - 1) as nat).push((value % 256) as u8)
    }
}

/// The natural number that a byte sequence spells, least significant byte first.
pub open spec fn le_value(bytes: Seq<u8>) -> nat {
    be_value(bytes.reverse())
}

/// The `width` low bytes of `value`, least significant byte first.
pub open spec fn le_bytes(value: nat, width: nat) -> Seq<u8> {
    be_bytes(value, width).reverse()
}

/// Two's complement of a signed 64-bit value as a natural number.
pub open spec fn twos_complement_64(value: i64) -> nat {
    if value >= 0 {
        value as nat
    } else {
        (value + 0x1_0000_0000_0000_0000) as nat
    }
}

pub proof fn lemma_byte_powers()
    ensures
        byte_power(1) == 0x100,
        byte_power(2) == 0x1_0000,
        byte_power(4) == 0x1_0000_0000,
        byte_power(8) == 0x1_0000_0000_0000_0000,
        byte_power(16) == 0x1_0000_0000_0000_0000_0000_0000_0000_0000,
{
    reveal_with_fuel(byte_power, 17);
}

pub proof fn lemma_byte_power_monotonic(small: nat, large: nat)
    requires
        small <= large,
    ensures
        byte_power(small) <= byte_power(large),
        0 < byte_power(small),
    decreases large,
{
    if small < large {
        lemma_byte_power_monotonic(small, (large - 1) as nat);
    } else if small > 0 {
        lemma_byte_power_monotonic((small - 1) as nat, (small - 1) as nat);
    }
}

pub proof fn lemma_be_bytes_len(value: nat, width: nat)
    ensures
        be_bytes(value, width).len() == width,
    decreases width,
{
    if width > 0 {
        lemma_be_bytes_len(value / 256, (width - 1) as nat);
    }
}

/// Reading back a fixed-width spelling gives the value that was written.
pub proof fn lemma_be_round_trip(value: nat, width: nat)
    requires
        value < byte_power(width),
    ensures
        be_value(be_bytes(value, width)) == value,
    decreases width,
{
    if width > 0 {
        assert(value / 256 < byte_power((width - 1) as nat)) by (nonlinear_arith)
            requires
                value < 256 * byte_power((width - 1) as nat),
        ;
        lemma_be_round_trip(value / 256, (width - 1) as nat);
        let head = be_bytes(value / 256, (width - 1) as nat);
        assert(be_bytes(value, width).drop_last() =~= head);
    }
}

pub proof fn lemma_be_value_bound(bytes: Seq<u8>)
    ensures
        be_value(bytes) < byte_power(bytes.len()),
    decreases bytes.len(),
{
    if bytes.len() > 0 {
        lemma_be_value_bound(bytes.drop_last());
    }
}

/// Every byte sequence is the fixed-width spelling of the value it spells.
pub proof fn lemma_be_bytes_of_value(bytes: Seq<u8>)
    ensures
        be_bytes(be_value(bytes), bytes.len()) == bytes,
    decreases bytes.len(),
{
    if bytes.len() > 0 {
        let head = bytes.drop_last();
        lemma_be_bytes_of_value(head);
        let value = be_value(bytes);
        assert(value / 256 == be_value(head) && value % 256 == bytes.last());
        assert(be_bytes(value, bytes.len()) =~= head.push(bytes.last()));
    } else {
        assert(be_bytes(be_value(bytes), 0) =~= bytes);
    }
}

/// Appends the `width` low bytes of `value`, most significant byte first.
pub(crate) fn append_be(output: &mut Vec<u8>, value: u128, width: usize)
    ensures
        final(output)@ == old(output)@ + be_bytes(value as nat, width as nat),
    decreases width,
{
    if width > 0 {
        append_be(output, value / 256, width - 1);
        output.push((value % 256) as u8);
    }
    assert(output@ =~= old(output)@ + be_bytes(value as nat, width as nat));
}

/// Appends the `width` low bytes of `value`, least significant byte first.
pub(crate) fn append_le(output: &mut Vec<u8>, value: u128, width: usize)
    ensures
        final(output)@ == old(output)@ + le_bytes(value as nat, width as nat),
    decreases width,
{
    let ghost start = output@;
    if width > 0 {
        output.push((value % 256) as u8);
        append_le(output, value / 256, width - 1);
        proof {
            let head = be_bytes(value as nat / 256, (width - 1) as nat);
            assert(be_bytes(value as nat, width as nat).reverse() =~= seq![(value % 256) as u8]
                + head.reverse());
            assert(start.push((value % 256) as u8) + head.reverse() =~= start + (
            seq![(value % 256) as u8] + head.reverse()));
        }
    } else {
        assert(output@ =~= start + le_bytes(value as nat, width as nat));
    }
}

/// Reads at most eight bytes as a big-endian integer.
pub(crate) fn read_be(bytes: &[u8]) -> (value: u64)
    requires
        bytes@.len() <= 8,
    ensures
        value == be_value(bytes@),
{
    let mut value: u64 = 0;
    let mut index: usize = 0;
    proof {
        assert(bytes@.take(0) =~= Seq::<u8>::empty());
    }
    while index < bytes.len()
        invariant
            bytes@.len() <= 8,
            index <= bytes@.len(),
            value == be_value(bytes@.take(index as int)),
        decreases bytes@.len() - index,
    {
        proof {
            let next = bytes@.take(index + 1);
            assert(next.drop_last() =~= bytes@.take(index as int));
            lemma_be_value_bound(next);
            lemma_byte_power_monotonic(next.len(), 8);
            lemma_byte_powers();
        }
        value = value * 256 + bytes[index] as u64;
        index = index + 1;
    }
    assert(bytes@.take(index as int) =~= bytes@);
    value
}

/// Reads at most eight bytes as a little-endian integer.
pub(crate) fn read_le(bytes: &[u8]) -> (value: u64)
    requires
        bytes@.len() <= 8,
    ensures
        value == le_value(bytes@),
{
    let mut value: u64 = 0;
    let mut index: usize = bytes.len();
    proof {
        assert(bytes@.reverse().take(0) =~= Seq::<u8>::empty());
    }
    while index > 0
        invariant
            bytes@.len() <= 8,
            index <= bytes@.len(),
            value == be_value(bytes@.reverse().take(bytes@.len() - index)),
        decreases index,
    {
        proof {
            let next = bytes@.reverse().take(bytes@.len() - index + 1);
            assert(next.drop_last() =~= bytes@.reverse().take(bytes@.len() - index));
            lemma_be_value_bound(next);
            lemma_byte_power_monotonic(next.len(), 8);
            lemma_byte_powers();
        }
        index = index - 1;
        value = value * 256 + bytes[index] as u64;
    }
    assert(bytes@.reverse().take(bytes@.len() as int) =~= bytes@.reverse());
    value
}

/// Two's complement image of a signed 64-bit value.
pub(crate) fn to_twos_complement_64(value: i64) -> (image: u64)
    ensures
        image == twos_complement_64(value),
{
    if value >= 0 {
        value as u64
    } else {
        (value as i128 + 0x1_0000_0000_0000_0000i128) as u64
    }
}

/// Whether two byte sequences are equal.
pub(crate) fn same_bytes(left: &[u8], right: &[u8]) -> (same: bool)
    ensures
        same == (left@ == right@),
{
    if left.len() != right.len() {
        return false;
    }
    let mut index: usize = 0;
    while index < left.len()
        invariant
            left@.len() == right@.len(),
            index <= left@.len(),
            left@.take(index as int) == right@.take(index as int),
        decreases left@.len() - index,
    {
        if left[index] != right[index] {
            return false;
        }
        assert(left@.take(index + 1) =~= left@.take(index as int).push(left@[index as int]));
        assert(right@.take(index + 1) =~= right@.take(index as int).push(right@[index as int]));
        index = index + 1;
    }
    assert(left@.take(index as int) =~= left@);
    assert(right@.take(index as int) =~= right@);
    true
}

/// A copy of a byte slice.
pub(crate) fn copy_bytes(bytes: &[u8]) -> (copy: Vec<u8>)
    ensures
        copy@ == bytes@,
{
    vstd::slice::slice_to_vec(bytes)
}

/// The thirty-two bytes of a slice of that length.
pub(crate) fn to_array_32(bytes: &[u8]) -> (array: [u8; 32])
    requires
        bytes@.len() == 32,
    ensures
        array@ == bytes@,
{
    let mut array: [u8; 32] = [0; 32];
    let mut index: usize = 0;
    while index < 32
        invariant
            bytes@.len() == 32,
            index <= 32,
            array@.len() == 32,
            forall|i: int| 0 <= i < index ==> array@[i] == bytes@[i],
        decreases 32 - index,
    {
        array[index] = bytes[index];
        index = index + 1;
    }
    assert(array@ =~= bytes@);
    array
}

/// The twenty-four bytes of a slice of that length.
pub(crate) fn to_array_24(bytes: &[u8]) -> (array: [u8; 24])
    requires
        bytes@.len() == 24,
    ensures
        array@ == bytes@,
{
    let mut array: [u8; 24] = [0; 24];
    let mut index: usize = 0;
    while index < 24
        invariant
            bytes@.len() == 24,
            index <= 24,
            array@.len() == 24,
            forall|i: int| 0 <= i < index ==> array@[i] == bytes@[i],
        decreases 24 - index,
    {
        array[index] = bytes[index];
        index = index + 1;
    }
    assert(array@ =~= bytes@);
    array
}

/// The sixty-four bytes of a slice of that length.
pub(crate) fn to_array_64(bytes: &[u8]) -> (array: [u8; 64])
    requires
        bytes@.len() == 64,
    ensures
        array@ == bytes@,
{
    let mut array: [u8; 64] = [0; 64];
    let mut index: usize = 0;
    while index < 64
        invariant
            bytes@.len() == 64,
            index <= 64,
            array@.len() == 64,
            forall|i: int| 0 <= i < index ==> array@[i] == bytes@[i],
        decreases 64 - index,
    {
        array[index] = bytes[index];
        index = index + 1;
    }
    assert(array@ =~= bytes@);
    array
}

/// The signed value of a 64-bit two's complement image.
pub open spec fn signed_64(image: nat) -> int {
    if image < 0x8000_0000_0000_0000 {
        image as int
    } else {
        image - 0x1_0000_0000_0000_0000
    }
}

/// The signed value of a 64-bit two's complement image.
pub(crate) fn from_twos_complement_64(image: u64) -> (value: i64)
    ensures
        value == signed_64(image as nat),
        twos_complement_64(value) == image,
{
    if image < 0x8000_0000_0000_0000 {
        image as i64
    } else {
        (image as i128 - 0x1_0000_0000_0000_0000i128) as i64
    }
}

} // verus!
