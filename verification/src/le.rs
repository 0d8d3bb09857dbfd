//! Little-endian byte strings of fixed width.

use vstd::prelude::*;

use crate::packer::{accepted, Packer};
use crate::unpacker::Unpacker;

verus! {

/// 256 to the power `width`: the number of values that `width` bytes can hold.
pub open spec fn radix_pow(width: nat) -> nat
    decreases width,
{
    if width == 0 {
        1
    } else {
        256 * radix_pow((width - 1) as nat)
    }
}

/// The `width` low bytes of `value`, least significant first.
pub open spec fn le_bytes(value: nat, width: nat) -> Seq<u8>
    decreases width,
{
    if width == 0 {
        Seq::empty()
    } else {
        seq![(value % 256) as u8] + le_bytes(value / 256, (width - 1) as nat)
    }
}

/// The number that `bytes` spell, least significant byte first.
pub open spec fn le_value(bytes: Seq<u8>) -> nat
    decreases bytes.len(),
{
    if bytes.len() == 0 {
        0
    } else {
        bytes[0] as nat + 256 * le_value(bytes.skip(1))
    }
}

/// The code of `value` in two's complement of `width` bytes.
pub open spec fn twos_complement(value: int, width: nat) -> nat {
    if value >= 0 {
        value as nat
    } else {
        (value + radix_pow(width)) as nat
    }
}

/// The number that `code` stands for in two's complement of `width` bytes.
pub open spec fn from_twos_complement(code: nat, width: nat) -> int {
    if 2 * code < radix_pow(width) {
        code as int
    } else {
        code - radix_pow(width)
    }
}

/// The low bytes of a value at a width are as many as the width.
pub proof fn lemma_le_bytes_len(value: nat, width: nat)
    ensures
        le_bytes(value, width).len() == width,
    decreases width,
{
    if width > 0 {
        lemma_le_bytes_len(value / 256, (width - 1) as nat);
    }
}

/// Reading back the bytes of a value that fits gives the value.
pub proof fn lemma_le_value_of_bytes(value: nat, width: nat)
    requires
        value < radix_pow(width),
    ensures
        le_value(le_bytes(value, width)) == value,
    decreases width,
{
    if width > 0 {
        let rest = le_bytes(value / 256, (width - 1) as nat);
        lemma_le_bytes_len(value / 256, (width - 1) as nat);
        lemma_le_value_of_bytes(value / 256, (width - 1) as nat);
        assert(le_bytes(value, width).skip(1) =~= rest);
    }
}

/// The bytes of a number read from `bytes` are `bytes`.
pub proof fn lemma_le_bytes_of_value(bytes: Seq<u8>)
    ensures
        le_value(bytes) < radix_pow(bytes.len()),
        le_bytes(le_value(bytes), bytes.len()) == bytes,
    decreases bytes.len(),
{
    if bytes.len() > 0 {
        lemma_le_bytes_of_value(bytes.skip(1));
        let v = le_value(bytes);
        assert(v / 256 == le_value(bytes.skip(1)));
        assert(v % 256 == bytes[0]);
        assert(le_bytes(v, bytes.len()) =~= bytes);
    }
}

/// The number of values that 1, 2, 4, 8 and 16 bytes can hold.
pub proof fn lemma_radix_pow_values()
    ensures
        radix_pow(1) == 0x100,
        radix_pow(2) == 0x1_0000,
        radix_pow(4) == 0x1_0000_0000,
        radix_pow(8) == 0x1_0000_0000_0000_0000,
        radix_pow(16) == 0x1_0000_0000_0000_0000_0000_0000_0000_0000,
{
    assert(radix_pow(1) == 256 * radix_pow(0));
    assert(radix_pow(2) == 256 * radix_pow(1));
    assert(radix_pow(3) == 256 * radix_pow(2));
    assert(radix_pow(4) == 256 * radix_pow(3));
    assert(radix_pow(5) == 256 * radix_pow(4));
    assert(radix_pow(6) == 256 * radix_pow(5));
    assert(radix_pow(7) == 256 * radix_pow(6));
    assert(radix_pow(8) == 256 * radix_pow(7));
    assert(radix_pow(9) == 256 * radix_pow(8));
    assert(radix_pow(10) == 256 * radix_pow(9));
    assert(radix_pow(11) == 256 * radix_pow(10));
    assert(radix_pow(12) == 256 * radix_pow(11));
    assert(radix_pow(13) == 256 * radix_pow(12));
    assert(radix_pow(14) == 256 * radix_pow(13));
    assert(radix_pow(15) == 256 * radix_pow(14));
    assert(radix_pow(16) == 256 * radix_pow(15));
}

/// Writes the `width` low bytes of `value`, least significant first.
pub fn pack_le<P: Packer>(value: u128, width: usize, packer: &mut P) -> (r: Result<(), P::Error>)
    requires
        1 <= width <= 16,
    ensures
        accepted(old(packer), final(packer), r is Ok, le_bytes(value as nat, width as nat)),
{
    let mut buf = [0u8; 16];
    let mut rest = value;
    let mut i: usize = 0;
    while i < width
        invariant
            i <= width <= 16,
            buf@.len() == 16,
            buf@.take(i as int) + le_bytes(rest as nat, (width - i) as nat) == le_bytes(
                value as nat,
                width as nat,
            ),
        decreases width - i,
    {
        let ghost before = buf@;
        buf[i] = (rest % 256) as u8;
        proof {
            assert(buf@.take(i as int + 1) =~= before.take(i as int) + seq![(rest % 256) as u8]);
            assert(before.take(i as int) + (seq![(rest % 256) as u8] + le_bytes(
                (rest / 256) as nat,
                (width - i - 1) as nat,
            )) =~= buf@.take(i as int + 1) + le_bytes((rest / 256) as nat, (width - i - 1) as nat));
        }
        rest = rest / 256;
        i += 1;
    }
    proof {
        assert(buf@.take(width as int) + Seq::<u8>::empty() =~= buf@.take(width as int));
        assert(buf@.subrange(0, width as int) =~= buf@.take(width as int));
    }
    packer.pack_bytes(vstd::slice::slice_subrange(vstd::array::array_as_slice(&buf), 0, width))
}

/// Reads `width` bytes and gives the number they spell, least significant byte first.
pub fn unpack_le<U: Unpacker>(unpacker: &mut U, width: usize) -> (r: Result<u128, U::Error>)
    requires
        1 <= width <= 16,
    ensures
        match r {
            Ok(value) => {
                &&& width <= old(unpacker).remaining().len()
                &&& value == le_value(old(unpacker).remaining().take(width as int))
                &&& value < radix_pow(width as nat)
                &&& final(unpacker).remaining() == old(unpacker).remaining().skip(width as int)
                &&& final(unpacker).consumed() == old(unpacker).consumed() + width
            },
            Err(e) => {
                &&& width > old(unpacker).remaining().len()
                &&& U::is_eof(e, width as nat, old(unpacker).remaining().len())
            },
        },
{
    let mut buf = [0u8; 16];
    let (head, _) = buf.split_at_mut(width);
    unpacker.unpack_bytes(head)?;
    let mut value: u128 = 0;
    let mut i: usize = width;
    while i > 0
        invariant
            i <= width <= 16,
            buf@.len() == 16,
            value == le_value(buf@.subrange(i as int, width as int)),
        decreases i,
    {
        i -= 1;
        proof {
            let s = buf@.subrange(i as int, width as int);
            assert(s.skip(1) =~= buf@.subrange(i as int + 1, width as int));
            lemma_le_bytes_of_value(s.skip(1));
            lemma_radix_pow_values();
            lemma_radix_pow_monotone(s.skip(1).len(), 15);
        }
        value = value * 256 + buf[i] as u128;
    }
    proof {
        assert(buf@.subrange(0, width as int) =~= old(unpacker).remaining().take(width as int));
        lemma_le_bytes_of_value(old(unpacker).remaining().take(width as int));
    }
    Ok(value)
}

/// More bytes hold at least as many values.
pub proof fn lemma_radix_pow_monotone(a: nat, b: nat)
    requires
        a <= b,
    ensures
        radix_pow(a) <= radix_pow(b),
    decreases b,
{
    if a < b {
        lemma_radix_pow_monotone(a, (b - 1) as nat);
    }
}

} // verus!
