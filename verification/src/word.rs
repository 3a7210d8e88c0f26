//! Bytes as eight bits, most significant bit first.

use vstd::prelude::*;

verus! {

/// The number that a sequence of bits spells, most significant bit first.
pub open spec fn bits_value(bits: Seq<bool>) -> nat
    decreases bits.len(),
{
    if bits.len() == 0 {
        0
    } else {
        2 * bits_value(bits.drop_last()) + if bits.last() { 1nat } else { 0nat }
    }
}

/// The lowest `width` binary digits of `n`, most significant first.
pub open spec fn bits_of(n: nat, width: nat) -> Seq<bool>
    decreases width,
{
    if width == 0 {
        Seq::empty()
    } else {
        bits_of(n / 2, (width - 1) as nat).push(n % 2 == 1)
    }
}

/// The eight bits of a byte, most significant first.
pub open spec fn byte_bits(byte: u8) -> Seq<bool> {
    bits_of(byte as nat, 8)
}

/// Two to the power `k`.
pub open spec fn exp2(k: nat) -> nat
    decreases k,
{
    if k == 0 {
        1
    } else {
        2 * exp2((k - 1) as nat)
    }
}

/// The bits of every byte in turn.
pub open spec fn bytes_bits(bytes: Seq<u8>) -> Seq<bool> {
    Seq::new(8 * bytes.len(), |i: int| byte_bits(bytes[i / 8])[i % 8])
}

/// The bytes that a sequence of bits spells, eight bits to a byte.
pub open spec fn pack_bytes(bits: Seq<bool>) -> Seq<u8> {
    Seq::new(bits.len() / 8, |i: int| bits_value(bits.subrange(8 * i, 8 * i + 8)) as u8)
}

/// A number has as many digits as were asked for.
pub proof fn lemma_bits_of_len(n: nat, width: nat)
    ensures
        bits_of(n, width).len() == width,
    decreases width,
{
    if width > 0 {
        lemma_bits_of_len(n / 2, (width - 1) as nat);
    }
}

/// A sequence of `k` bits spells a number below two to the `k`.
pub proof fn lemma_bits_value_bound(bits: Seq<bool>)
    ensures
        bits_value(bits) < exp2(bits.len()),
    decreases bits.len(),
{
    if bits.len() > 0 {
        lemma_bits_value_bound(bits.drop_last());
    }
}

/// Spelling the digits of a number gives the number back.
pub proof fn lemma_value_of_bits(n: nat, width: nat)
    requires
        n < exp2(width),
    ensures
        bits_value(bits_of(n, width)) == n,
    decreases width,
{
    if width > 0 {
        let rest = bits_of(n / 2, (width - 1) as nat);
        lemma_value_of_bits(n / 2, (width - 1) as nat);
        assert(rest.push(n % 2 == 1).drop_last() =~= rest);
    }
}

/// The digits of the number that a sequence spells are the sequence.
pub proof fn lemma_bits_of_value(bits: Seq<bool>)
    ensures
        bits_of(bits_value(bits), bits.len()) == bits,
    decreases bits.len(),
{
    if bits.len() > 0 {
        lemma_bits_of_value(bits.drop_last());
        assert(bits.drop_last().push(bits.last()) =~= bits);
    } else {
        assert(bits =~= Seq::empty());
    }
}

/// A byte's bits spell the byte, and eight bits are the bits of the byte they spell.
pub proof fn lemma_byte_round_trip(byte: u8, bits: Seq<bool>)
    requires
        bits.len() == 8,
    ensures
        byte_bits(byte).len() == 8,
        bits_value(byte_bits(byte)) == byte,
        bits_value(bits) < 256,
        byte_bits(bits_value(bits) as u8) == bits,
{
    reveal_with_fuel(exp2, 9);
    lemma_bits_of_len(byte as nat, 8);
    lemma_value_of_bits(byte as nat, 8);
    lemma_bits_value_bound(bits);
    lemma_bits_of_value(bits);
}

/// Packing a whole number of bytes and unpacking them gives the bits back.
pub proof fn lemma_unpack_pack(bits: Seq<bool>)
    requires
        bits.len() % 8 == 0,
    ensures
        bytes_bits(pack_bytes(bits)) == bits,
{
    let packed = pack_bytes(bits);
    assert forall|i: int| 0 <= i < bits.len() implies bytes_bits(packed)[i] == bits[i] by {
        let chunk = bits.subrange(8 * (i / 8), 8 * (i / 8) + 8);
        lemma_byte_round_trip(0, chunk);
        assert(chunk[i % 8] == bits[i]);
    }
    assert(bytes_bits(packed) =~= bits);
}

/// Unpacking bytes and packing their bits gives the bytes back.
pub proof fn lemma_pack_unpack(bytes: Seq<u8>)
    ensures
        pack_bytes(bytes_bits(bytes)) == bytes,
{
    let bits = bytes_bits(bytes);
    assert forall|i: int| 0 <= i < bytes.len() implies pack_bytes(bits)[i] == bytes[i] by {
        let chunk = bits.subrange(8 * i, 8 * i + 8);
        lemma_byte_round_trip(bytes[i], chunk);
        assert forall|j: int| 0 <= j < 8 implies chunk[j] == byte_bits(bytes[i])[j] by {
            assert((8 * i + j) / 8 == i);
            assert((8 * i + j) % 8 == j);
        }
        assert(chunk =~= byte_bits(bytes[i]));
    }
    assert(pack_bytes(bits) =~= bytes);
}

/// Packing two sequences of bits, the first a whole number of bytes, gives
/// the bytes of the first and then those of the second.
pub proof fn lemma_pack_concat(first: Seq<bool>, second: Seq<bool>)
    requires
        first.len() % 8 == 0,
    ensures
        pack_bytes(first + second) == pack_bytes(first) + pack_bytes(second),
{
    let whole = first + second;
    let n = first.len() as int / 8;
    assert forall|i: int| 0 <= i < whole.len() / 8 implies pack_bytes(whole)[i] == (pack_bytes(
        first,
    ) + pack_bytes(second))[i] by {
        if i < n {
            assert(whole.subrange(8 * i, 8 * i + 8) =~= first.subrange(8 * i, 8 * i + 8));
        } else {
            assert(whole.subrange(8 * i, 8 * i + 8) =~= second.subrange(
                8 * (i - n),
                8 * (i - n) + 8,
            ));
        }
    }
    assert(pack_bytes(whole) =~= pack_bytes(first) + pack_bytes(second));
}

/// The byte that eight bits spell, most significant bit first.
pub fn bits_to_byte(bits: &[bool]) -> (byte: u8)
    requires
        bits@.len() == 8,
    ensures
        byte == bits_value(bits@),
        byte_bits(byte) == bits@,
{
    let mut byte: u8 = 0;
    let mut i: usize = 0;
    while i < 8
        invariant
            i <= 8,
            bits@.len() == 8,
            byte == bits_value(bits@.take(i as int)),
            byte < exp2(i as nat),
        decreases 8 - i,
    {
        let bit: u8 = if bits[i] { 1 } else { 0 };
        proof {
            reveal_with_fuel(exp2, 9);
            assert(bits@.take(i + 1).drop_last() =~= bits@.take(i as int));
        }
        assert(byte < 128);
        assert((byte << 1 | bit) == byte * 2 + bit) by (bit_vector)
            requires
                byte < 128,
                bit <= 1,
        ;
        byte = byte << 1 | bit;
        i += 1;
    }
    proof {
        assert(bits@.take(8) =~= bits@);
        lemma_byte_round_trip(0, bits@);
    }
    byte
}

/// The eight bits of a byte, most significant first.
pub fn byte_to_bits(byte: u8) -> (bits: Vec<bool>)
    ensures
        bits@ == byte_bits(byte),
{
    let mut bits: Vec<bool> = vec![false; 8];
    let mut rest: u8 = byte;
    let mut i: usize = 8;
    while i > 0
        invariant
            i <= 8,
            bits@.len() == 8,
            byte_bits(byte) == bits_of(rest as nat, i as nat) + bits@.skip(i as int),
        decreases i,
    {
        i -= 1;
        bits.set(i, rest % 2 == 1);
        proof {
            let before = bits_of(rest as nat, (i + 1) as nat);
            lemma_bits_of_len((rest / 2) as nat, i as nat);
            assert(byte_bits(byte) =~= bits_of((rest / 2) as nat, i as nat) + bits@.skip(i as int));
        }
        rest = rest / 2;
    }
    proof {
        lemma_bits_of_len(byte as nat, 8);
        assert(byte_bits(byte) =~= bits@);
    }
    bits
}

/// The bytes that a whole number of bytes' worth of bits spell.
pub fn pack_bits(bits: &[bool]) -> (bytes: Vec<u8>)
    requires
        bits@.len() % 8 == 0,
    ensures
        bytes@ == pack_bytes(bits@),
{
    let mut bytes: Vec<u8> = Vec::new();
    let mut i: usize = 0;
    while i < bits.len()
        invariant
            i <= bits@.len(),
            i % 8 == 0,
            bits@.len() % 8 == 0,
            bytes@ == pack_bytes(bits@).take(i as int / 8),
        decreases bits@.len() - i,
    {
        let chunk = vstd::slice::slice_subrange(bits, i, i + 8);
        let byte = bits_to_byte(chunk);
        bytes.push(byte);
        proof {
            assert(bytes@ =~= pack_bytes(bits@).take((i + 8) as int / 8));
        }
        i += 8;
    }
    proof {
        assert(bytes@ =~= pack_bytes(bits@));
    }
    bytes
}

/// The bits of every byte in turn.
pub fn unpack_bytes(bytes: &[u8]) -> (bits: Vec<bool>)
    ensures
        bits@ == bytes_bits(bytes@),
{
    let mut bits: Vec<bool> = Vec::new();
    let mut i: usize = 0;
    while i < bytes.len()
        invariant
            i <= bytes@.len(),
            bits@ == bytes_bits(bytes@.take(i as int)),
        decreases bytes@.len() - i,
    {
        let mut byte = byte_to_bits(bytes[i]);
        proof {
            lemma_bits_of_len(bytes@[i as int] as nat, 8);
            assert(bits@ + byte@ =~= bytes_bits(bytes@.take(i + 1)));
        }
        bits.append(&mut byte);
        i += 1;
    }
    proof {
        assert(bytes@.take(bytes@.len() as int) =~= bytes@);
    }
    bits
}

} // verus!
