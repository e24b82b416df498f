//! Bits of numbers and bytes, as the codec and the bit vector layer speak of
//! them: always most significant bit first.

use vstd::arithmetic::div_mod::*;
use vstd::arithmetic::power2::*;
use vstd::prelude::*;

verus! {

/// Whether the binary digit of weight `2^k` is set in `n`.
pub open spec fn nat_bit(n: nat, k: nat) -> bool {
    (n / pow2(k)) % 2 == 1
}

/// Bit `j` of a byte, where `j` runs from 0 (most significant) to 7 (least).
pub open spec fn byte_bit(byte: u8, j: int) -> bool {
    nat_bit(byte as nat, (7 - j) as nat)
}

/// The bits of a byte sequence: eight per byte, most significant first.
pub open spec fn bytes_to_bits(bytes: Seq<u8>) -> Seq<bool> {
    Seq::new(8 * bytes.len(), |k: int| byte_bit(bytes[k / 8], k % 8))
}

/// The number that a bit string spells, most significant bit first.
pub open spec fn bits_value(bits: Seq<bool>) -> nat
    decreases bits.len(),
{
    if bits.len() == 0 {
        0
    } else {
        2 * bits_value(bits.drop_last()) + if bits.last() { 1nat } else { 0nat }
    }
}

/// `n` written with exactly `width` bits, most significant first. Digits of
/// `n` above the width are dropped.
pub open spec fn nat_to_bits(n: nat, width: nat) -> Seq<bool> {
    Seq::new(width, |i: int| nat_bit(n, (width - 1 - i) as nat))
}

/// Bit `k` of a stream that is followed by zeros without end.
pub open spec fn padded_bit(bits: Seq<bool>, k: int) -> bool {
    0 <= k < bits.len() && bits[k]
}

/// Bits packed into bytes, most significant first; the last byte is filled
/// up with zeros.
pub open spec fn bits_to_bytes(bits: Seq<bool>) -> Seq<u8> {
    Seq::new(
        ((bits.len() + 7) / 8) as nat,
        |i: int| bits_value(Seq::new(8, |j: int| padded_bit(bits, 8 * i + j))) as u8,
    )
}

/// A string of eight bits spells a number below 256, digit by digit.
pub proof fn lemma_bits_value_8(s: Seq<bool>)
    requires
        s.len() == 8,
    ensures
        bits_value(s) == (if s[0] { 128nat } else { 0 }) + (if s[1] { 64nat } else { 0 }) + (if s[2] {
            32nat
        } else {
            0
        }) + (if s[3] { 16nat } else { 0 }) + (if s[4] { 8nat } else { 0 }) + (if s[5] {
            4nat
        } else {
            0
        }) + (if s[6] { 2nat } else { 0 }) + (if s[7] { 1nat } else { 0 }),
        bits_value(s) < 256,
{
    let s7 = s.drop_last();
    let s6 = s7.drop_last();
    let s5 = s6.drop_last();
    let s4 = s5.drop_last();
    let s3 = s4.drop_last();
    let s2 = s3.drop_last();
    let s1 = s2.drop_last();
    let s0 = s1.drop_last();
    assert(bits_value(s0) == 0);
    assert(bits_value(s1) == 2 * bits_value(s0) + if s1.last() { 1nat } else { 0nat });
    assert(bits_value(s2) == 2 * bits_value(s1) + if s2.last() { 1nat } else { 0nat });
    assert(bits_value(s3) == 2 * bits_value(s2) + if s3.last() { 1nat } else { 0nat });
    assert(bits_value(s4) == 2 * bits_value(s3) + if s4.last() { 1nat } else { 0nat });
    assert(bits_value(s5) == 2 * bits_value(s4) + if s5.last() { 1nat } else { 0nat });
    assert(bits_value(s6) == 2 * bits_value(s5) + if s6.last() { 1nat } else { 0nat });
    assert(bits_value(s7) == 2 * bits_value(s6) + if s7.last() { 1nat } else { 0nat });
    assert(bits_value(s) == 2 * bits_value(s7) + if s.last() { 1nat } else { 0nat });
}

/// The eight bits of a byte spell the byte.
pub proof fn lemma_byte_bits_value(byte: u8)
    ensures
        bits_value(Seq::new(8, |j: int| byte_bit(byte, j))) == byte,
{
    let s = Seq::new(8, |j: int| byte_bit(byte, j));
    lemma_bits_value_8(s);
    lemma_byte_digits(byte);
    assert(byte == (if (byte / 128) % 2 == 1 { 128nat } else { 0 }) + (if (byte / 64) % 2 == 1 {
        64nat
    } else {
        0
    }) + (if (byte / 32) % 2 == 1 { 32nat } else { 0 }) + (if (byte / 16) % 2 == 1 {
        16nat
    } else {
        0
    }) + (if (byte / 8) % 2 == 1 { 8nat } else { 0 }) + (if (byte / 4) % 2 == 1 {
        4nat
    } else {
        0
    }) + (if (byte / 2) % 2 == 1 { 2nat } else { 0 }) + (if byte % 2 == 1 { 1nat } else { 0 }))
        by (bit_vector);
}

/// The bits of a byte are its binary digits, written with plain divisors.
pub proof fn lemma_byte_digits(byte: u8)
    ensures
        byte_bit(byte, 0) == ((byte / 128) % 2 == 1),
        byte_bit(byte, 1) == ((byte / 64) % 2 == 1),
        byte_bit(byte, 2) == ((byte / 32) % 2 == 1),
        byte_bit(byte, 3) == ((byte / 16) % 2 == 1),
        byte_bit(byte, 4) == ((byte / 8) % 2 == 1),
        byte_bit(byte, 5) == ((byte / 4) % 2 == 1),
        byte_bit(byte, 6) == ((byte / 2) % 2 == 1),
        byte_bit(byte, 7) == (byte % 2 == 1),
{
    lemma2_to64();
    assert((byte as nat) / 1 == byte as nat);
}

/// A byte built from eight bits has those bits.
pub proof fn lemma_bits_value_byte_bit(s: Seq<bool>, j: int)
    requires
        s.len() == 8,
        0 <= j < 8,
    ensures
        byte_bit(bits_value(s) as u8, j) == s[j],
{
    lemma_bits_value_8(s);
    let n = bits_value(s) as u8;
    lemma_byte_digits(n);
    let (s0, s1, s2, s3, s4, s5, s6, s7) = (s[0], s[1], s[2], s[3], s[4], s[5], s[6], s[7]);
    assert(((n / 128) % 2 == 1) == s0 && ((n / 64) % 2 == 1) == s1 && ((n / 32) % 2 == 1) == s2 && ((n
        / 16) % 2 == 1) == s3 && ((n / 8) % 2 == 1) == s4 && ((n / 4) % 2 == 1) == s5 && ((n / 2)
        % 2 == 1) == s6 && (n % 2 == 1) == s7) by (bit_vector)
        requires
            n == (if s0 { 128u8 } else { 0 }) + (if s1 { 64u8 } else { 0 }) + (if s2 {
                32u8
            } else {
                0
            }) + (if s3 { 16u8 } else { 0 }) + (if s4 { 8u8 } else { 0 }) + (if s5 {
                4u8
            } else {
                0
            }) + (if s6 { 2u8 } else { 0 }) + (if s7 { 1u8 } else { 0 }),
    ;
}

/// Packing the bits of a byte sequence gives the bytes back.
pub proof fn lemma_bytes_round_trip(bytes: Seq<u8>)
    ensures
        bits_to_bytes(bytes_to_bits(bytes)) == bytes,
{
    let bits = bytes_to_bits(bytes);
    let packed = bits_to_bytes(bits);
    assert(packed.len() == bytes.len());
    assert forall|i: int| 0 <= i < bytes.len() implies packed[i] == bytes[i] by {
        let group = Seq::new(8, |j: int| padded_bit(bits, 8 * i + j));
        let own = Seq::new(8, |j: int| byte_bit(bytes[i], j));
        assert forall|j: int| 0 <= j < 8 implies group[j] == own[j] by {
            assert((8 * i + j) / 8 == i);
            assert((8 * i + j) % 8 == j);
        }
        assert(group =~= own);
        lemma_byte_bits_value(bytes[i]);
    }
    assert(packed =~= bytes);
}

/// Unpacking packed bits gives the bits back, followed by the zeros that
/// filled the last byte.
pub proof fn lemma_bits_round_trip(bits: Seq<bool>, k: int)
    requires
        0 <= k < 8 * bits_to_bytes(bits).len(),
    ensures
        bytes_to_bits(bits_to_bytes(bits)).len() == 8 * ((bits.len() + 7) / 8),
        bytes_to_bits(bits_to_bytes(bits))[k] == padded_bit(bits, k),
{
    let i = k / 8;
    let j = k % 8;
    let group = Seq::new(8, |j: int| padded_bit(bits, 8 * i + j));
    lemma_bits_value_byte_bit(group, j);
}

/// Bytes whose bits are those of `bits`, zeros after them, are `bits` packed.
pub proof fn lemma_packed_by_bits(bytes: Seq<u8>, bits: Seq<bool>)
    requires
        bytes.len() == (bits.len() + 7) / 8,
        forall|i: int, j: int|
            0 <= i < bytes.len() && 0 <= j < 8 ==> #[trigger] byte_bit(bytes[i], j) == padded_bit(
                bits,
                8 * i + j,
            ),
    ensures
        bytes == bits_to_bytes(bits),
{
    let packed = bits_to_bytes(bits);
    assert forall|i: int| 0 <= i < bytes.len() implies packed[i] == bytes[i] by {
        let group = Seq::new(8, |j: int| padded_bit(bits, 8 * i + j));
        let own = Seq::new(8, |j: int| byte_bit(bytes[i], j));
        assert forall|j: int| 0 <= j < 8 implies group[j] == own[j] by {
            assert(byte_bit(bytes[i], j) == padded_bit(bits, 8 * i + j));
        }
        assert(group =~= own);
        lemma_byte_bits_value(bytes[i]);
    }
    assert(packed =~= bytes);
}

/// `2^e`, or `None` where that does not fit in `usize`.
pub(crate) fn pow2_checked(e: u8) -> (r: Option<usize>)
    ensures
        match r {
            Some(v) => v == pow2(e as nat),
            None => pow2(e as nat) > usize::MAX,
        },
{
    let mut v: usize = 1;
    let mut i: u8 = 0;
    proof {
        lemma2_to64();
    }
    while i < e
        invariant
            i <= e,
            v == pow2(i as nat),
        decreases e - i,
    {
        proof {
            lemma_pow2_unfold((i + 1) as nat);
        }
        if v > usize::MAX / 2 {
            proof {
                if i + 1 < e {
                    lemma_pow2_strictly_increases((i + 1) as nat, e as nat);
                }
            }
            return None;
        }
        v = v * 2;
        i = i + 1;
    }
    Some(v)
}

/// The binary digit of weight `2^k` of `n`.
pub(crate) fn bit_of(n: usize, k: u8) -> (bit: bool)
    ensures
        bit == nat_bit(n as nat, k as nat),
{
    match pow2_checked(k) {
        Some(weight) => {
            proof {
                lemma_pow2_pos(k as nat);
            }
            (n / weight) % 2 == 1
        },
        None => {
            proof {
                lemma_basic_div(n as int, pow2(k as nat) as int);
            }
            false
        },
    }
}

} // verus!
