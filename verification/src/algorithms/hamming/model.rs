//! What the Hamming codec computes, stated over sequences of bits.
//!
//! A block of `2^b` bits keeps its overall parity at position 0 and one group
//! parity at each power of two; the other positions carry payload, lowest
//! position first. Blocks travel interleaved: bit 0 of every block, then bit 1
//! of every block, and so on.

use vstd::arithmetic::power2::*;
use vstd::prelude::*;

use crate::algorithms::hamming::DecodeError;
use crate::bits::{bits_to_bytes, bits_value, bytes_to_bits, nat_to_bits, padded_bit};

verus! {

/// Bits in one block.
pub open spec fn block_bits_total(b: nat) -> nat {
    pow2(b)
}

/// Parity bits in one block: the overall one and one per group.
pub open spec fn block_bits_ecc(b: nat) -> nat {
    b + 1
}

/// Payload bits in one block.
pub open spec fn block_bits_data(b: nat) -> nat {
    (block_bits_total(b) - block_bits_ecc(b)) as nat
}

/// Position 0 and the powers of two hold parity, not payload.
pub open spec fn is_parity_position(p: nat) -> bool {
    p == 0 || exists|i: nat| p == pow2(i)
}

/// How many payload positions lie below position `p`.
pub open spec fn payload_rank(p: nat) -> nat
    decreases p,
{
    if p == 0 {
        0
    } else {
        payload_rank((p - 1) as nat) + if is_parity_position((p - 1) as nat) {
            0nat
        } else {
            1nat
        }
    }
}

/// Whether position `p` takes part in the parity check with this mask. Mask 0
/// is the overall check, which every position takes part in; the mask `2^i`
/// is the check of the positions whose binary digit of weight `2^i` is set.
pub open spec fn covers(mask: nat, p: nat) -> bool {
    mask == 0 || (p / mask) % 2 == 1
}

/// Exclusive or of the bits of `w` at the positions below `n` that the mask
/// covers.
pub open spec fn parity(w: Seq<bool>, mask: nat, n: nat) -> bool
    decreases n,
{
    if n == 0 {
        false
    } else {
        parity(w, mask, (n - 1) as nat) != (covers(mask, (n - 1) as nat) && w[n - 1])
    }
}

/// A block of `2^b` bits with payload in place and every parity bit clear.
/// The payload is read from `stream` starting at `offset`; past the end of
/// the stream it is zero.
pub open spec fn place_payload(stream: Seq<bool>, offset: nat, b: nat) -> Seq<bool> {
    Seq::new(
        block_bits_total(b),
        |p: int| !is_parity_position(p as nat) && padded_bit(stream, (offset + payload_rank(p as nat)) as int),
    )
}

/// The block after the group parity bits at `2^0 .. 2^(i-1)` have been set,
/// lowest first, each to the parity of its group as the block then stands.
pub open spec fn with_group_parities(w: Seq<bool>, i: nat) -> Seq<bool>
    decreases i,
{
    if i == 0 {
        w
    } else {
        let prev = with_group_parities(w, (i - 1) as nat);
        let mask = pow2((i - 1) as nat);
        prev.update(mask as int, parity(prev, mask, prev.len()))
    }
}

/// The block after position 0 has been set to the parity of the whole block.
pub open spec fn with_overall_parity(w: Seq<bool>) -> Seq<bool> {
    w.update(0, parity(w, 0, w.len()))
}

/// The finished block that carries the payload found at `offset`.
pub open spec fn encode_block(stream: Seq<bool>, offset: nat, b: nat) -> Seq<bool> {
    with_overall_parity(with_group_parities(place_payload(stream, offset, b), b))
}

/// The stream that is cut into blocks: the message length in `l` bits, then
/// the message.
pub open spec fn payload_bits(l: nat, message: Seq<u8>) -> Seq<bool> {
    nat_to_bits(message.len(), l) + bytes_to_bits(message)
}

/// Blocks needed for a message of `n` bytes.
pub open spec fn block_count(b: nat, l: nat, n: nat) -> nat {
    ((8 * n + l + block_bits_data(b) - 1) / (block_bits_data(b) as int)) as nat
}

/// The blocks of a message, in order.
pub open spec fn encode_blocks(b: nat, l: nat, message: Seq<u8>) -> Seq<Seq<bool>> {
    Seq::new(
        block_count(b, l, message.len()),
        |c: int| encode_block(payload_bits(l, message), (c * block_bits_data(b)) as nat, b),
    )
}

/// Blocks of `width` bits laid out position by position.
pub open spec fn interleave(blocks: Seq<Seq<bool>>, width: nat) -> Seq<bool> {
    Seq::new(
        blocks.len() * width,
        |k: int| blocks[k % (blocks.len() as int)][k / (blocks.len() as int)],
    )
}

/// The bits that go on the wire for a message.
pub open spec fn encoded_bits(b: nat, l: nat, message: Seq<u8>) -> Seq<bool> {
    interleave(encode_blocks(b, l, message), block_bits_total(b))
}

/// The bytes that go on the wire for a message.
pub open spec fn encoded(b: nat, l: nat, message: Seq<u8>) -> Seq<u8> {
    bits_to_bytes(encoded_bits(b, l, message))
}

/// The inverse of `interleave`: bit `i` of block `j` is wire bit
/// `i * count + j`.
pub open spec fn deinterleave(wire: Seq<bool>, count: nat, width: nat) -> Seq<Seq<bool>> {
    Seq::new(count, |j: int| Seq::new(width, |i: int| wire[i * count + j]))
}

/// The masks of the group checks that fail, added up.
pub open spec fn syndrome(w: Seq<bool>, b: nat) -> nat
    decreases b,
{
    if b == 0 {
        0
    } else {
        let mask = pow2((b - 1) as nat);
        syndrome(w, (b - 1) as nat) + if parity(w, mask, w.len()) {
            mask
        } else {
            0
        }
    }
}

/// The block with its single error undone, or `None` where two bits are
/// wrong. If the overall check fails, the syndrome is the place of the one
/// wrong bit (0 for the overall parity bit itself). If it holds, a syndrome
/// other than 0 tells of two errors.
pub open spec fn correct_block(w: Seq<bool>, b: nat) -> Option<Seq<bool>> {
    let at = syndrome(w, b) as int;
    if parity(w, 0, w.len()) {
        Some(w.update(at, !w[at]))
    } else if at == 0 {
        Some(w)
    } else {
        None
    }
}

/// The payload bits of a block at the positions below `n`, lowest first.
pub open spec fn block_payload(w: Seq<bool>, n: nat) -> Seq<bool>
    decreases n,
{
    if n == 0 {
        Seq::empty()
    } else {
        let below = block_payload(w, (n - 1) as nat);
        if is_parity_position((n - 1) as nat) {
            below
        } else {
            below.push(w[n - 1])
        }
    }
}

/// The first of the first `n` blocks that cannot be corrected.
pub open spec fn first_uncorrectable(blocks: Seq<Seq<bool>>, b: nat, n: nat) -> Option<nat>
    decreases n,
{
    if n == 0 {
        None
    } else {
        match first_uncorrectable(blocks, b, (n - 1) as nat) {
            Some(j) => Some(j),
            None => if correct_block(blocks[n - 1], b) is None {
                Some((n - 1) as nat)
            } else {
                None
            },
        }
    }
}

/// The payload of the first `n` blocks after correction, block after block.
pub open spec fn corrected_payload(blocks: Seq<Seq<bool>>, b: nat, n: nat) -> Seq<bool>
    decreases n,
{
    if n == 0 {
        Seq::empty()
    } else {
        corrected_payload(blocks, b, (n - 1) as nat) + block_payload(
            correct_block(blocks[n - 1], b).unwrap(),
            block_bits_total(b),
        )
    }
}

/// How many of the first `n` blocks need a bit mended: those whose overall
/// check fails.
pub open spec fn mended_blocks(blocks: Seq<Seq<bool>>, n: nat) -> nat
    decreases n,
{
    if n == 0 {
        0
    } else {
        mended_blocks(blocks, (n - 1) as nat) + if parity(blocks[n - 1], 0, blocks[n - 1].len()) {
            1nat
        } else {
            0nat
        }
    }
}

/// How many blocks of the stream `wire` need a bit mended.
pub open spec fn mended_in(b: nat, wire: Seq<u8>) -> nat {
    let bits = bytes_to_bits(wire);
    let width = block_bits_total(b);
    let count = bits.len() / width;
    mended_blocks(deinterleave(bits, count, width), count)
}

/// The message that a corrected payload stream carries: its first `l` bits
/// give the length in bytes, and that many bytes follow.
pub open spec fn message_of_payload(l: nat, payload: Seq<bool>) -> Result<Seq<u8>, DecodeError> {
    if payload.len() < l {
        Err(DecodeError::Truncated)
    } else {
        let n = bits_value(payload.subrange(0, l as int));
        if payload.len() < l + 8 * n {
            Err(DecodeError::Truncated)
        } else {
            Ok(bits_to_bytes(payload.subrange(l as int, (l + 8 * n) as int)))
        }
    }
}

/// What decoding makes of the bytes `wire`.
pub open spec fn decoded(b: nat, l: nat, wire: Seq<u8>) -> Result<Seq<u8>, DecodeError> {
    let bits = bytes_to_bits(wire);
    let width = block_bits_total(b);
    if bits.len() % width != 0 {
        Err(DecodeError::Malformed)
    } else {
        let count = bits.len() / width;
        let blocks = deinterleave(bits, count, width);
        match first_uncorrectable(blocks, b, count) {
            Some(j) => Err(DecodeError::UncorrectableBlock { block_index: j as usize }),
            None => message_of_payload(l, corrected_payload(blocks, b, count)),
        }
    }
}

/// A bit string with the bit at `k` turned over.
pub open spec fn flip(bits: Seq<bool>, k: int) -> Seq<bool> {
    bits.update(k, !bits[k])
}

/// Two bit strings of one length that agree everywhere but, perhaps, at `e`.
pub open spec fn agree_except(v: Seq<bool>, w: Seq<bool>, e: int) -> bool {
    v.len() == w.len() && forall|p: int| 0 <= p < v.len() && p != e ==> v[p] == w[p]
}

/// Two bit strings of one length that differ in one place at most.
pub open spec fn differ_at_most_once(v: Seq<bool>, w: Seq<bool>) -> bool {
    exists|e: int| agree_except(v, w, e)
}

/// A block of `2^b` bits in which every parity check holds.
pub open spec fn valid_block(w: Seq<bool>, b: nat) -> bool {
    &&& w.len() == block_bits_total(b)
    &&& !parity(w, 0, w.len())
    &&& forall|i: nat| i < b ==> !parity(w, #[trigger] pow2(i), w.len())
}

/// `received` is `sent` with exactly one bit turned over.
pub open spec fn one_bit_flipped(received: Seq<u8>, sent: Seq<u8>) -> bool {
    exists|k: int|
        0 <= k < 8 * sent.len() && bytes_to_bits(received) == #[trigger] flip(
            bytes_to_bits(sent),
            k,
        )
}

/// `received` is `sent` with two different bits of block `j` turned over,
/// where `count` blocks travel interleaved.
pub open spec fn two_bits_flipped_in_block(
    received: Seq<u8>,
    sent: Seq<u8>,
    count: nat,
    j: int,
) -> bool {
    exists|k1: int, k2: int|
        0 <= k1 < 8 * sent.len() && 0 <= k2 < 8 * sent.len() && k1 != k2 && k1 % (count as int)
            == j && k2 % (count as int) == j && bytes_to_bits(received) == #[trigger] flip(
            flip(bytes_to_bits(sent), k1),
            k2,
        )
}

/// `received` is as long as `sent` and has the bits of `sent` everywhere but,
/// perhaps, inside the run of `run` wire bits that begins at `start`.
pub open spec fn differs_only_in_run(
    received: Seq<u8>,
    sent: Seq<u8>,
    start: int,
    run: nat,
) -> bool {
    received.len() == sent.len() && forall|q: int|
        0 <= q < 8 * sent.len() && !(start <= q < start + run) ==> #[trigger] bytes_to_bits(
            received,
        )[q] == bytes_to_bits(sent)[q]
}

/// What a stream does for the message it carries. The stream decodes to the
/// message, and still does with any one bit turned over, or with any damage
/// that stays inside a run of as many wire bits as there are blocks. With
/// any two bits of one block turned over it is refused, and the block named.
pub open spec fn protects(b: nat, l: nat, wire: Seq<u8>, message: Seq<u8>) -> bool {
    let count = block_count(b, l, message.len());
    &&& decoded(b, l, wire) == Ok::<Seq<u8>, DecodeError>(message)
    &&& forall|received: Seq<u8>| #[trigger]
        one_bit_flipped(received, wire) ==> decoded(b, l, received) == Ok::<
            Seq<u8>,
            DecodeError,
        >(message)
    &&& forall|received: Seq<u8>, start: int| #[trigger]
        differs_only_in_run(received, wire, start, count) ==> decoded(b, l, received) == Ok::<
            Seq<u8>,
            DecodeError,
        >(message)
    &&& forall|received: Seq<u8>, j: int| #[trigger]
        two_bits_flipped_in_block(received, wire, count, j) ==> decoded(b, l, received) == Err::<
            Seq<u8>,
            DecodeError,
        >(DecodeError::UncorrectableBlock { block_index: j as usize })
}

} // verus!
