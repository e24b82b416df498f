//! What holds of the codec for every configuration and every message.

use vstd::arithmetic::div_mod::*;
use vstd::arithmetic::mul::*;
use vstd::arithmetic::power2::*;
use vstd::prelude::*;

use crate::algorithms::hamming::lemmas::{
    lemma_block_has_payload, lemma_block_payload_is, lemma_ceil_div, lemma_correct_double,
    lemma_correct_near, lemma_encode_block, lemma_first_uncorrectable_stays,
    lemma_nat_to_bits_value, lemma_parity_update, lemma_rank_total, lemma_wire_index,
};
use crate::algorithms::hamming::model::{
    agree_except, block_bits_data, block_bits_total, block_count, correct_block,
    corrected_payload, decoded, deinterleave, differ_at_most_once, differs_only_in_run,
    encode_block, encode_blocks, encoded, encoded_bits, first_uncorrectable, flip, mended_blocks,
    mended_in, message_of_payload, one_bit_flipped, parity, payload_bits, protects,
    two_bits_flipped_in_block, valid_block,
};
use crate::algorithms::hamming::{DecodeError, HammingECC};
use crate::bits::{
    bytes_to_bits, lemma_bits_round_trip, lemma_bytes_round_trip, nat_to_bits, padded_bit,
};

verus! {

/// A stream followed by zeros, `total` bits in all.
spec fn padded_to(stream: Seq<bool>, total: nat) -> Seq<bool> {
    Seq::new(total, |k: int| padded_bit(stream, k))
}

/// The wire bits of a message fill whole bytes, so the wire bytes hold
/// exactly those bits; and every block on the wire is a valid block.
proof fn lemma_sent(b: nat, l: nat, message: Seq<u8>)
    requires
        b >= 3,
    ensures
        bytes_to_bits(encoded(b, l, message)) == encoded_bits(b, l, message),
        encoded_bits(b, l, message).len() == block_count(b, l, message.len()) * pow2(b),
        deinterleave(
            encoded_bits(b, l, message),
            block_count(b, l, message.len()),
            block_bits_total(b),
        ) == encode_blocks(b, l, message),
        forall|j: int|
            0 <= j < block_count(b, l, message.len()) ==> valid_block(
                #[trigger] encode_blocks(b, l, message)[j],
                b,
            ),
{
    let bits = encoded_bits(b, l, message);
    let blocks = encode_blocks(b, l, message);
    let count = block_count(b, l, message.len());
    let width = pow2(b);
    lemma_pow2_adds(3, (b - 3) as nat);
    lemma2_to64();
    let eighth = pow2((b - 3) as nat);
    assert(count * (8 * eighth) == 8 * (count * eighth)) by (nonlinear_arith);
    assert(bits.len() % 8 == 0);
    let back = bytes_to_bits(encoded(b, l, message));
    assert forall|k: int| 0 <= k < back.len() implies back[k] == bits[k] by {
        lemma_bits_round_trip(bits, k);
    }
    assert(back =~= bits);
    assert forall|j: int| 0 <= j < count implies valid_block(#[trigger] blocks[j], b) by {
        lemma_encode_block(payload_bits(l, message), (j * block_bits_data(b)) as nat, b);
    }
    let apart = deinterleave(bits, count, width);
    assert forall|j: int| 0 <= j < count implies #[trigger] apart[j] =~= blocks[j] by {
        assert(blocks[j].len() == width);
        assert forall|i: int| 0 <= i < width implies apart[j][i] == blocks[j][i] by {
            lemma_wire_index(i as nat, j as nat, count, width);
        }
    }
    assert(apart =~= blocks);
}

/// A whole number of blocks divides into that number of blocks.
proof fn lemma_whole_blocks(count: nat, width: nat)
    requires
        width > 0,
    ensures
        (count * width) % width == 0,
        (count * width) / width == count,
{
    lemma_mod_multiples_basic(count as int, width as int);
    lemma_div_by_multiple(count as int, width as int);
}

/// Where every block is mended to the block that was sent, no block is
/// refused, and the payload read off the blocks is the stream that was cut
/// into them.
proof fn lemma_corrected_payload(got: Seq<Seq<bool>>, stream: Seq<bool>, b: nat, n: nat)
    requires
        n <= got.len(),
        forall|j: int|
            0 <= j < n ==> correct_block(#[trigger] got[j], b) == Some(
                encode_block(stream, (j * block_bits_data(b)) as nat, b),
            ),
    ensures
        first_uncorrectable(got, b, n) is None,
        corrected_payload(got, b, n) == padded_to(stream, n * block_bits_data(b)),
    decreases n,
{
    let data = block_bits_data(b);
    if n == 0 {
        assert(corrected_payload(got, b, n) =~= padded_to(stream, n * data));
    } else {
        lemma_corrected_payload(got, stream, b, (n - 1) as nat);
        let offset = ((n - 1) * data) as nat;
        let sent = encode_block(stream, offset, b);
        assert(correct_block(got[n - 1], b) == Some(sent));
        lemma_encode_block(stream, offset, b);
        lemma_block_payload_is(sent, pow2(b), stream, offset);
        lemma_rank_total(b);
        assert(n * data == (n - 1) * data + data) by (nonlinear_arith);
        assert(corrected_payload(got, b, n) =~= padded_to(stream, n * data));
    }
}

/// A payload stream that holds a message, whatever zeros follow it, is read
/// back as that message.
proof fn lemma_message_of_payload(l: nat, message: Seq<u8>, total: nat)
    requires
        message.len() < pow2(l),
        total >= l + 8 * message.len(),
    ensures
        message_of_payload(l, padded_to(payload_bits(l, message), total)) == Ok::<
            Seq<u8>,
            DecodeError,
        >(message),
{
    let n = message.len();
    let stream = payload_bits(l, message);
    let payload = padded_to(stream, total);
    assert(payload.subrange(0, l as int) =~= nat_to_bits(n, l));
    lemma_nat_to_bits_value(n, l);
    assert(payload.subrange(l as int, (l + 8 * n) as int) =~= bytes_to_bits(message));
    lemma_bytes_round_trip(message);
}

/// A received stream of the right length in which every block differs from
/// the block that was sent in at most one bit decodes to the message.
proof fn lemma_decodes(b: nat, l: nat, message: Seq<u8>, received: Seq<u8>)
    requires
        b >= 3,
        message.len() < pow2(l),
        received.len() == encoded(b, l, message).len(),
        forall|j: int|
            0 <= j < block_count(b, l, message.len()) ==> differ_at_most_once(
                #[trigger] deinterleave(
                    bytes_to_bits(received),
                    block_count(b, l, message.len()),
                    block_bits_total(b),
                )[j],
                encode_blocks(b, l, message)[j],
            ),
    ensures
        decoded(b, l, received) == Ok::<Seq<u8>, DecodeError>(message),
{
    let count = block_count(b, l, message.len());
    let width = block_bits_total(b);
    let data = block_bits_data(b);
    let stream = payload_bits(l, message);
    let sent = encode_blocks(b, l, message);
    let got = deinterleave(bytes_to_bits(received), count, width);
    lemma_sent(b, l, message);
    lemma_pow2_pos(b);
    lemma_whole_blocks(count, width);
    assert(bytes_to_bits(received).len() == count * width);
    assert forall|j: int| 0 <= j < count implies correct_block(#[trigger] got[j], b) == Some(
        encode_block(stream, (j * data) as nat, b),
    ) by {
        assert(valid_block(sent[j], b));
        lemma_correct_near(got[j], sent[j], b);
    }
    lemma_corrected_payload(got, stream, b, count);
    lemma_block_has_payload(b);
    lemma_ceil_div(8 * message.len() + l, data);
    lemma_message_of_payload(l, message, count * data);
}

/// An encoded message is a whole number of blocks, which fill whole bytes: the
/// wire holds eight bits to the byte and no padding.
pub proof fn encoded_length(codec: HammingECC, message: Seq<u8>)
    requires
        codec.well_formed(),
    ensures
        8 * encoded(codec.block_log_size(), codec.length_field_bits(), message).len()
            == codec.encoded_bit_count(message.len()),
        bytes_to_bits(encoded(codec.block_log_size(), codec.length_field_bits(), message))
            == encoded_bits(codec.block_log_size(), codec.length_field_bits(), message),
{
    lemma_sent(codec.block_log_size(), codec.length_field_bits(), message);
}

/// Decoding what encoding made gives the message back: every message that
/// fits the length field survives the round trip.
pub proof fn round_trip(codec: HammingECC, message: Seq<u8>)
    requires
        codec.well_formed(),
        message.len() < pow2(codec.length_field_bits()),
    ensures
        decoded(
            codec.block_log_size(),
            codec.length_field_bits(),
            encoded(codec.block_log_size(), codec.length_field_bits(), message),
        ) == Ok::<Seq<u8>, DecodeError>(message),
        mended_in(
            codec.block_log_size(),
            encoded(codec.block_log_size(), codec.length_field_bits(), message),
        ) == 0,
{
    let b = codec.block_log_size();
    let l = codec.length_field_bits();
    let count = block_count(b, l, message.len());
    let sent = encode_blocks(b, l, message);
    lemma_sent(b, l, message);
    lemma_pow2_pos(b);
    lemma_whole_blocks(count, block_bits_total(b));
    assert forall|j: int| 0 <= j < count implies !parity(#[trigger] sent[j], 0, sent[j].len()) by {
        assert(valid_block(sent[j], b));
    }
    lemma_mended_blocks(sent, count, -1);
    assert forall|j: int| 0 <= j < count implies differ_at_most_once(
        #[trigger] deinterleave(bytes_to_bits(encoded(b, l, message)), count, block_bits_total(b))[j],
        sent[j],
    ) by {
        assert(agree_except(sent[j], sent[j], 0));
    }
    lemma_decodes(b, l, message, encoded(b, l, message));
}

/// One error per block is mended: a received stream in which no block
/// differs from the block that was sent in more than one bit decodes to the
/// message, however many blocks are hit.
pub proof fn one_error_per_block_is_corrected(
    codec: HammingECC,
    message: Seq<u8>,
    received: Seq<u8>,
)
    requires
        codec.well_formed(),
        message.len() < pow2(codec.length_field_bits()),
        received.len() == encoded(
            codec.block_log_size(),
            codec.length_field_bits(),
            message,
        ).len(),
        forall|j: int|
            0 <= j < block_count(
                codec.block_log_size(),
                codec.length_field_bits(),
                message.len(),
            ) ==> differ_at_most_once(
                #[trigger] deinterleave(
                    bytes_to_bits(received),
                    block_count(codec.block_log_size(), codec.length_field_bits(), message.len()),
                    block_bits_total(codec.block_log_size()),
                )[j],
                encode_blocks(codec.block_log_size(), codec.length_field_bits(), message)[j],
            ),
    ensures
        decoded(codec.block_log_size(), codec.length_field_bits(), received) == Ok::<
            Seq<u8>,
            DecodeError,
        >(message),
{
    lemma_decodes(codec.block_log_size(), codec.length_field_bits(), message, received);
}

/// Whether bit `p` of block `j` travels inside the run of `count` wire bits
/// that begins at `start`.
spec fn in_run(p: int, j: int, count: nat, width: nat, start: int) -> bool {
    0 <= p < width && start <= p * count + j < start + count
}

/// Where two streams of `count` interleaved blocks agree at every wire bit
/// outside a run of `count` bits, each block of the one differs from the same
/// block of the other in at most one bit.
proof fn lemma_run_hits_once(
    got: Seq<bool>,
    sent: Seq<bool>,
    count: nat,
    width: nat,
    start: int,
    j: int,
)
    requires
        got.len() == sent.len(),
        sent.len() == count * width,
        0 <= j < count,
        forall|q: int| 0 <= q < sent.len() && !(start <= q < start + count) ==> got[q] == sent[q],
    ensures
        differ_at_most_once(
            deinterleave(got, count, width)[j],
            deinterleave(sent, count, width)[j],
        ),
{
    let v = deinterleave(got, count, width)[j];
    let w = deinterleave(sent, count, width)[j];
    let e = if exists|p: int| in_run(p, j, count, width, start) {
        choose|p: int| in_run(p, j, count, width, start)
    } else {
        -1
    };
    assert forall|p: int| 0 <= p < v.len() && p != e implies v[p] == w[p] by {
        lemma_wire_index(p as nat, j as nat, count, width);
        if in_run(p, j, count, width, start) {
            assert(in_run(e, j, count, width, start));
            assert(false) by (nonlinear_arith)
                requires
                    p != e,
                    count > 0,
                    start <= p * count + j < start + count,
                    start <= e * count + j < start + count,
            ;
        }
    }
    assert(agree_except(v, w, e));
}

/// A single flipped bit is mended: a stream that differs from the encoded
/// message in exactly one bit, wherever it is, decodes to the message.
pub proof fn single_bit_tolerance(
    codec: HammingECC,
    message: Seq<u8>,
    received: Seq<u8>,
    k: int,
)
    requires
        codec.well_formed(),
        message.len() < pow2(codec.length_field_bits()),
        0 <= k < 8 * encoded(codec.block_log_size(), codec.length_field_bits(), message).len(),
        bytes_to_bits(received) == flip(
            bytes_to_bits(encoded(codec.block_log_size(), codec.length_field_bits(), message)),
            k,
        ),
    ensures
        decoded(codec.block_log_size(), codec.length_field_bits(), received) == Ok::<
            Seq<u8>,
            DecodeError,
        >(message),
        mended_in(codec.block_log_size(), received) == 1,
{
    let b = codec.block_log_size();
    let l = codec.length_field_bits();
    let count = block_count(b, l, message.len());
    let width = block_bits_total(b);
    let sent = bytes_to_bits(encoded(b, l, message));
    let got = bytes_to_bits(received);
    let sent_blocks = encode_blocks(b, l, message);
    let got_blocks = deinterleave(got, count, width);
    lemma_sent(b, l, message);
    assert(got.len() == sent.len());
    assert forall|j: int| 0 <= j < count implies differ_at_most_once(
        #[trigger] got_blocks[j],
        sent_blocks[j],
    ) by {
        lemma_run_hits_once(got, sent, count, width, k, j);
    }
    lemma_decodes(b, l, message, received);
    lemma_pow2_pos(b);
    lemma_whole_blocks(count, width);
    assert(count > 0) by (nonlinear_arith)
        requires
            count * width == sent.len(),
            sent.len() > 0,
    ;
    let hit = k % (count as int);
    let e = k / (count as int);
    lemma_fundamental_div_mod(k, count as int);
    lemma_mul_is_commutative(count as int, e);
    assert(0 <= e < width) by (nonlinear_arith)
        requires
            k == e * count + hit,
            0 <= hit < count,
            0 <= k < count * width,
    ;
    assert forall|j: int| 0 <= j < count implies parity(
        #[trigger] got_blocks[j],
        0,
        got_blocks[j].len(),
    ) == (j == hit) by {
        assert(valid_block(sent_blocks[j], b));
        if j == hit {
            assert(got_blocks[j] =~= flip(sent_blocks[j], e)) by {
                assert forall|p: int| 0 <= p < width implies got_blocks[j][p] == flip(
                    sent_blocks[j],
                    e,
                )[p] by {
                    lemma_wire_index(p as nat, j as nat, count, width);
                    assert(deinterleave(sent, count, width)[j][p] == sent[p * count + j]);
                }
            }
            lemma_parity_update(sent_blocks[j], 0, width, e, !sent_blocks[j][e]);
        } else {
            assert(got_blocks[j] =~= sent_blocks[j]) by {
                assert forall|p: int| 0 <= p < width implies got_blocks[j][p]
                    == sent_blocks[j][p] by {
                    lemma_wire_index(p as nat, j as nat, count, width);
                    assert(deinterleave(sent, count, width)[j][p] == sent[p * count + j]);
                }
            }
        }
    }
    lemma_mended_blocks(got_blocks, count, hit);
}

/// Interleaving spreads a burst: a run of as many consecutive wire bits as
/// there are blocks touches no block more than once, so a stream that is
/// corrupted only inside such a run, in whatever way, decodes to the message.
pub proof fn burst_tolerance(codec: HammingECC, message: Seq<u8>, received: Seq<u8>, start: int)
    requires
        codec.well_formed(),
        message.len() < pow2(codec.length_field_bits()),
        received.len() == encoded(
            codec.block_log_size(),
            codec.length_field_bits(),
            message,
        ).len(),
        forall|q: int|
            0 <= q < 8 * received.len() && !(start <= q < start + block_count(
                codec.block_log_size(),
                codec.length_field_bits(),
                message.len(),
            )) ==> bytes_to_bits(received)[q] == bytes_to_bits(
                encoded(codec.block_log_size(), codec.length_field_bits(), message),
            )[q],
    ensures
        forall|j: int|
            0 <= j < block_count(
                codec.block_log_size(),
                codec.length_field_bits(),
                message.len(),
            ) ==> differ_at_most_once(
                #[trigger] deinterleave(
                    bytes_to_bits(received),
                    block_count(codec.block_log_size(), codec.length_field_bits(), message.len()),
                    block_bits_total(codec.block_log_size()),
                )[j],
                encode_blocks(codec.block_log_size(), codec.length_field_bits(), message)[j],
            ),
        decoded(codec.block_log_size(), codec.length_field_bits(), received) == Ok::<
            Seq<u8>,
            DecodeError,
        >(message),
{
    let b = codec.block_log_size();
    let l = codec.length_field_bits();
    let count = block_count(b, l, message.len());
    let width = block_bits_total(b);
    let sent = bytes_to_bits(encoded(b, l, message));
    let got = bytes_to_bits(received);
    lemma_sent(b, l, message);
    assert forall|j: int| 0 <= j < count implies differ_at_most_once(
        #[trigger] deinterleave(got, count, width)[j],
        encode_blocks(b, l, message)[j],
    ) by {
        lemma_run_hits_once(got, sent, count, width, start, j);
    }
    lemma_decodes(b, l, message, received);
}

/// Two flipped bits in one block are detected, whichever two they are: the
/// stream is refused with the index of that block, never decoded to a wrong
/// message.
pub proof fn double_bit_detection(
    codec: HammingECC,
    message: Seq<u8>,
    received: Seq<u8>,
    k1: int,
    k2: int,
)
    requires
        codec.well_formed(),
        message.len() < pow2(codec.length_field_bits()),
        0 <= k1 < 8 * encoded(codec.block_log_size(), codec.length_field_bits(), message).len(),
        0 <= k2 < 8 * encoded(codec.block_log_size(), codec.length_field_bits(), message).len(),
        k1 != k2,
        k1 % (block_count(
            codec.block_log_size(),
            codec.length_field_bits(),
            message.len(),
        ) as int) == k2 % (block_count(
            codec.block_log_size(),
            codec.length_field_bits(),
            message.len(),
        ) as int),
        bytes_to_bits(received) == flip(
            flip(
                bytes_to_bits(encoded(codec.block_log_size(), codec.length_field_bits(), message)),
                k1,
            ),
            k2,
        ),
    ensures
        decoded(codec.block_log_size(), codec.length_field_bits(), received) == Err::<
            Seq<u8>,
            DecodeError,
        >(
            DecodeError::UncorrectableBlock {
                block_index: (k1 % (block_count(
                    codec.block_log_size(),
                    codec.length_field_bits(),
                    message.len(),
                ) as int)) as usize,
            },
        ),
{
    let b = codec.block_log_size();
    let l = codec.length_field_bits();
    let count = block_count(b, l, message.len());
    let width = block_bits_total(b);
    let sent = bytes_to_bits(encoded(b, l, message));
    let got = bytes_to_bits(received);
    let sent_blocks = encode_blocks(b, l, message);
    let got_blocks = deinterleave(got, count, width);
    lemma_sent(b, l, message);
    lemma_pow2_pos(b);
    lemma_whole_blocks(count, width);
    assert(got.len() == sent.len());
    assert(count > 0) by (nonlinear_arith)
        requires
            count * width == sent.len(),
            sent.len() > 0,
    ;
    let hit = k1 % (count as int);
    let e1 = k1 / (count as int);
    let e2 = k2 / (count as int);
    lemma_fundamental_div_mod(k1, count as int);
    lemma_fundamental_div_mod(k2, count as int);
    lemma_mul_is_commutative(count as int, e1);
    lemma_mul_is_commutative(count as int, e2);
    assert(0 <= e1 < width && 0 <= e2 < width) by (nonlinear_arith)
        requires
            k1 == e1 * count + hit,
            k2 == e2 * count + hit,
            0 <= hit < count,
            0 <= k1 < count * width,
            0 <= k2 < count * width,
    ;
    assert forall|j: int| 0 <= j < hit implies correct_block(#[trigger] got_blocks[j], b)
        is Some by {
        assert forall|p: int| 0 <= p < width implies got_blocks[j][p] == sent_blocks[j][p] by {
            lemma_wire_index(p as nat, j as nat, count, width);
            assert(deinterleave(sent, count, width)[j][p] == sent[p * count + j]);
        }
        assert(agree_except(got_blocks[j], sent_blocks[j], 0));
        lemma_correct_near(got_blocks[j], sent_blocks[j], b);
    }
    assert(got_blocks[hit] =~= flip(flip(sent_blocks[hit], e1), e2)) by {
        assert forall|p: int| 0 <= p < width implies got_blocks[hit][p] == flip(
            flip(sent_blocks[hit], e1),
            e2,
        )[p] by {
            lemma_wire_index(p as nat, hit as nat, count, width);
            assert(deinterleave(sent, count, width)[hit][p] == sent[p * count + hit]);
        }
    }
    lemma_correct_double(sent_blocks[hit], b, e1, e2);
    lemma_none_before(got_blocks, b, hit as nat);
    assert(first_uncorrectable(got_blocks, b, (hit + 1) as nat) == Some(hit as nat));
    lemma_first_uncorrectable_stays(got_blocks, b, hit as nat, count);
}

/// Encoding protects the message: what it makes decodes to the message, as
/// it is, with any one bit turned over, and with any damage inside a run of
/// as many wire bits as there are blocks; with any two bits of one block
/// turned over it is refused, and that block named.
pub proof fn encoding_protects(codec: HammingECC, message: Seq<u8>)
    requires
        codec.well_formed(),
        message.len() < pow2(codec.length_field_bits()),
    ensures
        protects(
            codec.block_log_size(),
            codec.length_field_bits(),
            encoded(codec.block_log_size(), codec.length_field_bits(), message),
            message,
        ),
{
    let b = codec.block_log_size();
    let l = codec.length_field_bits();
    let wire = encoded(b, l, message);
    let count = block_count(b, l, message.len());
    round_trip(codec, message);
    assert forall|received: Seq<u8>| #[trigger]
        one_bit_flipped(received, wire) implies decoded(b, l, received) == Ok::<
        Seq<u8>,
        DecodeError,
    >(message) by {
        let k = choose|k: int|
            0 <= k < 8 * wire.len() && bytes_to_bits(received) == #[trigger] flip(
                bytes_to_bits(wire),
                k,
            );
        single_bit_tolerance(codec, message, received, k);
    }
    assert forall|received: Seq<u8>, start: int| #[trigger]
        differs_only_in_run(received, wire, start, count) implies decoded(b, l, received) == Ok::<
        Seq<u8>,
        DecodeError,
    >(message) by {
        burst_tolerance(codec, message, received, start);
    }
    assert forall|received: Seq<u8>, j: int| #[trigger]
        two_bits_flipped_in_block(received, wire, count, j) implies decoded(b, l, received)
        == Err::<Seq<u8>, DecodeError>(
        DecodeError::UncorrectableBlock { block_index: j as usize },
    ) by {
        let (k1, k2) = choose|k1: int, k2: int|
            0 <= k1 < 8 * wire.len() && 0 <= k2 < 8 * wire.len() && k1 != k2 && k1 % (count as int)
                == j && k2 % (count as int) == j && bytes_to_bits(received) == #[trigger] flip(
                flip(bytes_to_bits(wire), k1),
                k2,
            );
        double_bit_detection(codec, message, received, k1, k2);
    }
}

/// Where the overall check fails in the block at `hit` and in no other, one
/// block needs mending if `hit` is among the first `n` blocks, and none does
/// otherwise.
proof fn lemma_mended_blocks(blocks: Seq<Seq<bool>>, n: nat, hit: int)
    requires
        n <= blocks.len(),
        forall|j: int| 0 <= j < n ==> parity(#[trigger] blocks[j], 0, blocks[j].len()) == (j == hit),
    ensures
        mended_blocks(blocks, n) == if 0 <= hit < n {
            1nat
        } else {
            0nat
        },
    decreases n,
{
    if n > 0 {
        lemma_mended_blocks(blocks, (n - 1) as nat, hit);
        assert(parity(blocks[n - 1], 0, blocks[n - 1].len()) == (n - 1 == hit));
    }
}

/// Where each of the first `n` blocks can be mended, none of them is the
/// first that cannot.
proof fn lemma_none_before(blocks: Seq<Seq<bool>>, b: nat, n: nat)
    requires
        forall|j: int| 0 <= j < n ==> correct_block(#[trigger] blocks[j], b) is Some,
    ensures
        first_uncorrectable(blocks, b, n) is None,
    decreases n,
{
    if n > 0 {
        lemma_none_before(blocks, b, (n - 1) as nat);
    }
}

} // verus!
