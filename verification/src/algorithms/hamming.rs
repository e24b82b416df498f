//! The Hamming codec: one wrong bit in a block is mended, two are noticed.
//!
//! What the codec computes is stated in `model`; `laws` holds what follows
//! for every configuration and message.

use bit_vec::BitVec;
use vstd::arithmetic::power2::{lemma_pow2_adds, lemma_pow2_pos, lemma_pow2_unfold, pow2};
use vstd::prelude::*;

use crate::bits::{
    bit_of, bits_to_bytes, bits_value, bytes_to_bits, lemma_packed_by_bits, nat_to_bits,
    pow2_checked,
};
use crate::bitvec;
use crate::bitvec::bit_seq;
use crate::decrypt::TryDecrypt;
use crate::encrypt::TryEncrypt;

pub mod laws;
mod lemmas;
pub mod model;

use self::laws::{encoded_length, encoding_protects};

use self::lemmas::{
    lemma_bits_value_prefix, lemma_bits_value_step, lemma_block_has_payload, lemma_ceil_div,
    lemma_covers_all, lemma_covers_by_and, lemma_encode_block_len,
    lemma_first_uncorrectable_stays, lemma_pow2_monotone, lemma_power_of_two_by_and,
    lemma_rank_in_block, lemma_rank_monotone, lemma_rank_total, lemma_syndrome_bound,
    lemma_wire_index,
};
use self::model::{
    block_bits_data, block_bits_total, block_count, block_payload, correct_block,
    corrected_payload, decoded, deinterleave, encode_block, encode_blocks, encoded,
    first_uncorrectable, interleave, is_parity_position, mended_blocks, mended_in,
    message_of_payload, parity, protects,
    payload_bits, payload_rank, place_payload, syndrome, with_group_parities,
};

verus! {

/// Why a message could not be encoded.
#[derive(Debug, Clone, Copy, PartialEq, Eq, Structural)]
pub enum EncodeError {
    /// The length field cannot hold the message's length.
    MessageTooLarge {
        /// The longest message, in bytes, that the codec takes.
        max: usize,
        /// The length of the message that was given.
        actual: usize,
    },
}

/// Why a stream could not be decoded.
#[derive(Debug, Clone, Copy, PartialEq, Eq, Structural)]
pub enum DecodeError {
    /// The stream is not a whole number of blocks.
    Malformed,
    /// A block holds two wrong bits, which can be seen but not mended.
    UncorrectableBlock {
        /// The index of the first such block.
        block_index: usize,
    },
    /// The stream is shorter than the length field, or than the message
    /// length that the field declares.
    Truncated,
}

/// Hamming error-correcting block code.
///
/// A block holds `2^blk_log_size` bits: one overall parity bit at position 0,
/// one group parity bit at every power-of-two position, payload everywhere
/// else. The first `size_field_bits` payload bits of a stream carry the
/// message length in bytes.
pub struct HammingECC {
    blk_log_size: u8,
    size_field_bits: u8,
}

impl HammingECC {
    /// Base-2 logarithm of the block size in bits.
    pub closed spec fn block_log_size(&self) -> nat {
        self.blk_log_size as nat
    }

    /// Width in bits of the length prefix.
    pub closed spec fn length_field_bits(&self) -> nat {
        self.size_field_bits as nat
    }

    /// Every codec that exists has a block of at least eight bits and a
    /// length prefix of at least two.
    #[verifier::type_invariant]
    pub open spec fn well_formed(&self) -> bool {
        self.block_log_size() >= 3 && self.length_field_bits() >= 2
    }

    /// Creates a codec, or `None` unless `blk_log_size >= 3` and
    /// `size_field_bits >= 2`.
    pub fn new(blk_log_size: u8, size_field_bits: u8) -> (codec: Option<Self>)
        ensures
            codec.is_some() <==> blk_log_size >= 3 && size_field_bits >= 2,
            codec matches Some(c) ==> c.well_formed() && c.block_log_size() == blk_log_size
                && c.length_field_bits() == size_field_bits,
    {
        if blk_log_size >= 3 && size_field_bits >= 2 {
            Some(Self { blk_log_size, size_field_bits })
        } else {
            None
        }
    }

    /// The number of bits that a message of `n` bytes takes on the wire.
    pub open spec fn encoded_bit_count(&self, n: nat) -> nat {
        block_count(self.block_log_size(), self.length_field_bits(), n) * block_bits_total(
            self.block_log_size(),
        )
    }

    /// How a message of `message_len` bytes is cut up: the bits in a block,
    /// the payload bits in a block, and the number of blocks; or `None` where
    /// the bits of all blocks together cannot be counted in `usize`.
    fn layout(&self, message_len: usize) -> (plan: Option<(usize, usize, usize)>)
        ensures
            match plan {
                Some((width, data, count)) => {
                    &&& width == block_bits_total(self.block_log_size())
                    &&& data == block_bits_data(self.block_log_size())
                    &&& count == block_count(
                        self.block_log_size(),
                        self.length_field_bits(),
                        message_len as nat,
                    )
                    &&& 8 * message_len + self.length_field_bits() <= count * data
                    &&& count * data <= count * width
                    &&& count * width <= usize::MAX
                    &&& (count * width) % 8 == 0
                },
                None => self.encoded_bit_count(message_len as nat) > usize::MAX,
            },
    {
        proof {
            use_type_invariant(self);
        }
        let b = self.blk_log_size;
        let l = self.size_field_bits;
        let ghost data_bits = block_bits_data(b as nat);
        let ghost width_bits = block_bits_total(b as nat);
        let ghost blocks_needed = block_count(b as nat, l as nat, message_len as nat);
        proof {
            lemma_block_has_payload(b as nat);
            lemma_ceil_div((8 * message_len + l) as nat, data_bits);
            assert(blocks_needed >= 1) by (nonlinear_arith)
                requires
                    blocks_needed * data_bits >= 8 * message_len + l,
                    l >= 2,
                    data_bits > 0,
            ;
            assert(blocks_needed * data_bits <= blocks_needed * width_bits) by (nonlinear_arith)
                requires
                    data_bits <= width_bits,
            ;
            assert(width_bits <= blocks_needed * width_bits) by (nonlinear_arith)
                requires
                    blocks_needed >= 1,
            ;
        }
        let width = match pow2_checked(b) {
            Some(width) => width,
            None => {
                return None;
            },
        };
        let data = width - (b as usize) - 1;
        if message_len > (usize::MAX - l as usize) / 8 {
            return None;
        }
        let total = 8 * message_len + (l as usize);
        proof {
            let whole = (total / data) as int;
            vstd::arithmetic::div_mod::lemma_fundamental_div_mod(total as int, data as int);
            assert(whole < usize::MAX) by (nonlinear_arith)
                requires
                    total == data * whole + (total % data),
                    0 <= (total % data),
                    data >= 4,
                    0 <= whole,
                    total <= usize::MAX,
            ;
        }
        let count = total / data + if total % data == 0 {
            0
        } else {
            1
        };
        match count.checked_mul(width) {
            Some(_) => {
                proof {
                    lemma_pow2_adds(3, (b - 3) as nat);
                    vstd::arithmetic::power2::lemma2_to64();
                    let eighth = pow2((b - 3) as nat);
                    assert(count * (8 * eighth) == 8 * (count * eighth)) by (nonlinear_arith);
                }
                Some((width, data, count))
            },
            None => None,
        }
    }

    /// The number of bytes that a message of `message_len` bytes takes on the
    /// wire, or `None` where its bits cannot be counted in `usize`: such a
    /// message is beyond what `encode` can be asked for.
    pub fn encoded_len(&self, message_len: usize) -> (len: Option<usize>)
        ensures
            match len {
                Some(bytes) => 8 * bytes == self.encoded_bit_count(message_len as nat)
                    && self.encoded_bit_count(message_len as nat) <= usize::MAX,
                None => self.encoded_bit_count(message_len as nat) > usize::MAX,
            },
    {
        match self.layout(message_len) {
            Some((width, _, count)) => Some(count * width / 8),
            None => None,
        }
    }

    /// Encodes a message: the length and the message bits are cut into
    /// blocks, every block gets its parity bits, and the blocks are laid out
    /// interleaved and packed into bytes.
    ///
    /// A message whose length the length field cannot hold is refused. For
    /// any other message the bits of the result must be countable in `usize`.
    pub fn encode(&self, message: &[u8]) -> (out: Result<Vec<u8>, EncodeError>)
        requires
            message@.len() < pow2(self.length_field_bits()) ==> self.encoded_bit_count(
                message@.len(),
            ) <= usize::MAX,
        ensures
            match out {
                Ok(bytes) => message@.len() < pow2(self.length_field_bits()) && bytes@ == encoded(
                    self.block_log_size(),
                    self.length_field_bits(),
                    message@,
                ),
                Err(EncodeError::MessageTooLarge { max, actual }) => message@.len() >= pow2(
                    self.length_field_bits(),
                ) && max == pow2(self.length_field_bits()) - 1 && actual == message@.len(),
            },
            out matches Ok(bytes) ==> 8 * bytes@.len() == self.encoded_bit_count(message@.len())
                && protects(
                self.block_log_size(),
                self.length_field_bits(),
                bytes@,
                message@,
            ),
    {
        proof {
            use_type_invariant(self);
        }
        let b = self.blk_log_size;
        let l = self.size_field_bits;
        let n = message.len();
        match pow2_checked(l) {
            Some(limit) => {
                proof {
                    lemma_pow2_pos(l as nat);
                }
                if n >= limit {
                    return Err(EncodeError::MessageTooLarge { max: limit - 1, actual: n });
                }
            },
            None => {},
        }
        let (width, data, count) = match self.layout(n) {
            Some(plan) => plan,
            None => vstd::pervasive::unreached(),
        };
        let stream = payload_stream(message, l);
        let mut blocks: Vec<BitVec> = Vec::with_capacity(count);
        let mut c: usize = 0;
        while c < count
            invariant
                c <= count,
                b >= 3,
                width == block_bits_total(b as nat),
                data == block_bits_data(b as nat),
                count * data <= usize::MAX,
                blocks@.len() == c,
                bit_seq(stream) == payload_bits(l as nat, message@),
                forall|j: int|
                    0 <= j < c ==> bit_seq(#[trigger] blocks@[j]) == encode_block(
                        bit_seq(stream),
                        (j * data) as nat,
                        b as nat,
                    ),
            decreases count - c,
        {
            assert(c * data + data <= count * data) by (nonlinear_arith)
                requires
                    c < count,
            ;
            let block = build_block(&stream, c * data, b, width);
            blocks.push(block);
            c = c + 1;
        }
        assert(bit_seqs(blocks@) =~= encode_blocks(b as nat, l as nat, message@));
        proof {
            assert forall|j: int| 0 <= j < count implies bit_seq(#[trigger] blocks@[j]).len()
                == width by {
                assert(bit_seq(blocks@[j]) == encode_block(
                    bit_seq(stream),
                    (j * data) as nat,
                    b as nat,
                ));
                lemma_encode_block_len(bit_seq(stream), (j * data) as nat, b as nat);
            }
        }
        let wire = interleave_blocks(&blocks, width);
        proof {
            encoded_length(*self, message@);
            encoding_protects(*self, message@);
        }
        Ok(pack(&wire))
    }

    /// Decodes a stream: the blocks are taken out of the interleaved bits,
    /// each block has its single wrong bit mended, and the message is read
    /// off the payload by its length field.
    ///
    /// The bits of the stream must be countable in `usize`.
    pub fn decode(&self, wire: &[u8]) -> (out: Result<Vec<u8>, DecodeError>)
        requires
            wire@.len() * 8 <= usize::MAX,
        ensures
            match out {
                Ok(message) => decoded(self.block_log_size(), self.length_field_bits(), wire@)
                    == Ok::<Seq<u8>, DecodeError>(message@),
                Err(e) => decoded(self.block_log_size(), self.length_field_bits(), wire@)
                    == Err::<Seq<u8>, DecodeError>(e),
            },
    {
        match self.decode_counting(wire) {
            Ok((message, _)) => Ok(message),
            Err(e) => Err(e),
        }
    }

    /// Decodes a stream as `decode` does, and tells beside the message how
    /// many blocks had a wrong bit mended on the way.
    ///
    /// The bits of the stream must be countable in `usize`.
    pub fn decode_counting(&self, wire: &[u8]) -> (out: Result<(Vec<u8>, usize), DecodeError>)
        requires
            wire@.len() * 8 <= usize::MAX,
        ensures
            match out {
                Ok((message, mended)) => decoded(
                    self.block_log_size(),
                    self.length_field_bits(),
                    wire@,
                ) == Ok::<Seq<u8>, DecodeError>(message@) && mended == mended_in(
                    self.block_log_size(),
                    wire@,
                ),
                Err(e) => decoded(self.block_log_size(), self.length_field_bits(), wire@)
                    == Err::<Seq<u8>, DecodeError>(e),
            },
    {
        proof {
            use_type_invariant(self);
        }
        let b = self.blk_log_size;
        let l = self.size_field_bits;
        let bits = bitvec::from_bytes(wire);
        assert(bit_seq(bits) =~= bytes_to_bits(wire@));
        let bit_count = bitvec::len(&bits);
        let width = match pow2_checked(b) {
            Some(width) => width,
            None => {
                proof {
                    vstd::arithmetic::div_mod::lemma_small_mod(
                        bit_count as nat,
                        block_bits_total(b as nat),
                    );
                    vstd::arithmetic::div_mod::lemma_basic_div(
                        bit_count as int,
                        block_bits_total(b as nat) as int,
                    );
                }
                if bit_count != 0 {
                    return Err(DecodeError::Malformed);
                }
                return Err(DecodeError::Truncated);
            },
        };
        proof {
            lemma_pow2_pos(b as nat);
        }
        if bit_count % width != 0 {
            return Err(DecodeError::Malformed);
        }
        let count = bit_count / width;
        let ghost blocks = deinterleave(bit_seq(bits), count as nat, width as nat);
        proof {
            vstd::arithmetic::div_mod::lemma_fundamental_div_mod(bit_count as int, width as int);
            assert(count * width == bit_count) by (nonlinear_arith)
                requires
                    bit_count == width * count + 0,
            ;
        }
        let mut payload = bitvec::with_capacity(bit_count);
        let mut mended: usize = 0;
        let mut j: usize = 0;
        while j < count
            invariant
                j <= count,
                mended <= j,
                mended == mended_blocks(blocks, j as nat),
                b >= 3,
                b == self.blk_log_size,
                l == self.size_field_bits,
                width == block_bits_total(b as nat),
                count * width == bit_count,
                count == bit_count / width,
                bit_count % width == 0,
                bit_count == bit_seq(bits).len(),
                bit_seq(bits) == bytes_to_bits(wire@),
                blocks == deinterleave(bit_seq(bits), count as nat, width as nat),
                first_uncorrectable(blocks, b as nat, j as nat) is None,
                bit_seq(payload) == corrected_payload(blocks, b as nat, j as nat),
                bit_seq(payload).len() <= j * width,
            decreases count - j,
        {
            proof {
                assert(j * width + width <= count * width) by (nonlinear_arith)
                    requires
                        j < count,
                ;
            }
            let mut block = take_block(&bits, j, count, width);
            assert(bit_seq(block) == blocks[j as int]);
            match correct(&mut block, b, width) {
                Verdict::Clean => {},
                Verdict::Mended => {
                    mended = mended + 1;
                },
                Verdict::Uncorrectable => {
                    proof {
                        assert(correct_block(blocks[j as int], b as nat) is None);
                        assert(first_uncorrectable(blocks, b as nat, (j + 1) as nat) == Some(
                            j as nat,
                        ));
                        lemma_first_uncorrectable_stays(blocks, b as nat, j as nat, count as nat);
                    }
                    return Err(DecodeError::UncorrectableBlock { block_index: j });
                },
            }
            append_payload(&mut payload, &block, width);
            assert((j + 1) * width == j * width + width) by (nonlinear_arith);
            j = j + 1;
        }
        match read_message(&payload, l) {
            Ok(message) => Ok((message, mended)),
            Err(e) => Err(e),
        }
    }

    /// Encodes a message wherever `encode` can be asked to: `None` is left
    /// for the messages whose encoded bits cannot be counted in `usize`.
    pub fn checked_encode(&self, message: &[u8]) -> (out: Option<Result<Vec<u8>, EncodeError>>)
        ensures
            out is Some <==> self.can_encrypt(message@),
            match out {
                Some(Ok(bytes)) => self.try_encrypted(message@) == Ok::<Seq<u8>, EncodeError>(
                    bytes@,
                ),
                Some(Err(e)) => self.try_encrypted(message@) == Err::<Seq<u8>, EncodeError>(e),
                None => true,
            },
            out matches Some(Ok(bytes)) ==> self.can_decrypt(bytes@) && protects(
                self.block_log_size(),
                self.length_field_bits(),
                bytes@,
                message@,
            ),
    {
        let too_long = match pow2_checked(self.size_field_bits) {
            Some(limit) => message.len() >= limit,
            None => false,
        };
        if too_long || self.encoded_len(message.len()).is_some() {
            Some(self.encode(message))
        } else {
            None
        }
    }

    /// Decodes a stream wherever `decode` can be asked to: `None` is left
    /// for the streams whose bits cannot be counted in `usize`.
    pub fn checked_decode(&self, wire: &[u8]) -> (out: Option<Result<Vec<u8>, DecodeError>>)
        ensures
            out is Some <==> self.can_decrypt(wire@),
            match out {
                Some(Ok(message)) => self.try_decrypted(wire@) == Ok::<Seq<u8>, DecodeError>(
                    message@,
                ),
                Some(Err(e)) => self.try_decrypted(wire@) == Err::<Seq<u8>, DecodeError>(e),
                None => true,
            },
    {
        if wire.len() <= usize::MAX / 8 {
            Some(self.decode(wire))
        } else {
            None
        }
    }
}

impl TryEncrypt for HammingECC {
    type ErrorType = EncodeError;

    /// The bits of the encoded message must be countable in `usize`.
    open spec fn can_encrypt(&self, data: Seq<u8>) -> bool {
        data.len() < pow2(self.length_field_bits()) ==> self.encoded_bit_count(data.len())
            <= usize::MAX
    }

    /// The encoded message, or the refusal of a message that is too long for
    /// the length field.
    open spec fn try_encrypted(&self, data: Seq<u8>) -> Result<Seq<u8>, EncodeError> {
        if data.len() < pow2(self.length_field_bits()) {
            Ok(encoded(self.block_log_size(), self.length_field_bits(), data))
        } else {
            Err(
                EncodeError::MessageTooLarge {
                    max: (pow2(self.length_field_bits()) - 1) as usize,
                    actual: data.len() as usize,
                },
            )
        }
    }

    /// What comes out is fit to be decoded, and protects the data.
    fn try_encrypt(&self, data_to_encrypt: Vec<u8>) -> (out: Result<Vec<u8>, EncodeError>)
        ensures
            out matches Ok(bytes) ==> self.can_decrypt(bytes@) && protects(
                self.block_log_size(),
                self.length_field_bits(),
                bytes@,
                data_to_encrypt@,
            ),
    {
        self.encode(data_to_encrypt.as_slice())
    }
}

impl TryDecrypt for HammingECC {
    type ErrorType = DecodeError;

    /// The bits of the stream must be countable in `usize`.
    open spec fn can_decrypt(&self, data: Seq<u8>) -> bool {
        data.len() * 8 <= usize::MAX
    }

    /// The message that the stream carries, or the reason why it carries
    /// none.
    open spec fn try_decrypted(&self, data: Seq<u8>) -> Result<Seq<u8>, DecodeError> {
        decoded(self.block_log_size(), self.length_field_bits(), data)
    }

    fn try_decrypt(&self, encrypted_data: Vec<u8>) -> (out: Result<Vec<u8>, DecodeError>) {
        self.decode(encrypted_data.as_slice())
    }
}

/// The bit contents of a row of bit vectors.
pub open spec fn bit_seqs(blocks: Seq<BitVec>) -> Seq<Seq<bool>> {
    Seq::new(blocks.len(), |j: int| bit_seq(blocks[j]))
}

/// The stream that encoding cuts into blocks: the message length in `l`
/// bits, most significant first, then the bits of the message.
fn payload_stream(message: &[u8], l: u8) -> (stream: BitVec)
    requires
        8 * message@.len() + l <= usize::MAX,
    ensures
        bit_seq(stream) == payload_bits(l as nat, message@),
{
    let n = message.len();
    let ghost length_bits = nat_to_bits(n as nat, l as nat);
    let ghost message_bits = bytes_to_bits(message@);
    let mut stream = bitvec::with_capacity(8 * n + (l as usize));
    let mut i: u8 = 0;
    while i < l
        invariant
            i <= l,
            length_bits == nat_to_bits(n as nat, l as nat),
            bit_seq(stream) == length_bits.subrange(0, i as int),
        decreases l - i,
    {
        let bit = bit_of(n, l - 1 - i);
        bitvec::push(&mut stream, bit);
        assert(bit_seq(stream) =~= length_bits.subrange(0, i + 1));
        i = i + 1;
    }
    assert(bit_seq(stream) =~= length_bits);
    let unpacked = bitvec::from_bytes(message);
    assert(bit_seq(unpacked) =~= message_bits);
    let mut k: usize = 0;
    while k < 8 * n
        invariant
            k <= 8 * n,
            n == message@.len(),
            8 * n + l <= usize::MAX,
            length_bits.len() == l,
            message_bits.len() == 8 * n,
            bit_seq(unpacked) == message_bits,
            bit_seq(stream) == length_bits + message_bits.subrange(0, k as int),
        decreases 8 * n - k,
    {
        match bitvec::get(&unpacked, k) {
            Some(bit) => {
                bitvec::push(&mut stream, bit);
            },
            None => {},
        }
        assert(bit_seq(stream) =~= length_bits + message_bits.subrange(0, k + 1));
        k = k + 1;
    }
    assert(bit_seq(stream) =~= length_bits + message_bits);
    stream
}

/// Lays blocks of `width` bits out position by position: bit 0 of every
/// block, then bit 1 of every block, and so on.
fn interleave_blocks(blocks: &Vec<BitVec>, width: usize) -> (wire: BitVec)
    requires
        blocks@.len() * width <= usize::MAX,
        forall|j: int| 0 <= j < blocks@.len() ==> bit_seq(#[trigger] blocks@[j]).len() == width,
    ensures
        bit_seq(wire) == interleave(bit_seqs(blocks@), width as nat),
{
    let count = blocks.len();
    let ghost target = interleave(bit_seqs(blocks@), width as nat);
    let mut wire = bitvec::with_capacity(count * width);
    let mut i: usize = 0;
    while i < width
        invariant
            i <= width,
            count == blocks@.len(),
            count * width <= usize::MAX,
            forall|j: int| 0 <= j < count ==> bit_seq(#[trigger] blocks@[j]).len() == width,
            target == interleave(bit_seqs(blocks@), width as nat),
            bit_seq(wire) == target.subrange(0, i * count),
        decreases width - i,
    {
        let mut j: usize = 0;
        while j < count
            invariant
                i < width,
                j <= count,
                count == blocks@.len(),
                count * width <= usize::MAX,
                forall|j: int| 0 <= j < count ==> bit_seq(#[trigger] blocks@[j]).len() == width,
                target == interleave(bit_seqs(blocks@), width as nat),
                bit_seq(wire) == target.subrange(0, i * count + j),
            decreases count - j,
        {
            proof {
                lemma_wire_index(i as nat, j as nat, count as nat, width as nat);
                assert(bit_seq(blocks@[j as int]).len() == width);
            }
            match bitvec::get(&blocks[j], i) {
                Some(bit) => {
                    bitvec::push(&mut wire, bit);
                },
                None => {},
            }
            assert(bit_seq(wire) =~= target.subrange(0, i * count + j + 1));
            j = j + 1;
        }
        assert((i + 1) * count == i * count + count) by (nonlinear_arith);
        i = i + 1;
    }
    assert(width * count == count * width) by (nonlinear_arith);
    assert(bit_seq(wire) =~= target);
    wire
}

/// Packs bits into bytes, most significant bit first; the last byte is
/// filled up with zeros.
fn pack(bits: &BitVec) -> (bytes: Vec<u8>)
    ensures
        bytes@ == bits_to_bytes(bit_seq(*bits)),
{
    let bytes = bitvec::to_bytes(bits);
    proof {
        lemma_packed_by_bits(bytes@, bit_seq(*bits));
    }
    bytes
}

/// Whether a position holds parity: position 0 and the powers of two.
fn holds_parity(p: usize) -> (r: bool)
    ensures
        r == is_parity_position(p as nat),
{
    if p == 0 {
        true
    } else {
        proof {
            lemma_power_of_two_by_and(p);
        }
        p & (p - 1) == 0
    }
}

/// Exclusive or of the bits of `block` at the positions that `mask` covers.
fn check_parity(block: &BitVec, mask: usize) -> (odd: bool)
    requires
        is_parity_position(mask as nat),
    ensures
        odd == parity(bit_seq(*block), mask as nat, bit_seq(*block).len()),
{
    let n = bitvec::len(block);
    let mut odd = false;
    let mut p: usize = 0;
    while p < n
        invariant
            p <= n,
            n == bit_seq(*block).len(),
            is_parity_position(mask as nat),
            odd == parity(bit_seq(*block), mask as nat, p as nat),
        decreases n - p,
    {
        proof {
            if mask == 0 {
                lemma_covers_all(p);
            } else {
                let i = choose|i: nat| mask == pow2(i);
                lemma_covers_by_and(p, mask, i);
            }
        }
        if p & mask == mask {
            match bitvec::get(block, p) {
                Some(bit) => {
                    odd = odd != bit;
                },
                None => {},
            }
        }
        p = p + 1;
    }
    odd
}

/// Builds the block of `2^b` bits that carries the payload found in `stream`
/// from `offset` on.
fn build_block(stream: &BitVec, offset: usize, b: u8, width: usize) -> (block: BitVec)
    requires
        b >= 3,
        width == block_bits_total(b as nat),
        offset + block_bits_data(b as nat) <= usize::MAX,
    ensures
        bit_seq(block) == encode_block(bit_seq(*stream), offset as nat, b as nat),
{
    let ghost placed = place_payload(bit_seq(*stream), offset as nat, b as nat);
    let stream_len = bitvec::len(stream);
    let mut block = bitvec::with_capacity(width);
    let mut taken: usize = 0;
    let mut p: usize = 0;
    while p < width
        invariant
            p <= width,
            width == block_bits_total(b as nat),
            offset + block_bits_data(b as nat) <= usize::MAX,
            stream_len == bit_seq(*stream).len(),
            placed == place_payload(bit_seq(*stream), offset as nat, b as nat),
            taken == payload_rank(p as nat),
            taken <= block_bits_data(b as nat),
            bit_seq(block) == placed.subrange(0, p as int),
        decreases width - p,
    {
        let bit = if holds_parity(p) {
            false
        } else {
            proof {
                lemma_rank_in_block(b as nat, p as nat);
            }
            let from = offset + taken;
            taken = taken + 1;
            match bitvec::get(stream, from) {
                Some(bit) => bit,
                None => false,
            }
        };
        bitvec::push(&mut block, bit);
        assert(bit_seq(block) =~= placed.subrange(0, p + 1));
        p = p + 1;
        proof {
            lemma_rank_total(b as nat);
            lemma_rank_monotone(p as nat, width as nat);
        }
    }
    assert(bit_seq(block) =~= placed);
    let mut mask: usize = 1;
    let mut i: u8 = 0;
    proof {
        vstd::arithmetic::power2::lemma2_to64();
    }
    while i < b
        invariant
            i <= b,
            width == block_bits_total(b as nat),
            mask == pow2(i as nat),
            bit_seq(block).len() == width,
            bit_seq(block) == with_group_parities(placed, i as nat),
        decreases b - i,
    {
        proof {
            lemma_pow2_strictly_increases_to(i as nat, b as nat);
            lemma_pow2_unfold((i + 1) as nat);
        }
        let odd = check_parity(&block, mask);
        bitvec::set(&mut block, mask, odd);
        i = i + 1;
        mask = mask * 2;
    }
    proof {
        lemma_pow2_pos(b as nat);
    }
    let odd = check_parity(&block, 0);
    bitvec::set(&mut block, 0, odd);
    block
}

/// Below `b`, a power of two and its double stay within `2^b`.
proof fn lemma_pow2_strictly_increases_to(i: nat, b: nat)
    requires
        i < b,
    ensures
        pow2(i) < pow2(b),
        pow2(i + 1) <= pow2(b),
{
    lemma_pow2_monotone(i + 1, b);
    vstd::arithmetic::power2::lemma_pow2_strictly_increases(i, b);
}

/// Takes block `j` out of `count` interleaved blocks of `width` bits.
fn take_block(wire: &BitVec, j: usize, count: usize, width: usize) -> (block: BitVec)
    requires
        j < count,
        count * width == bit_seq(*wire).len(),
        count * width <= usize::MAX,
    ensures
        bit_seq(block) == deinterleave(bit_seq(*wire), count as nat, width as nat)[j as int],
{
    let ghost target = deinterleave(bit_seq(*wire), count as nat, width as nat)[j as int];
    let mut block = bitvec::with_capacity(width);
    let mut i: usize = 0;
    while i < width
        invariant
            i <= width,
            j < count,
            count * width == bit_seq(*wire).len(),
            count * width <= usize::MAX,
            target == deinterleave(bit_seq(*wire), count as nat, width as nat)[j as int],
            bit_seq(block) == target.subrange(0, i as int),
        decreases width - i,
    {
        proof {
            lemma_wire_index(i as nat, j as nat, count as nat, width as nat);
        }
        match bitvec::get(wire, i * count + j) {
            Some(bit) => {
                bitvec::push(&mut block, bit);
            },
            None => {},
        }
        assert(bit_seq(block) =~= target.subrange(0, i + 1));
        i = i + 1;
    }
    assert(bit_seq(block) =~= target);
    block
}

/// What checking a block finds.
enum Verdict {
    /// Every check holds.
    Clean,
    /// The overall check fails: one bit is wrong, and the syndrome tells
    /// which.
    Mended,
    /// The overall check holds and a group check fails: two bits are wrong.
    Uncorrectable,
}

/// Checks a block and mends its single wrong bit. Where two bits are wrong,
/// the block is left as it was.
fn correct(block: &mut BitVec, b: u8, width: usize) -> (verdict: Verdict)
    requires
        width == block_bits_total(b as nat),
        bit_seq(*old(block)).len() == width,
    ensures
        match correct_block(bit_seq(*old(block)), b as nat) {
            Some(fixed) => !(verdict is Uncorrectable) && bit_seq(*final(block)) == fixed,
            None => verdict is Uncorrectable && bit_seq(*final(block)) == bit_seq(*old(block)),
        },
        verdict is Mended <==> parity(bit_seq(*old(block)), 0, width as nat),
        bit_seq(*final(block)).len() == width,
{
    let ghost received = bit_seq(*block);
    let mut at: usize = 0;
    let mut mask: usize = 1;
    let mut i: u8 = 0;
    proof {
        vstd::arithmetic::power2::lemma2_to64();
    }
    while i < b
        invariant
            i <= b,
            width == block_bits_total(b as nat),
            mask == pow2(i as nat),
            received == bit_seq(*block),
            received.len() == width,
            at == syndrome(received, i as nat),
        decreases b - i,
    {
        proof {
            lemma_pow2_strictly_increases_to(i as nat, b as nat);
            lemma_pow2_unfold((i + 1) as nat);
            lemma_syndrome_bound(received, i as nat);
        }
        if check_parity(block, mask) {
            at = at + mask;
        }
        i = i + 1;
        mask = mask * 2;
    }
    proof {
        lemma_syndrome_bound(received, b as nat);
    }
    if check_parity(block, 0) {
        match bitvec::get(block, at) {
            Some(bit) => {
                bitvec::set(block, at, !bit);
            },
            None => {},
        }
        Verdict::Mended
    } else if at == 0 {
        Verdict::Clean
    } else {
        Verdict::Uncorrectable
    }
}

/// Appends the payload bits of a block, lowest position first.
fn append_payload(payload: &mut BitVec, block: &BitVec, width: usize)
    requires
        bit_seq(*block).len() == width,
        bit_seq(*old(payload)).len() + width <= usize::MAX,
    ensures
        bit_seq(*final(payload)) == bit_seq(*old(payload)) + block_payload(
            bit_seq(*block),
            width as nat,
        ),
        bit_seq(*final(payload)).len() <= bit_seq(*old(payload)).len() + width,
{
    let ghost before = bit_seq(*payload);
    let mut p: usize = 0;
    while p < width
        invariant
            p <= width,
            bit_seq(*block).len() == width,
            before.len() + width <= usize::MAX,
            bit_seq(*payload) == before + block_payload(bit_seq(*block), p as nat),
            bit_seq(*payload).len() <= before.len() + p,
        decreases width - p,
    {
        if !holds_parity(p) {
            match bitvec::get(block, p) {
                Some(bit) => {
                    bitvec::push(payload, bit);
                },
                None => {},
            }
        }
        assert(bit_seq(*payload) =~= before + block_payload(bit_seq(*block), (p + 1) as nat));
        p = p + 1;
    }
}

/// Reads the message off a corrected payload stream: the length in the first
/// `l` bits, then that many bytes.
fn read_message(payload: &BitVec, l: u8) -> (out: Result<Vec<u8>, DecodeError>)
    ensures
        match out {
            Ok(message) => message_of_payload(l as nat, bit_seq(*payload)) == Ok::<
                Seq<u8>,
                DecodeError,
            >(message@),
            Err(e) => message_of_payload(l as nat, bit_seq(*payload)) == Err::<
                Seq<u8>,
                DecodeError,
            >(e),
        },
{
    let ghost stream = bit_seq(*payload);
    let ghost field = stream.subrange(0, l as int);
    let size = bitvec::len(payload);
    if size < l as usize {
        return Err(DecodeError::Truncated);
    }
    let room = (size - l as usize) / 8;
    let mut n: usize = 0;
    let mut i: u8 = 0;
    assert(field.subrange(0, 0) =~= Seq::<bool>::empty());
    while i < l
        invariant
            i <= l,
            l <= size,
            size == stream.len(),
            stream == bit_seq(*payload),
            field == stream.subrange(0, l as int),
            room == (size - l) / 8,
            n == bits_value(field.subrange(0, i as int)),
            n <= room,
        decreases l - i,
    {
        proof {
            lemma_bits_value_step(field, i as int);
        }
        let bit = match bitvec::get(payload, i as usize) {
            Some(bit) => bit,
            None => false,
        };
        n = 2 * n + if bit {
            1
        } else {
            0
        };
        i = i + 1;
        if n > room {
            proof {
                lemma_bits_value_prefix(field, i as int, l as int);
                assert(field.subrange(0, l as int) =~= field);
            }
            return Err(DecodeError::Truncated);
        }
    }
    assert(field.subrange(0, l as int) =~= field);
    let ghost body = stream.subrange(l as int, l + 8 * n);
    let mut message_bits = bitvec::with_capacity(8 * n);
    let mut k: usize = 0;
    while k < 8 * n
        invariant
            k <= 8 * n,
            l + 8 * n <= size,
            size == stream.len(),
            stream == bit_seq(*payload),
            body == stream.subrange(l as int, l + 8 * n),
            bit_seq(message_bits) == body.subrange(0, k as int),
        decreases 8 * n - k,
    {
        match bitvec::get(payload, l as usize + k) {
            Some(bit) => {
                bitvec::push(&mut message_bits, bit);
            },
            None => {},
        }
        assert(bit_seq(message_bits) =~= body.subrange(0, k + 1));
        k = k + 1;
    }
    assert(bit_seq(message_bits) =~= body);
    Ok(pack(&message_bits))
}

} // verus!
