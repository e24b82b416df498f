//! Facts about block layout and parity checks that the codec's code and its
//! laws rest on.

use vstd::arithmetic::div_mod::*;
use vstd::arithmetic::mul::*;
use vstd::arithmetic::power2::*;
use vstd::prelude::*;

use crate::algorithms::hamming::model::{
    agree_except, block_bits_data, block_bits_total, block_payload, correct_block, covers,
    differ_at_most_once, encode_block, first_uncorrectable, flip, is_parity_position, parity,
    payload_rank, place_payload, syndrome, valid_block, with_group_parities,
};
use crate::bits::{bits_value, nat_bit, nat_to_bits, padded_bit};

verus! {

/// From three on, `2^b` exceeds `b` by at least five: a block has room for
/// payload.
pub proof fn lemma_block_has_payload(b: nat)
    requires
        b >= 3,
    ensures
        pow2(b) >= b + 5,
        block_bits_data(b) >= 4,
        block_bits_data(b) < block_bits_total(b),
    decreases b,
{
    if b == 3 {
        lemma2_to64();
    } else {
        lemma_block_has_payload((b - 1) as nat);
        lemma_pow2_unfold(b);
    }
}

/// Powers of two grow with the exponent.
pub proof fn lemma_pow2_monotone(i: nat, j: nat)
    requires
        i <= j,
    ensures
        pow2(i) <= pow2(j),
{
    if i < j {
        lemma_pow2_strictly_increases(i, j);
    }
}

/// Strictly between two neighbouring powers of two lies no power of two.
pub proof fn lemma_between_powers(k: nat, p: nat)
    requires
        pow2(k) < p < pow2(k + 1),
    ensures
        !is_parity_position(p),
{
    lemma_pow2_pos(k);
    assert forall|i: nat| p != pow2(i) by {
        if i <= k {
            lemma_pow2_monotone(i, k);
        } else {
            lemma_pow2_monotone(k + 1, i);
        }
    }
}

/// Between `2^k` and `2^(k+1)` every position carries payload.
pub proof fn lemma_rank_between(k: nat, p: nat)
    requires
        pow2(k) < p <= pow2(k + 1),
    ensures
        payload_rank(p) == payload_rank(pow2(k)) + p - pow2(k) - 1,
    decreases p,
{
    if p == pow2(k) + 1 {
        assert(is_parity_position(pow2(k)));
    } else {
        lemma_rank_between(k, (p - 1) as nat);
        lemma_between_powers(k, (p - 1) as nat);
    }
}

/// A block of `2^b` bits has `2^b - b - 1` payload positions.
pub proof fn lemma_rank_total(b: nat)
    ensures
        payload_rank(pow2(b)) == pow2(b) - b - 1,
    decreases b,
{
    lemma2_to64();
    if b == 0 {
        assert(payload_rank(1) == payload_rank(0) + 0) by {
            assert(is_parity_position(0));
        }
    } else {
        lemma_rank_total((b - 1) as nat);
        lemma_pow2_unfold(b);
        lemma_pow2_pos((b - 1) as nat);
        lemma_rank_between((b - 1) as nat, pow2(b));
    }
}

/// The rank never falls as the position rises.
pub proof fn lemma_rank_monotone(p: nat, q: nat)
    requires
        p <= q,
    ensures
        payload_rank(p) <= payload_rank(q),
    decreases q,
{
    if p < q {
        lemma_rank_monotone(p, (q - 1) as nat);
    }
}

/// The rank of a payload position inside a block is below the block's payload
/// size.
pub proof fn lemma_rank_in_block(b: nat, p: nat)
    requires
        p < pow2(b),
        !is_parity_position(p),
    ensures
        payload_rank(p) < block_bits_data(b),
{
    lemma_rank_monotone(p + 1, pow2(b));
    lemma_rank_total(b);
}

/// For a mask that is a power of two, the test `p & mask == mask` picks the
/// positions that the mask covers.
pub proof fn lemma_covers_by_and(p: usize, mask: usize, i: nat)
    requires
        mask == pow2(i),
    ensures
        (p & mask == mask) == covers(mask as nat, p as nat),
    decreases i,
{
    lemma_pow2_pos(i);
    if i == 0 {
        lemma2_to64();
        assert((p & 1 == 1) == (p % 2 == 1)) by (bit_vector);
        assert((p as nat) / 1 == p as nat);
    } else {
        lemma_pow2_unfold(i);
        lemma_pow2_pos((i - 1) as nat);
        let half_mask = mask / 2;
        let half_p = p / 2;
        assert((p & mask == mask) == (half_p & half_mask == half_mask)) by (bit_vector)
            requires
                mask % 2 == 0,
                half_mask == mask / 2,
                half_p == p / 2,
        ;
        lemma_covers_by_and(half_p, half_mask, (i - 1) as nat);
        lemma_div_denominator(p as int, 2, half_mask as int);
    }
}

/// The overall check covers every position, and so does the test with mask 0.
pub proof fn lemma_covers_all(p: usize)
    ensures
        p & 0 == 0,
        covers(0, p as nat),
{
    assert(p & 0 == 0) by (bit_vector);
}

/// A number above 0 is a power of two exactly if it shares no binary digit
/// with its predecessor.
pub proof fn lemma_power_of_two_by_and(p: usize)
    requires
        p > 0,
    ensures
        (p & ((p - 1) as usize) == 0) == (exists|i: nat| p == pow2(i)),
    decreases p,
{
    lemma2_to64();
    if p == 1 {
        assert(1usize & 0usize == 0) by (bit_vector);
        assert(p == pow2(0));
    } else {
        let half = p / 2;
        let pred = (p - 1) as usize;
        let half_pred = (half - 1) as usize;
        assert((p & pred == 0) == (p % 2 == 0 && half & half_pred == 0)) by (bit_vector)
            requires
                p > 1,
                half == p / 2,
                pred == p - 1,
                half_pred == half - 1,
        ;
        lemma_power_of_two_by_and(half);
        if exists|i: nat| p == pow2(i) {
            let i = choose|i: nat| p == pow2(i);
            lemma_pow2_unfold(i);
            assert(half == pow2((i - 1) as nat));
        }
        if p % 2 == 0 && exists|i: nat| half == pow2(i) {
            let i = choose|i: nat| half == pow2(i);
            lemma_pow2_unfold(i + 1);
            assert(p == pow2(i + 1));
        }
    }
}

/// Rounding a quotient up: the least count of parts of size `d` that hold
/// `t` in all.
pub proof fn lemma_ceil_div(t: nat, d: nat)
    requires
        d > 0,
    ensures
        ({
            let c = (t + d - 1) / (d as int);
            &&& c * d >= t
            &&& c * d < t + d
            &&& c == t / d + if t % d == 0 {
                0int
            } else {
                1int
            }
        }),
{
    let c = (t + d - 1) / (d as int);
    let q = (t / d) as int;
    let m = (t % d) as int;
    lemma_fundamental_div_mod(t + d - 1, d as int);
    lemma_fundamental_div_mod(t as int, d as int);
    lemma_mul_is_commutative(c, d as int);
    if m == 0 {
        lemma_fundamental_div_mod_converse(t + d - 1, d as int, q, d - 1);
    } else {
        lemma_mul_is_distributive_add(d as int, q, 1);
        lemma_fundamental_div_mod_converse(t + d - 1, d as int, q + 1, m - 1);
    }
}

/// Position `i` of block `j` among `count` interleaved blocks: its place on
/// the wire, and how to read the block and the position off that place.
pub proof fn lemma_wire_index(i: nat, j: nat, count: nat, width: nat)
    requires
        i < width,
        j < count,
    ensures
        i * count + j < count * width,
        ((i * count + j) as int) / (count as int) == i,
        ((i * count + j) as int) % (count as int) == j,
        (i + 1) * count == i * count + count,
{
    lemma_fundamental_div_mod_converse((i * count + j) as int, count as int, i as int, j as int);
    lemma_mul_is_commutative(i as int, count as int);
    assert((i + 1) * count == i * count + count) by (nonlinear_arith);
    assert(i * count + j < count * width) by (nonlinear_arith)
        requires
            i < width,
            j < count,
    ;
}

/// Setting group parities keeps the length of a block.
pub proof fn lemma_group_parities_len(w: Seq<bool>, i: nat)
    requires
        i > 0 ==> pow2((i - 1) as nat) < w.len(),
    ensures
        with_group_parities(w, i).len() == w.len(),
    decreases i,
{
    if i > 0 {
        if i > 1 {
            lemma_pow2_strictly_increases((i - 2) as nat, (i - 1) as nat);
        }
        lemma_group_parities_len(w, (i - 1) as nat);
    }
}

/// A finished block has `2^b` bits.
pub proof fn lemma_encode_block_len(stream: Seq<bool>, offset: nat, b: nat)
    ensures
        encode_block(stream, offset, b).len() == block_bits_total(b),
{
    if b > 0 {
        lemma_pow2_strictly_increases((b - 1) as nat, b);
    }
    lemma_pow2_pos(b);
    lemma_group_parities_len(place_payload(stream, offset, b), b);
}

/// The syndrome over the first `i` group checks is below `2^i`.
pub proof fn lemma_syndrome_bound(w: Seq<bool>, i: nat)
    ensures
        syndrome(w, i) < pow2(i),
    decreases i,
{
    lemma2_to64();
    if i > 0 {
        lemma_syndrome_bound(w, (i - 1) as nat);
        lemma_pow2_unfold(i);
    }
}

/// Once a block that cannot be corrected has been met, it stays the first.
pub proof fn lemma_first_uncorrectable_stays(blocks: Seq<Seq<bool>>, b: nat, j: nat, n: nat)
    requires
        j < n,
        first_uncorrectable(blocks, b, j + 1) == Some(j),
    ensures
        first_uncorrectable(blocks, b, n) == Some(j),
    decreases n,
{
    if n > j + 1 {
        lemma_first_uncorrectable_stays(blocks, b, j, (n - 1) as nat);
    }
}

/// Reading one more bit doubles the number read so far and adds the bit.
pub proof fn lemma_bits_value_step(bits: Seq<bool>, i: int)
    requires
        0 <= i < bits.len(),
    ensures
        bits_value(bits.subrange(0, i + 1)) == 2 * bits_value(bits.subrange(0, i)) + if bits[i] {
            1nat
        } else {
            0nat
        },
{
    assert(bits.subrange(0, i + 1).drop_last() =~= bits.subrange(0, i));
}

/// A bit string spells at least what any of its beginnings spells.
pub proof fn lemma_bits_value_prefix(bits: Seq<bool>, i: int, n: int)
    requires
        0 <= i <= n <= bits.len(),
    ensures
        bits_value(bits.subrange(0, i)) <= bits_value(bits.subrange(0, n)),
    decreases n - i,
{
    if i < n {
        lemma_bits_value_step(bits, i);
        lemma_bits_value_prefix(bits, i + 1, n);
    }
}

/// Overwriting one bit turns a parity check over exactly if the check covers
/// the bit and the bit changes.
pub proof fn lemma_parity_update(w: Seq<bool>, mask: nat, n: nat, e: int, v: bool)
    requires
        0 <= e < w.len(),
        n <= w.len(),
    ensures
        parity(w.update(e, v), mask, n) == (parity(w, mask, n) != (e < n && covers(mask, e as nat)
            && w[e] != v)),
    decreases n,
{
    if n > 0 {
        lemma_parity_update(w, mask, (n - 1) as nat, e, v);
    }
}

/// The group check with mask `2^j` covers the position `2^i` only for
/// `i == j`, and never covers position 0.
pub proof fn lemma_covers_powers(i: nat, j: nat)
    ensures
        covers(pow2(j), pow2(i)) == (i == j),
        !covers(pow2(j), 0),
{
    lemma_pow2_pos(i);
    lemma_pow2_pos(j);
    lemma_basic_div(0, pow2(j) as int);
    if i == j {
        lemma_div_by_self(pow2(j) as int);
    } else if i > j {
        lemma_pow2_subtracts(j, i);
        lemma_pow2_unfold((i - j) as nat);
    } else {
        lemma_pow2_strictly_increases(i, j);
        lemma_basic_div(pow2(i) as int, pow2(j) as int);
    }
}

/// After the first `i` group parities have been set on a block whose parity
/// bits were clear, the first `i` group checks hold, and nothing but those
/// `i` parity bits has changed.
pub proof fn lemma_group_parities(w: Seq<bool>, b: nat, i: nat)
    requires
        i <= b,
        w.len() == pow2(b),
        forall|k: nat| k < b ==> !w[#[trigger] pow2(k) as int],
    ensures
        with_group_parities(w, i).len() == w.len(),
        forall|j: nat| j < i ==> !parity(with_group_parities(w, i), #[trigger] pow2(j), w.len()),
        forall|k: nat| i <= k < b ==> !with_group_parities(w, i)[#[trigger] pow2(k) as int],
        forall|p: int|
            0 <= p < w.len() && !is_parity_position(p as nat) ==> with_group_parities(w, i)[p]
                == w[p],
        with_group_parities(w, i)[0] == w[0],
    decreases i,
{
    lemma_pow2_pos(b);
    if i > 0 {
        let prev = with_group_parities(w, (i - 1) as nat);
        let mask = pow2((i - 1) as nat);
        let next = with_group_parities(w, i);
        lemma_group_parities(w, b, (i - 1) as nat);
        lemma_pow2_strictly_increases((i - 1) as nat, b);
        lemma_pow2_pos((i - 1) as nat);
        assert(!prev[mask as int]);
        assert forall|j: nat| j < i implies !parity(next, #[trigger] pow2(j), w.len()) by {
            lemma_parity_update(prev, pow2(j), w.len(), mask as int, parity(prev, mask, prev.len()));
            lemma_covers_powers((i - 1) as nat, j);
        }
        assert forall|k: nat| i <= k < b implies !next[#[trigger] pow2(k) as int] by {
            lemma_pow2_strictly_increases((i - 1) as nat, k);
            lemma_pow2_strictly_increases(k, b);
        }
        assert forall|p: int| 0 <= p < w.len() && !is_parity_position(p as nat) implies next[p]
            == w[p] by {
            assert(is_parity_position(mask));
        }
    }
}

/// A finished block passes every parity check and carries its payload at the
/// payload positions.
pub proof fn lemma_encode_block(stream: Seq<bool>, offset: nat, b: nat)
    ensures
        valid_block(encode_block(stream, offset, b), b),
        forall|p: int|
            0 <= p < pow2(b) && !is_parity_position(p as nat) ==> encode_block(stream, offset, b)[p]
                == padded_bit(stream, (offset + payload_rank(p as nat)) as int),
{
    let placed = place_payload(stream, offset, b);
    let grouped = with_group_parities(placed, b);
    let done = encode_block(stream, offset, b);
    lemma_pow2_pos(b);
    assert forall|k: nat| k < b implies !placed[#[trigger] pow2(k) as int] by {
        lemma_pow2_strictly_increases(k, b);
        assert(is_parity_position(pow2(k)));
    }
    lemma_group_parities(placed, b, b);
    assert(is_parity_position(0));
    assert(!grouped[0]);
    lemma_parity_update(grouped, 0, grouped.len(), 0, parity(grouped, 0, grouped.len()));
    assert forall|i: nat| i < b implies !parity(done, #[trigger] pow2(i), done.len()) by {
        lemma_parity_update(grouped, pow2(i), grouped.len(), 0, parity(grouped, 0, grouped.len()));
        lemma_covers_powers(i, i);
    }
    assert forall|p: int| 0 <= p < pow2(b) && !is_parity_position(p as nat) implies done[p]
        == padded_bit(stream, (offset + payload_rank(p as nat)) as int) by {
        assert(done[p] == grouped[p]);
        assert(grouped[p] == placed[p]);
    }
}

/// The payload read off a block that carries a stretch of a stream is that
/// stretch.
pub proof fn lemma_block_payload_is(w: Seq<bool>, n: nat, stream: Seq<bool>, offset: nat)
    requires
        n <= w.len(),
        forall|p: int|
            0 <= p < n && !is_parity_position(p as nat) ==> w[p] == padded_bit(
                stream,
                (offset + payload_rank(p as nat)) as int,
            ),
    ensures
        block_payload(w, n) == Seq::new(payload_rank(n), |k: int| padded_bit(stream, offset + k)),
    decreases n,
{
    if n > 0 {
        lemma_block_payload_is(w, (n - 1) as nat, stream, offset);
    }
    assert(block_payload(w, n) =~= Seq::new(
        payload_rank(n),
        |k: int| padded_bit(stream, offset + k),
    ));
}

/// A syndrome of 0 means that every group check holds.
pub proof fn lemma_syndrome_zero(w: Seq<bool>, b: nat)
    requires
        syndrome(w, b) == 0,
    ensures
        forall|i: nat| i < b ==> !parity(w, #[trigger] pow2(i), w.len()),
    decreases b,
{
    if b > 0 {
        lemma_pow2_pos((b - 1) as nat);
        lemma_syndrome_zero(w, (b - 1) as nat);
    }
}

/// Where the group checks fail exactly at the binary digits of `e`, the
/// syndrome is `e`, as far as `b` digits go.
pub proof fn lemma_syndrome_digits(w: Seq<bool>, b: nat, e: nat)
    requires
        forall|i: nat| i < b ==> parity(w, #[trigger] pow2(i), w.len()) == nat_bit(e, i),
    ensures
        syndrome(w, b) == e % pow2(b),
    decreases b,
{
    lemma2_to64();
    if b > 0 {
        let low = pow2((b - 1) as nat);
        lemma_syndrome_digits(w, (b - 1) as nat, e);
        lemma_pow2_pos((b - 1) as nat);
        lemma_pow2_unfold(b);
        lemma_mod_breakdown(e as int, low as int, 2);
        lemma_mul_is_commutative(low as int, 2);
        assert(low * ((e / low) % 2) == if nat_bit(e, (b - 1) as nat) {
            low
        } else {
            0
        }) by (nonlinear_arith)
            requires
                nat_bit(e, (b - 1) as nat) == ((e / low) % 2 == 1),
                0 <= (e / low) % 2 < 2,
        ;
    }
}

/// Numbers with the same low `b` binary digits agree modulo `2^b`.
pub proof fn lemma_digits_determine(d: nat, e: nat, b: nat)
    requires
        forall|i: nat| i < b ==> #[trigger] nat_bit(d, i) == nat_bit(e, i),
    ensures
        d % pow2(b) == e % pow2(b),
    decreases b,
{
    lemma2_to64();
    if b > 0 {
        let low = pow2((b - 1) as nat);
        lemma_digits_determine(d, e, (b - 1) as nat);
        lemma_pow2_pos((b - 1) as nat);
        lemma_pow2_unfold(b);
        lemma_mod_breakdown(d as int, low as int, 2);
        lemma_mod_breakdown(e as int, low as int, 2);
        lemma_mul_is_commutative(low as int, 2);
        assert(nat_bit(d, (b - 1) as nat) == nat_bit(e, (b - 1) as nat));
        assert((d / low) % 2 == (e / low) % 2);
    }
}

/// A block in which every check holds is left as it is.
pub proof fn lemma_correct_clean(w: Seq<bool>, b: nat)
    requires
        valid_block(w, b),
    ensures
        correct_block(w, b) == Some(w),
{
    assert forall|i: nat| i < b implies parity(w, #[trigger] pow2(i), w.len()) == nat_bit(0, i) by {
        lemma_pow2_pos(i);
        lemma_basic_div(0, pow2(i) as int);
    }
    lemma_syndrome_digits(w, b, 0);
    lemma_pow2_pos(b);
    lemma_small_mod(0, pow2(b));
}

/// One wrong bit is found and mended, wherever in the block it is.
pub proof fn lemma_correct_single(w: Seq<bool>, b: nat, e: int)
    requires
        valid_block(w, b),
        0 <= e < w.len(),
    ensures
        correct_block(flip(w, e), b) == Some(w),
{
    let got = flip(w, e);
    assert forall|i: nat| i < b implies parity(got, #[trigger] pow2(i), got.len()) == nat_bit(
        e as nat,
        i,
    ) by {
        lemma_parity_update(w, pow2(i), w.len(), e, !w[e]);
        lemma_pow2_pos(i);
    }
    lemma_syndrome_digits(got, b, e as nat);
    lemma_small_mod(e as nat, pow2(b));
    lemma_parity_update(w, 0, w.len(), e, !w[e]);
    assert(got.update(e, !got[e]) =~= w);
}

/// Two wrong bits are noticed: the block is not accepted, and no bit of it
/// is taken for the wrong one.
pub proof fn lemma_correct_double(w: Seq<bool>, b: nat, d: int, e: int)
    requires
        valid_block(w, b),
        0 <= d < w.len(),
        0 <= e < w.len(),
        d != e,
    ensures
        correct_block(flip(flip(w, d), e), b) is None,
{
    let once = flip(w, d);
    let twice = flip(once, e);
    lemma_parity_update(w, 0, w.len(), d, !w[d]);
    lemma_parity_update(once, 0, w.len(), e, !once[e]);
    assert(!parity(twice, 0, twice.len()));
    if syndrome(twice, b) == 0 {
        lemma_syndrome_zero(twice, b);
        assert forall|i: nat| i < b implies #[trigger] nat_bit(d as nat, i) == nat_bit(e as nat, i) by {
            lemma_parity_update(w, pow2(i), w.len(), d, !w[d]);
            lemma_parity_update(once, pow2(i), w.len(), e, !once[e]);
            lemma_pow2_pos(i);
            assert(!parity(twice, pow2(i), twice.len()));
        }
        lemma_digits_determine(d as nat, e as nat, b);
        lemma_small_mod(d as nat, pow2(b));
        lemma_small_mod(e as nat, pow2(b));
    }
}

/// A block that differs from a valid one in one place at most is mended to
/// the valid one.
pub proof fn lemma_correct_near(v: Seq<bool>, w: Seq<bool>, b: nat)
    requires
        valid_block(w, b),
        differ_at_most_once(v, w),
    ensures
        correct_block(v, b) == Some(w),
{
    let e = choose|e: int| agree_except(v, w, e);
    if 0 <= e < v.len() && v[e] != w[e] {
        assert(v =~= flip(w, e));
        lemma_correct_single(w, b, e);
    } else {
        assert(v =~= w);
        lemma_correct_clean(w, b);
    }
}

/// `n` written in `width` bits reads back as `n`, if it fits.
pub proof fn lemma_nat_to_bits_value(n: nat, width: nat)
    requires
        n < pow2(width),
    ensures
        bits_value(nat_to_bits(n, width)) == n,
    decreases width,
{
    lemma2_to64();
    if width > 0 {
        let bits = nat_to_bits(n, width);
        let shorter = nat_to_bits(n / 2, (width - 1) as nat);
        lemma_pow2_unfold(width);
        assert forall|i: int| 0 <= i < width - 1 implies bits.drop_last()[i] == shorter[i] by {
            let k = (width - 2 - i) as nat;
            lemma_pow2_unfold(k + 1);
            lemma_pow2_pos(k);
            lemma_div_denominator(n as int, 2, pow2(k) as int);
        }
        assert(bits.drop_last() =~= shorter);
        lemma_nat_to_bits_value(n / 2, (width - 1) as nat);
        assert(bits.last() == (n % 2 == 1)) by {
            assert(n / 1 == n);
        }
    }
}

} // verus!
