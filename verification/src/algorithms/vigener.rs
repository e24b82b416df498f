//! The Vigenere cipher on bytes: every byte is shifted by the key byte that
//! falls on it as the key repeats.

use vstd::prelude::*;

use crate::decrypt::Decrypt;
use crate::encrypt::Encrypt;
use crate::key::Key;

verus! {

/// `data` with the key bytes added on, the key repeating; sums wrap around
/// at 256.
pub open spec fn shifted_up(key: Seq<u8>, data: Seq<u8>) -> Seq<u8> {
    Seq::new(data.len(), |i: int| ((data[i] + key[i % (key.len() as int)]) % 256) as u8)
}

/// `data` with the key bytes taken off, the key repeating; differences wrap
/// around at 256.
pub open spec fn shifted_down(key: Seq<u8>, data: Seq<u8>) -> Seq<u8> {
    Seq::new(data.len(), |i: int| ((data[i] - key[i % (key.len() as int)]) % 256) as u8)
}

/// The Vigenere cipher with a fixed key.
pub struct Vigener {
    key: Key,
}

impl Vigener {
    /// The key as a value of the model.
    pub closed spec fn spec_key(&self) -> Key {
        self.key
    }

    /// A cipher that encrypts and decrypts with `key`.
    pub fn new(key: Key) -> (cipher: Self)
        ensures
            cipher.spec_key() == key,
    {
        Self { key }
    }

    /// The key that the cipher works with.
    pub fn key(&self) -> (key: &Key)
        ensures
            *key == self.spec_key(),
    {
        &self.key
    }
}

impl Encrypt for Vigener {
    open spec fn encrypted(&self, data: Seq<u8>) -> Seq<u8> {
        shifted_up(self.spec_key()@, data)
    }

    /// A byte for a byte.
    open spec fn encrypted_len(&self, n: nat) -> nat {
        n
    }

    fn encrypt(&self, data_to_encrypt: Vec<u8>) -> (out: Vec<u8>) {
        let ghost target = shifted_up(self.key@, data_to_encrypt@);
        let period = self.key.len();
        let n = data_to_encrypt.len();
        let mut out: Vec<u8> = Vec::with_capacity(n);
        let mut at: usize = 0;
        let mut i: usize = 0;
        while i < n
            invariant
                i <= n,
                n == data_to_encrypt@.len(),
                period == self.key@.len(),
                period > 0,
                at == i % period,
                target == shifted_up(self.key@, data_to_encrypt@),
                out@ == target.subrange(0, i as int),
            decreases n - i,
        {
            let mask = *self.key.index(at);
            out.push(data_to_encrypt[i].wrapping_add(mask));
            assert(out@ =~= target.subrange(0, i + 1));
            proof {
                lemma_next_in_cycle(i as int, period as int);
            }
            i = i + 1;
            at = if at + 1 == period {
                0
            } else {
                at + 1
            };
        }
        assert(out@ =~= target);
        out
    }
}

impl Decrypt for Vigener {
    open spec fn decrypted(&self, data: Seq<u8>) -> Seq<u8> {
        shifted_down(self.spec_key()@, data)
    }

    /// A byte for a byte.
    open spec fn decrypted_len(&self, n: nat) -> nat {
        n
    }

    fn decrypt(&self, encrypted_data: Vec<u8>) -> (out: Vec<u8>) {
        let ghost target = shifted_down(self.key@, encrypted_data@);
        let period = self.key.len();
        let n = encrypted_data.len();
        let mut out: Vec<u8> = Vec::with_capacity(n);
        let mut at: usize = 0;
        let mut i: usize = 0;
        while i < n
            invariant
                i <= n,
                n == encrypted_data@.len(),
                period == self.key@.len(),
                period > 0,
                at == i % period,
                target == shifted_down(self.key@, encrypted_data@),
                out@ == target.subrange(0, i as int),
            decreases n - i,
        {
            let mask = *self.key.index(at);
            out.push(encrypted_data[i].wrapping_sub(mask));
            assert(out@ =~= target.subrange(0, i + 1));
            proof {
                lemma_next_in_cycle(i as int, period as int);
            }
            i = i + 1;
            at = if at + 1 == period {
                0
            } else {
                at + 1
            };
        }
        assert(out@ =~= target);
        out
    }
}

/// Stepping on by one inside a cycle: the place moves up by one, or back to
/// the start from the last place.
proof fn lemma_next_in_cycle(i: int, period: int)
    requires
        0 <= i,
        period > 0,
    ensures
        (i + 1) % period == if i % period + 1 == period {
            0
        } else {
            i % period + 1
        },
{
    vstd::arithmetic::div_mod::lemma_fundamental_div_mod(i, period);
    vstd::arithmetic::div_mod::lemma_mod_pos_bound(i, period);
    let q = i / period;
    let r = i % period;
    vstd::arithmetic::mul::lemma_mul_is_commutative(period, q);
    if r + 1 == period {
        assert(i + 1 == period * (q + 1) + 0) by (nonlinear_arith)
            requires
                i == period * q + r,
                r + 1 == period,
        ;
        vstd::arithmetic::div_mod::lemma_fundamental_div_mod_converse(i + 1, period, q + 1, 0);
    } else {
        vstd::arithmetic::div_mod::lemma_fundamental_div_mod_converse(i + 1, period, q, r + 1);
    }
}

/// Decrypting what was encrypted with the same key gives the data back.
pub proof fn vigener_round_trip(cipher: Vigener, data: Seq<u8>)
    ensures
        cipher.decrypted(cipher.encrypted(data)) == data,
{
    let key = cipher.spec_key()@;
    let there = shifted_up(key, data);
    let back = shifted_down(key, there);
    assert forall|i: int| 0 <= i < data.len() implies back[i] == data[i] by {
        let d = data[i];
        let k = key[i % (key.len() as int)];
        let up = ((d + k) % 256) as u8;
        assert(((up - k) % 256) as u8 == d) by {
            if d + k >= 256 {
                assert(up == d + k - 256);
            } else {
                assert(up == d + k);
            }
        }
    }
    assert(back =~= data);
}

} // verus!
