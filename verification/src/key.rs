//! A key: a sequence of bytes that is never empty.

use std::ops::{Add, BitAnd, BitOr, BitXor, Not};
use vstd::prelude::*;
use vstd::slice::slice_subrange;
use vstd::std_specs::cmp::PartialEqSpecImpl;
use vstd::std_specs::slice::{axiom_spec_slice_iter, into_iter_elts};
use vstd::std_specs::ops::{AddSpecImpl, BitAndSpecImpl, BitOrSpecImpl, BitXorSpecImpl, NotSpecImpl};

use crate::text::{binary_text, hex_text, to_binary, to_hex};

verus! {

/// A non-empty sequence of bytes to encrypt and decrypt with.
pub struct Key {
    data: Vec<u8>,
}

impl View for Key {
    type V = Seq<u8>;

    /// The bytes of the key, first byte first.
    closed spec fn view(&self) -> Seq<u8> {
        self.data@
    }
}

/// The bytes of `a` and `b` combined place by place.
pub open spec fn zip_with(a: Seq<u8>, b: Seq<u8>, f: spec_fn(u8, u8) -> u8) -> Seq<u8> {
    Seq::new(a.len(), |i: int| f(a[i], b[i]))
}

impl Key {
    /// A key holds at least one byte.
    #[verifier::type_invariant]
    pub open spec fn well_formed(&self) -> bool {
        self@.len() > 0
    }

    /// Makes a key of the given bytes, of which there must be at least one.
    pub fn new(data: Vec<u8>) -> (key: Self)
        requires
            data@.len() > 0,
        ensures
            key@ == data@,
            key.well_formed(),
    {
        Self { data }
    }

    /// Length of the key in bytes.
    pub fn len(&self) -> (n: usize)
        ensures
            n == self@.len(),
            n > 0,
    {
        proof {
            use_type_invariant(self);
        }
        self.data.len()
    }

    /// Length of the key in bits, which must be countable in `usize`.
    pub fn len_bits(&self) -> (n: usize)
        requires
            self@.len() * 8 <= usize::MAX,
        ensures
            n == self@.len() * 8,
    {
        self.len() * 8
    }

    /// An iterator over the bytes of the key that leaves the key in place.
    pub fn iter(&self) -> (bytes: std::slice::Iter<'_, u8>)
        ensures
            into_iter_elts(bytes) == self@,
    {
        broadcast use axiom_spec_slice_iter;

        let bytes = self.data.as_slice().iter();
        assert(into_iter_elts(bytes) =~= self.data@);
        bytes
    }

    /// The byte at position `i`, which must lie inside the key.
    pub fn index(&self, i: usize) -> (byte: &u8)
        requires
            i < self@.len(),
        ensures
            *byte == self@[i as int],
    {
        &self.data[i]
    }

    /// The bytes at the positions `from..to`, which must lie inside the key.
    pub fn range(&self, from: usize, to: usize) -> (bytes: &[u8])
        requires
            from <= to <= self@.len(),
        ensures
            bytes@ == self@.subrange(from as int, to as int),
    {
        slice_subrange(self.data.as_slice(), from, to)
    }

    /// The key in lower-case hexadecimal, two digits to the byte.
    pub fn to_lower_hex(&self) -> (text: String)
        ensures
            text@ == hex_text(self@, false),
    {
        to_hex(&self.data, false)
    }

    /// The key in upper-case hexadecimal, two digits to the byte.
    pub fn to_upper_hex(&self) -> (text: String)
        ensures
            text@ == hex_text(self@, true),
    {
        to_hex(&self.data, true)
    }

    /// The key in binary: every byte without leading zeros but for a second
    /// digit.
    pub fn to_binary(&self) -> (text: String)
        ensures
            text@ == binary_text(self@),
    {
        to_binary(&self.data)
    }

    /// The key as it is shown: in lower-case hexadecimal.
    pub fn to_string(&self) -> (text: String)
        ensures
            text@ == hex_text(self@, false),
    {
        self.to_lower_hex()
    }

    /// The bytes of the key, which the call uses up.
    pub fn into_bytes(self) -> (bytes: Vec<u8>)
        ensures
            bytes@ == self@,
    {
        self.data
    }
}

impl Clone for Key {
    fn clone(&self) -> (copy: Self)
        ensures
            copy@ == self@,
    {
        proof {
            use_type_invariant(self);
        }
        let data = self.data.clone();
        assert(data@ =~= self.data@);
        Self { data }
    }
}

impl PartialEq for Key {
    fn eq(&self, other: &Self) -> (same: bool) {
        let n = self.data.len();
        if n != other.data.len() {
            return false;
        }
        let mut i: usize = 0;
        while i < n
            invariant
                i <= n,
                n == self.data@.len(),
                n == other.data@.len(),
                forall|k: int| 0 <= k < i ==> self.data@[k] == other.data@[k],
            decreases n - i,
        {
            if self.data[i] != other.data[i] {
                return false;
            }
            i = i + 1;
        }
        assert(self.data@ =~= other.data@);
        true
    }
}

impl PartialEqSpecImpl for Key {
    open spec fn obeys_eq_spec() -> bool {
        true
    }

    /// Keys are equal where their bytes are.
    open spec fn eq_spec(&self, other: &Self) -> bool {
        self@ == other@
    }
}

impl Eq for Key {

}

impl<'a> Add for &'a Key {
    type Output = Key;

    /// Joins two keys: the bytes of the first, then the bytes of the second.
    fn add(self, other: Self) -> (joined: Key)
        ensures
            joined@ == self@ + other@,
    {
        proof {
            use_type_invariant(self);
        }
        let mut data: Vec<u8> = Vec::with_capacity(self.data.len());
        let mut i: usize = 0;
        while i < self.data.len()
            invariant
                i <= self.data@.len(),
                data@ == self.data@.subrange(0, i as int),
            decreases self.data@.len() - i,
        {
            data.push(self.data[i]);
            assert(data@ =~= self.data@.subrange(0, i + 1));
            i = i + 1;
        }
        let mut k: usize = 0;
        while k < other.data.len()
            invariant
                k <= other.data@.len(),
                data@ == self.data@ + other.data@.subrange(0, k as int),
            decreases other.data@.len() - k,
        {
            data.push(other.data[k]);
            assert(data@ =~= self.data@ + other.data@.subrange(0, k + 1));
            k = k + 1;
        }
        assert(data@ =~= self.data@ + other.data@);
        Key { data }
    }
}

impl<'a> AddSpecImpl for &'a Key {
    open spec fn obeys_add_spec() -> bool {
        false
    }

    open spec fn add_req(self, other: Self) -> bool {
        true
    }

    open spec fn add_spec(self, other: Self) -> Key {
        arbitrary()
    }
}

impl<'a> Not for &'a Key {
    type Output = Key;

    /// Turns every bit of the key over.
    fn not(self) -> (flipped: Key)
        ensures
            flipped@ == self@.map_values(|byte: u8| !byte),
    {
        proof {
            use_type_invariant(self);
        }
        let ghost target = self.data@.map_values(|byte: u8| !byte);
        let mut data: Vec<u8> = Vec::with_capacity(self.data.len());
        let mut i: usize = 0;
        while i < self.data.len()
            invariant
                i <= self.data@.len(),
                target == self.data@.map_values(|byte: u8| !byte),
                data@ == target.subrange(0, i as int),
            decreases self.data@.len() - i,
        {
            data.push(!self.data[i]);
            assert(data@ =~= target.subrange(0, i + 1));
            i = i + 1;
        }
        assert(data@ =~= target);
        Key { data }
    }
}

impl<'a> NotSpecImpl for &'a Key {
    open spec fn obeys_not_spec() -> bool {
        false
    }

    open spec fn not_req(self) -> bool {
        true
    }

    open spec fn not_spec(self) -> Key {
        arbitrary()
    }
}

/// A way to combine two bytes bit by bit.
#[derive(Clone, Copy)]
enum Bitwise {
    And,
    Or,
    Xor,
}

impl Bitwise {
    spec fn of(self, x: u8, y: u8) -> u8 {
        match self {
            Bitwise::And => x & y,
            Bitwise::Or => x | y,
            Bitwise::Xor => x ^ y,
        }
    }

    /// Combines two keys of one length byte by byte.
    fn combine(self, a: &Key, b: &Key) -> (out: Key)
        requires
            a@.len() == b@.len(),
        ensures
            out@ == zip_with(a@, b@, |x: u8, y: u8| self.of(x, y)),
    {
        proof {
            use_type_invariant(a);
        }
        let ghost target = zip_with(a@, b@, |x: u8, y: u8| self.of(x, y));
        let mut data: Vec<u8> = Vec::with_capacity(a.data.len());
        let mut i: usize = 0;
        while i < a.data.len()
            invariant
                i <= a.data@.len(),
                a.data@.len() == b.data@.len(),
                target == zip_with(a@, b@, |x: u8, y: u8| self.of(x, y)),
                data@ == target.subrange(0, i as int),
            decreases a.data@.len() - i,
        {
            let byte = match self {
                Bitwise::And => a.data[i] & b.data[i],
                Bitwise::Or => a.data[i] | b.data[i],
                Bitwise::Xor => a.data[i] ^ b.data[i],
            };
            data.push(byte);
            assert(data@ =~= target.subrange(0, i + 1));
            i = i + 1;
        }
        assert(data@ =~= target);
        Key { data }
    }
}

impl<'a> BitAnd for &'a Key {
    type Output = Key;

    /// Bitwise AND of two keys of one length.
    fn bitand(self, other: Self) -> (out: Key)
        ensures
            out@ == zip_with(self@, other@, |x: u8, y: u8| x & y),
    {
        let out = Bitwise::And.combine(self, other);
        assert(out@ =~= zip_with(self@, other@, |x: u8, y: u8| x & y));
        out
    }
}

impl<'a> BitAndSpecImpl for &'a Key {
    open spec fn obeys_bitand_spec() -> bool {
        false
    }

    /// The keys must be of one length.
    open spec fn bitand_req(self, other: Self) -> bool {
        self@.len() == other@.len()
    }

    open spec fn bitand_spec(self, other: Self) -> Key {
        arbitrary()
    }
}

impl<'a> BitOr for &'a Key {
    type Output = Key;

    /// Bitwise OR of two keys of one length.
    fn bitor(self, other: Self) -> (out: Key)
        ensures
            out@ == zip_with(self@, other@, |x: u8, y: u8| x | y),
    {
        let out = Bitwise::Or.combine(self, other);
        assert(out@ =~= zip_with(self@, other@, |x: u8, y: u8| x | y));
        out
    }
}

impl<'a> BitOrSpecImpl for &'a Key {
    open spec fn obeys_bitor_spec() -> bool {
        false
    }

    /// The keys must be of one length.
    open spec fn bitor_req(self, other: Self) -> bool {
        self@.len() == other@.len()
    }

    open spec fn bitor_spec(self, other: Self) -> Key {
        arbitrary()
    }
}

impl<'a> BitXor for &'a Key {
    type Output = Key;

    /// Bitwise XOR of two keys of one length.
    fn bitxor(self, other: Self) -> (out: Key)
        ensures
            out@ == zip_with(self@, other@, |x: u8, y: u8| x ^ y),
    {
        let out = Bitwise::Xor.combine(self, other);
        assert(out@ =~= zip_with(self@, other@, |x: u8, y: u8| x ^ y));
        out
    }
}

impl<'a> BitXorSpecImpl for &'a Key {
    open spec fn obeys_bitxor_spec() -> bool {
        false
    }

    /// The keys must be of one length.
    open spec fn bitxor_req(self, other: Self) -> bool {
        self@.len() == other@.len()
    }

    open spec fn bitxor_spec(self, other: Self) -> Key {
        arbitrary()
    }
}

} // verus!
