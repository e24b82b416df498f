//! SHA-2 digests behind the encryption interface.
//!
//! The digests themselves are computed by the `sha2` crate; nothing is proved
//! of them here. The library gives each digest a name and states its length.

use sha2::Digest;
use std::marker::PhantomData;
use vstd::prelude::*;

use crate::encrypt::Encrypt;

verus! {

/// The SHA-224 digest of `data`.
pub uninterp spec fn sha224_digest(data: Seq<u8>) -> Seq<u8>;

/// `sha2::Sha224::digest`: the SHA-224 digest of `data`, which has 28 bytes.
#[verifier::external_body]
fn sha224(data: &[u8]) -> (out: Vec<u8>)
    ensures
        out@ == sha224_digest(data@),
        out@.len() == 28,
{
    sha2::Sha224::digest(data).to_vec()
}

/// The SHA-256 digest of `data`.
pub uninterp spec fn sha256_digest(data: Seq<u8>) -> Seq<u8>;

/// `sha2::Sha256::digest`: the SHA-256 digest of `data`, which has 32 bytes.
#[verifier::external_body]
fn sha256(data: &[u8]) -> (out: Vec<u8>)
    ensures
        out@ == sha256_digest(data@),
        out@.len() == 32,
{
    sha2::Sha256::digest(data).to_vec()
}

/// The SHA-384 digest of `data`.
pub uninterp spec fn sha384_digest(data: Seq<u8>) -> Seq<u8>;

/// `sha2::Sha384::digest`: the SHA-384 digest of `data`, which has 48 bytes.
#[verifier::external_body]
fn sha384(data: &[u8]) -> (out: Vec<u8>)
    ensures
        out@ == sha384_digest(data@),
        out@.len() == 48,
{
    sha2::Sha384::digest(data).to_vec()
}

/// The SHA-512 digest of `data`.
pub uninterp spec fn sha512_digest(data: Seq<u8>) -> Seq<u8>;

/// `sha2::Sha512::digest`: the SHA-512 digest of `data`, which has 64 bytes.
#[verifier::external_body]
fn sha512(data: &[u8]) -> (out: Vec<u8>)
    ensures
        out@ == sha512_digest(data@),
        out@.len() == 64,
{
    sha2::Sha512::digest(data).to_vec()
}

/// The SHA-512/224 digest of `data`.
pub uninterp spec fn sha512_224_digest(data: Seq<u8>) -> Seq<u8>;

/// `sha2::Sha512_224::digest`: the SHA-512/224 digest of `data`, which has 28 bytes.
#[verifier::external_body]
fn sha512_224(data: &[u8]) -> (out: Vec<u8>)
    ensures
        out@ == sha512_224_digest(data@),
        out@.len() == 28,
{
    sha2::Sha512_224::digest(data).to_vec()
}

/// The SHA-512/256 digest of `data`.
pub uninterp spec fn sha512_256_digest(data: Seq<u8>) -> Seq<u8>;

/// `sha2::Sha512_256::digest`: the SHA-512/256 digest of `data`, which has 32 bytes.
#[verifier::external_body]
fn sha512_256(data: &[u8]) -> (out: Vec<u8>)
    ensures
        out@ == sha512_256_digest(data@),
        out@.len() == 32,
{
    sha2::Sha512_256::digest(data).to_vec()
}

/// One of the SHA-2 hash functions.
pub trait Sha2Variant {
    /// The digest of `data`.
    spec fn digest_of(data: Seq<u8>) -> Seq<u8>;

    /// The number of bytes in a digest.
    spec fn output_size() -> nat;

    /// Computes the digest of `data`.
    fn digest(data: &[u8]) -> (out: Vec<u8>)
        ensures
            out@ == Self::digest_of(data@),
            out@.len() == Self::output_size(),
    ;
}

/// SHA-224.
pub struct Sha224Variant;

impl Sha2Variant for Sha224Variant {
    open spec fn digest_of(data: Seq<u8>) -> Seq<u8> {
        sha224_digest(data)
    }

    open spec fn output_size() -> nat {
        28
    }

    fn digest(data: &[u8]) -> (out: Vec<u8>) {
        sha224(data)
    }
}

/// SHA-256.
pub struct Sha256Variant;

impl Sha2Variant for Sha256Variant {
    open spec fn digest_of(data: Seq<u8>) -> Seq<u8> {
        sha256_digest(data)
    }

    open spec fn output_size() -> nat {
        32
    }

    fn digest(data: &[u8]) -> (out: Vec<u8>) {
        sha256(data)
    }
}

/// SHA-384.
pub struct Sha384Variant;

impl Sha2Variant for Sha384Variant {
    open spec fn digest_of(data: Seq<u8>) -> Seq<u8> {
        sha384_digest(data)
    }

    open spec fn output_size() -> nat {
        48
    }

    fn digest(data: &[u8]) -> (out: Vec<u8>) {
        sha384(data)
    }
}

/// SHA-512.
pub struct Sha512Variant;

impl Sha2Variant for Sha512Variant {
    open spec fn digest_of(data: Seq<u8>) -> Seq<u8> {
        sha512_digest(data)
    }

    open spec fn output_size() -> nat {
        64
    }

    fn digest(data: &[u8]) -> (out: Vec<u8>) {
        sha512(data)
    }
}

/// SHA-512/224.
pub struct Sha512_224Variant;

impl Sha2Variant for Sha512_224Variant {
    open spec fn digest_of(data: Seq<u8>) -> Seq<u8> {
        sha512_224_digest(data)
    }

    open spec fn output_size() -> nat {
        28
    }

    fn digest(data: &[u8]) -> (out: Vec<u8>) {
        sha512_224(data)
    }
}

/// SHA-512/256.
pub struct Sha512_256Variant;

impl Sha2Variant for Sha512_256Variant {
    open spec fn digest_of(data: Seq<u8>) -> Seq<u8> {
        sha512_256_digest(data)
    }

    open spec fn output_size() -> nat {
        32
    }

    fn digest(data: &[u8]) -> (out: Vec<u8>) {
        sha512_256(data)
    }
}

/// A SHA-2 hash function as an algorithm that encrypts: the encrypted data
/// is the digest.
pub struct Sha2<T: Sha2Variant>(PhantomData<T>);

impl<T: Sha2Variant> Default for Sha2<T> {
    fn default() -> (hasher: Self) {
        Self(PhantomData)
    }
}

impl<T: Sha2Variant> Encrypt for Sha2<T> {
    open spec fn encrypted(&self, data: Seq<u8>) -> Seq<u8> {
        T::digest_of(data)
    }

    /// A digest has the size of its hash function, whatever the data.
    open spec fn encrypted_len(&self, n: nat) -> nat {
        T::output_size()
    }

    /// The digest of the data, which has as many bytes as the hash function
    /// gives, whatever the data.
    fn encrypt(&self, data_to_encrypt: Vec<u8>) -> (out: Vec<u8>)
        ensures
            out@.len() == T::output_size(),
    {
        T::digest(data_to_encrypt.as_slice())
    }
}

/// SHA-224 behind the encryption interface.
pub type Sha224 = Sha2<Sha224Variant>;

/// SHA-256 behind the encryption interface.
pub type Sha256 = Sha2<Sha256Variant>;

/// SHA-384 behind the encryption interface.
pub type Sha384 = Sha2<Sha384Variant>;

/// SHA-512 behind the encryption interface.
pub type Sha512 = Sha2<Sha512Variant>;

/// SHA-512/224 behind the encryption interface.
pub type Sha512_224 = Sha2<Sha512_224Variant>;

/// SHA-512/256 behind the encryption interface.
pub type Sha512_256 = Sha2<Sha512_256Variant>;

} // verus!
