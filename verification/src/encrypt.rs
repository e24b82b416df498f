//! Algorithms that turn bytes into bytes on the way out: ciphers, digests,
//! error-correcting codes.

use std::convert::Infallible;
use vstd::prelude::*;

verus! {

/// An algorithm that encrypts bytes and may refuse some inputs.
pub trait TryEncrypt {
    /// What comes back where encryption is refused.
    type ErrorType;

    /// The inputs that the algorithm can work on at all. Nothing but the
    /// limits of the machine keeps an input out.
    spec fn can_encrypt(&self, data: Seq<u8>) -> bool;

    /// What encryption makes of `data`: the encrypted bytes, or the error.
    spec fn try_encrypted(&self, data: Seq<u8>) -> Result<Seq<u8>, Self::ErrorType>;

    /// Encrypts `data_to_encrypt`.
    fn try_encrypt(&self, data_to_encrypt: Vec<u8>) -> (out: Result<Vec<u8>, Self::ErrorType>)
        requires
            self.can_encrypt(data_to_encrypt@),
        ensures
            match out {
                Ok(bytes) => self.try_encrypted(data_to_encrypt@) == Ok::<
                    Seq<u8>,
                    Self::ErrorType,
                >(bytes@),
                Err(e) => self.try_encrypted(data_to_encrypt@) == Err::<Seq<u8>, Self::ErrorType>(
                    e,
                ),
            },
    ;
}

/// An algorithm that encrypts any bytes.
pub trait Encrypt {
    /// What encryption makes of `data`.
    spec fn encrypted(&self, data: Seq<u8>) -> Seq<u8>;

    /// How many bytes encryption makes of `n` bytes.
    spec fn encrypted_len(&self, n: nat) -> nat;

    /// Encrypts `data_to_encrypt`.
    fn encrypt(&self, data_to_encrypt: Vec<u8>) -> (out: Vec<u8>)
        ensures
            out@ == self.encrypted(data_to_encrypt@),
            out@.len() == self.encrypted_len(data_to_encrypt@.len()),
    ;
}

/// An algorithm that encrypts any bytes also encrypts where refusal is
/// allowed for: it never refuses.
impl<T: Encrypt> TryEncrypt for T {
    type ErrorType = Infallible;

    open spec fn can_encrypt(&self, data: Seq<u8>) -> bool {
        true
    }

    open spec fn try_encrypted(&self, data: Seq<u8>) -> Result<Seq<u8>, Infallible> {
        Ok(self.encrypted(data))
    }

    /// Never refuses, and gives as many bytes as the algorithm makes of the
    /// data.
    fn try_encrypt(&self, data_to_encrypt: Vec<u8>) -> (out: Result<Vec<u8>, Infallible>)
        ensures
            out matches Ok(bytes) && bytes@.len() == self.encrypted_len(data_to_encrypt@.len()),
    {
        Ok(self.encrypt(data_to_encrypt))
    }
}

} // verus!
