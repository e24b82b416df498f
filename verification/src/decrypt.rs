//! Algorithms that turn bytes back into what they were made from.

use std::convert::Infallible;
use vstd::prelude::*;

verus! {

/// An algorithm that decrypts bytes and may refuse some inputs.
pub trait TryDecrypt {
    /// What comes back where decryption is refused.
    type ErrorType;

    /// The inputs that the algorithm can work on at all. Nothing but the
    /// limits of the machine keeps an input out.
    spec fn can_decrypt(&self, data: Seq<u8>) -> bool;

    /// What decryption makes of `data`: the decrypted bytes, or the error.
    spec fn try_decrypted(&self, data: Seq<u8>) -> Result<Seq<u8>, Self::ErrorType>;

    /// Decrypts `encrypted_data`.
    fn try_decrypt(&self, encrypted_data: Vec<u8>) -> (out: Result<Vec<u8>, Self::ErrorType>)
        requires
            self.can_decrypt(encrypted_data@),
        ensures
            match out {
                Ok(bytes) => self.try_decrypted(encrypted_data@) == Ok::<
                    Seq<u8>,
                    Self::ErrorType,
                >(bytes@),
                Err(e) => self.try_decrypted(encrypted_data@) == Err::<Seq<u8>, Self::ErrorType>(
                    e,
                ),
            },
    ;
}

/// An algorithm that decrypts any bytes.
pub trait Decrypt {
    /// What decryption makes of `data`.
    spec fn decrypted(&self, data: Seq<u8>) -> Seq<u8>;

    /// How many bytes decryption makes of `n` bytes.
    spec fn decrypted_len(&self, n: nat) -> nat;

    /// Decrypts `encrypted_data`.
    fn decrypt(&self, encrypted_data: Vec<u8>) -> (out: Vec<u8>)
        ensures
            out@ == self.decrypted(encrypted_data@),
            out@.len() == self.decrypted_len(encrypted_data@.len()),
    ;
}

/// An algorithm that decrypts any bytes also decrypts where refusal is
/// allowed for: it never refuses.
impl<T: Decrypt> TryDecrypt for T {
    type ErrorType = Infallible;

    open spec fn can_decrypt(&self, data: Seq<u8>) -> bool {
        true
    }

    open spec fn try_decrypted(&self, data: Seq<u8>) -> Result<Seq<u8>, Infallible> {
        Ok(self.decrypted(data))
    }

    /// Never refuses, and gives as many bytes as the algorithm makes of the
    /// data.
    fn try_decrypt(&self, encrypted_data: Vec<u8>) -> (out: Result<Vec<u8>, Infallible>)
        ensures
            out matches Ok(bytes) && bytes@.len() == self.decrypted_len(encrypted_data@.len()),
    {
        Ok(self.decrypt(encrypted_data))
    }
}

} // verus!
