pub mod hamming;
pub mod sha2;
pub mod vigener;

pub use self::hamming::HammingECC;
pub use self::sha2::{Sha224, Sha256, Sha384, Sha512, Sha512_224, Sha512_256};
pub use self::vigener::Vigener;
