//! A keyed obfuscation codec: plaintext is rewritten into characters of a
//! small "typable" key alphabet by a stateful base-conversion substitution
//! cipher, and a decoder with the same parameters recovers it exactly.

pub mod alphabet;
pub mod base;
pub mod codec;

pub use alphabet::get_k;
pub use base::compress_base;
pub use base::expand_base;
pub use base::modulo;
pub use codec::decode;
pub use codec::encode;
pub use codec::encode_char;
pub use codec::CipherState;
pub use codec::DecodeError;
