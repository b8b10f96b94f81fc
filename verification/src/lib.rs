//! RSA-4096 signing with EMSA-PSS encoding over fixed-width integers.
//!
//! The crate is layered from the bottom up: word arithmetic, multi-word
//! little-endian integers, Montgomery multiplication, windowed modular
//! exponentiation, the MGF1 mask generator, the PSS encoder, the signing
//! service and the command dispatcher.

pub mod word;
pub mod limbs;
pub mod congruence;
pub mod uint;
pub mod montgomery;
pub mod modexp;
pub mod hash;
pub mod mgf1;
pub mod bytes;
pub mod pss;
pub mod sign;
pub mod msg;
pub mod dispatch;
