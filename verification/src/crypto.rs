pub mod aead;
pub mod hash;
pub mod identity;
pub mod random;
pub mod sign;
pub mod wrap;
