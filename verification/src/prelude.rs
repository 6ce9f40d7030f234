//! Re-exports of the most commonly used items, for easy importing.

pub use crate::h2b::{
    HyperTwoBits, M1024 as H2bM1024, M128 as H2bM128, M2048 as H2bM2048, M256 as H2bM256,
    M4096 as H2bM4096, M512 as H2bM512, M64 as H2bM64,
};
pub use crate::h3b::HyperThreeBits;
pub use crate::hbb64::HyperBitBit64;
pub use crate::{
    AHasherBuilder, AHasherDefaultBuilder, HashStrategy, SipHasher13Builder,
    SipHasher13DefaultBuilder,
};
