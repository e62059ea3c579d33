//! SHAKE128, SHAKE256, TurboSHAKE128 and TurboSHAKE256 over one Keccak-p[1600]
//! implementation, with the permutation, the sponge and the hashing
//! functions proved against their definitions in FIPS 202 and RFC 9861.
pub mod instruction;
pub mod keccak;
pub mod laws;
pub mod shake;
pub mod sponge;

pub use shake::{
    SHAKE128_RATE, SHAKE256_RATE, Shake, Shake128, Shake256, TurboShake128, TurboShake256, Xof,
};
