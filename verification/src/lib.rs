//! Verified arithmetic and data flow of an ORAM built on (R)LWE ciphertexts.
pub mod backend;
pub mod codec;
pub mod context;
pub mod expansion;
pub mod keyswitch;
pub mod lwe;
pub mod noise;
pub mod oram;
pub mod packing;
pub mod params;
pub mod poly;
pub mod rgsw;
pub mod ring;
pub mod retrieval;
pub mod rlwe;
pub mod trace;
pub mod update;
