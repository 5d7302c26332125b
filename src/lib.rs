//! Lattice-based private information retrieval: modular and polynomial
//! arithmetic, negacyclic number-theoretic transforms and their laws, the
//! Chinese remainder split of the ciphertext modulus, gadget decomposition,
//! Ring-GSW encryption, the record and response encodings, and the
//! cuckoo-hashing batch layer.
pub mod arith;
pub mod number_theory;
pub mod crt;
pub mod ntt;
pub mod ntt_laws;
mod rng;
pub mod cyclo;
pub mod crt_eval;
pub mod matrix;
pub mod gadget;
pub mod gsw;
pub mod records;
pub mod wire;
pub mod cuckoo;
