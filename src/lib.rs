//! Set accumulators with a native reference computation and a value-level
//! model of the batched-update circuit: a hash-tree (Merkle) backend over the
//! BN256 scalar field with the Poseidon hash, and an RSA-group backend whose
//! digest is a generator raised to the product of the present elements.

pub mod field;
pub mod gen_set;
pub mod merkle;
pub mod merkle_circuit;
pub mod rsa;
pub mod rsa_circuit;
pub mod bench;
pub mod bignum;
