//! Elliptic-curve arithmetic over prime fields, with the NIST P-521 curve,
//! ECDH key agreement, an ECIES-style stream cipher and ECDSA signatures.
pub mod bignum;
pub mod modulus;
pub mod field;
pub mod affine;
pub mod projective;
pub mod crypto;
pub mod prime;
pub mod consistency;
pub mod multiples;
