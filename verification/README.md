# ecc_p521

Elliptic-curve cryptography over the NIST curve P-521, written in Verus.

* `bignum` — numbers as little-endian base-2^32 digits; the arithmetic is done
  by `num_bigint` behind small trusted functions whose contracts state the
  result over `nat_of`, the value of the digits.
* `modulus` — the `Modulus` and `EllipticCurve` traits and the P-521 constants,
  with their values as numbers.
* `field` — `Field<M>`, integers modulo the curve prime, with laws of the
  operations (inverses, cancellation, hexadecimal round trip) and hexadecimal
  and decimal text.
* `affine`, `projective` — points in affine and projective coordinates;
  addition, doubling, double-and-add and the Montgomery ladder, each stated
  exactly over the coordinates.
* `prime` — Bezout's identity: modulo a prime, every number it does not divide
  has an inverse.
* `consistency` — proofs that projective addition and doubling, on points with
  any invertible `Z`, agree with affine addition; that the projective Montgomery
  ladder computes what the same ladder computes on affine points; that addition
  is commutative with the point at infinity as neutral element; that the sum of
  two curve points is on the curve; and that on a prime field every addition and
  scalar multiplication of curve points is defined.
* `multiples` — `k * pt` as `pt` added to itself `k` times: double-and-add,
  the affine ladder and the projective ladder all compute it, proved from the
  associativity of point addition (the group law), which is taken as a stated
  hypothesis, and a prime modulus.
* `crypto` — key pairs, ECDH, a stream cipher keyed by ECDH, and ECDSA. Under
  the same hypotheses it proves that both ECDH parties reach the same secret,
  that decryption with the receiver's private key recovers a message encrypted
  to its public key, and that a signature verifies under the signer's public
  key (the last also assuming a prime order `n` with `n * G` the point at
  infinity); and that, on a prime field, none of the conversions these make can
  fail. The P-521 base point is proved to lie on the curve; the primality of
  P-521's modulus and order is not proved here.

`app/main.rs` is a benchmark of the point operations and, with the argument
`crypto`, a walk through key agreement, encryption and signatures.
