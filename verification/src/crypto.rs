//! Key pairs, ECDH key agreement, a stream cipher keyed by ECDH, and ECDSA.
use crate::affine::{
    affine_generator, affine_infinity, is_curve_point, lemma_p521_generator_on_curve, AffinePoint,
};
use crate::consistency::{
    is_reduced_curve_point, is_reduced_proj, lemma_affine_add_total, lemma_affine_proj_roundtrip,
    lemma_proj_add_agrees, lemma_proj_mul_total,
};
use crate::bignum::{
    be_bytes_of, be_value, big_add, big_eq, big_from_bytes_be, big_lt, big_modinv, big_mul,
    big_random_below, big_rem, big_to_bytes_be, digits_are_zero, inverse_of, invertible,
    is_inverse, nat_of, random_bytes_32, sha256, sha256_of,
};
use crate::field::{lemma_inverse_of, Field};
use crate::modulus::{EllipticCurve, Modulus, P521};
use crate::multiples::{
    group_law, lemma_proj_mul_is_repeated_sum, padd, lemma_repeated_sum_add, lemma_repeated_sum_closed,
    lemma_repeated_sum_mod, lemma_repeated_sum_mul, repeated_sum,
};
use crate::prime::{is_prime, lemma_prime_invertible, lemma_prime_product};
use crate::consistency::{eqv, lemma_eqv_add, lemma_eqv_eq, lemma_eqv_mul};
use crate::projective::{
    affine_to_proj_spec, proj_add_of, proj_has_affine, proj_mul_of, proj_to_affine_spec,
    ProjectivePoint,
};
use rand::rngs::StdRng;
use vstd::prelude::*;

verus! {

/// A private key: a scalar.
#[derive(Debug)]
pub struct PrivateKey<M: EllipticCurve> {
    pub scalar: Field<M>,
}

/// A public key: a point of the curve.
#[derive(Debug)]
pub struct PublicKey<M: EllipticCurve> {
    pub point: AffinePoint<M>,
}

/// Elliptic-curve Diffie-Hellman key agreement.
pub struct Ecdh;

/// A stream cipher whose key is wrapped with an ECDH shared secret.
pub struct StreamCipher;

/// The ephemeral public key, the wrapped key and the encrypted message.
pub type Ciphertext<M> = (PublicKey<M>, Vec<u8>, Vec<u8>);

/// An ECDSA signature.
#[derive(Debug)]
pub struct Signature {
    pub r: Vec<u32>,
    pub s: Vec<u32>,
}

/// Elliptic-curve digital signatures.
pub struct Ecdsa;

// ---------------------------------------------------------------------------
// Model
// ---------------------------------------------------------------------------

/// `k * Q` in projective coordinates, from the affine point `q`, as the ladder
/// computes it; under the group law it stands for `Q` added to itself `k` times
/// ([`lemma_scalar_point_is_repeated_sum`]).
pub open spec fn scalar_point<M: EllipticCurve>(k: nat, q: (nat, nat, bool)) -> (nat, nat, nat) {
    proj_mul_of::<M>(affine_to_proj_spec(q), k)
}

/// `k * G` for the base point `G`.
pub open spec fn public_point<M: EllipticCurve>(k: nat) -> (nat, nat, nat) {
    scalar_point::<M>(k, affine_generator::<M>())
}

/// The affine point a projective one stands for, on curve `M`.
pub open spec fn to_affine<M: EllipticCurve>(pt: (nat, nat, nat)) -> (nat, nat, bool) {
    proj_to_affine_spec(M::spec_modulo(), pt)
}

/// Whether the projective point converts to affine coordinates on curve `M`.
pub open spec fn has_affine<M: EllipticCurve>(pt: (nat, nat, nat)) -> bool {
    proj_has_affine(M::spec_modulo(), pt)
}

/// The ECDH shared secret for scalar `k` and public point `q`: the x coordinate
/// of `k * Q`, or `None` where that is the point at infinity.
pub open spec fn ecdh_spec<M: EllipticCurve>(k: nat, q: (nat, nat, bool)) -> Option<nat> {
    let s = to_affine::<M>(scalar_point::<M>(k, q));
    if s.2 {
        None
    } else {
        Some(s.0)
    }
}

/// Byte-wise exclusive or of two sequences, as long as the shorter one.
pub open spec fn xor_zip(a: Seq<u8>, b: Seq<u8>) -> Seq<u8> {
    Seq::new(if a.len() <= b.len() { a.len() } else { b.len() }, |i: int| a[i] ^ b[i])
}

/// Exclusive or of `m` with `k` repeated; empty where `k` is.
pub open spec fn xor_cycle(m: Seq<u8>, k: Seq<u8>) -> Seq<u8> {
    if k.len() == 0 {
        Seq::empty()
    } else {
        Seq::new(m.len(), |i: int| m[i] ^ k[i % (k.len() as int)])
    }
}

/// The key that wraps the stream key: SHA-256 of the shortest big-endian bytes
/// of the shared secret.
pub open spec fn wrap_key_of(secret: nat) -> Seq<u8> {
    sha256_of(be_bytes_of(secret))
}

/// What encryption with stream key `k` and ephemeral scalar `e`, for the
/// receiver's point `q` and message `m`, gives: the ECDH error where the shared
/// secret is the point at infinity; otherwise the ephemeral public point, the
/// stream key wrapped with the secret, and the message enciphered with the key.
pub open spec fn encrypt_outcome<M: EllipticCurve>(
    k: Seq<u8>,
    e: nat,
    q: (nat, nat, bool),
    m: Seq<u8>,
    r: Result<Ciphertext<M>, &'static str>,
) -> bool {
    match ecdh_spec::<M>(e, q) {
        None => r is Err && r->Err_0@ == "Shared secret is point at infinity"@,
        Some(s) => {
            &&& r is Ok
            &&& r->Ok_0.0.point@ == to_affine::<M>(public_point::<M>(e))
            &&& r->Ok_0.1@ == xor_zip(k, wrap_key_of(s))
            &&& r->Ok_0.2@ == xor_cycle(m, k)
            &&& wrap_key_of(s).len() == 32
        },
    }
}

/// The conversions an encryption with ephemeral scalar `e` for point `q` makes
/// are defined.
pub open spec fn encrypt_defined<M: EllipticCurve>(e: nat, q: (nat, nat, bool)) -> bool {
    has_affine::<M>(public_point::<M>(e)) && has_affine::<M>(scalar_point::<M>(e, q))
}

/// What decryption with the shared secret `s` makes of a wrapped key `ck` and
/// an enciphered message `cm`.
pub open spec fn decrypt_with_secret(s: nat, ck: Seq<u8>, cm: Seq<u8>) -> Seq<u8> {
    xor_cycle(cm, xor_zip(ck, wrap_key_of(s)))
}

/// The message digest as a number: SHA-256, read big-endian.
pub open spec fn digest_value(message: Seq<u8>) -> nat {
    be_value(sha256_of(message))
}

/// The `r` of a signature with nonce `k`: the x coordinate of `k * G`, modulo
/// the order.
pub open spec fn nonce_r<M: EllipticCurve>(k: nat) -> nat {
    to_affine::<M>(public_point::<M>(k % M::spec_modulo())).0 % M::spec_order()
}

/// Whether a signing attempt with nonce `k` runs without panicking: the point
/// `k * G` converts to affine coordinates, and `k` is invertible modulo the
/// order where the attempt gets that far.
pub open spec fn nonce_usable<M: EllipticCurve>(k: nat) -> bool {
    k == 0 || (has_affine::<M>(public_point::<M>(k % M::spec_modulo())) && (nonce_r::<M>(k) == 0
        || invertible(k, M::spec_order())))
}

/// The signature `(r, s)` that nonce `k` gives for digest `z` and private
/// scalar `d`: `None` where `k`, `r` or `s` is zero (the attempt is dropped).
pub open spec fn sign_with_nonce_spec<M: EllipticCurve>(k: nat, z: nat, d: nat) -> Option<(nat, nat)> {
    let n = M::spec_order();
    if k == 0 {
        None
    } else {
        let r = nonce_r::<M>(k);
        if r == 0 {
            None
        } else {
            let s = (inverse_of(k, n) * ((z + (r * d) % n) % n)) % n;
            if s == 0 {
                None
            } else {
                Some((r, s))
            }
        }
    }
}

/// The point `u1 * G + u2 * Q` that verification computes for digest `z` and
/// signature `(r, s)`, with `w = s^-1 mod n`, `u1 = z*w mod n`, `u2 = r*w mod n`.
pub open spec fn verify_point<M: EllipticCurve>(q: (nat, nat, bool), z: nat, r: nat, s: nat) -> (
    nat,
    nat,
    nat,
) {
    let n = M::spec_order();
    let p = M::spec_modulo();
    let w = inverse_of(s, n);
    let u1 = (z * w) % n;
    let u2 = (r * w) % n;
    proj_add_of::<M>(public_point::<M>(u1 % p), scalar_point::<M>(u2 % p, q))
}

/// Whether `r` and `s` lie in `[1, n)` and `s` is invertible modulo `n`.
pub open spec fn signature_in_range<M: EllipticCurve>(r: nat, s: nat) -> bool {
    let n = M::spec_order();
    0 < r < n && 0 < s < n && invertible(s, n)
}

/// Whether `(r, s)` is a valid signature of digest `z` under public point `q`:
/// both in range, and `u1 * G + u2 * Q` is a finite point whose x coordinate is
/// `r` modulo the order.
pub open spec fn verify_spec<M: EllipticCurve>(q: (nat, nat, bool), z: nat, r: nat, s: nat) -> bool {
    if !signature_in_range::<M>(r, s) {
        false
    } else {
        let pt = to_affine::<M>(verify_point::<M>(q, z, r, s));
        !pt.2 && pt.0 % M::spec_order() == r
    }
}

// ---------------------------------------------------------------------------
// Laws of the cipher
// ---------------------------------------------------------------------------

/// Enciphering twice with the same non-empty key gives the message back.
pub proof fn lemma_xor_cycle_involution(m: Seq<u8>, k: Seq<u8>)
    requires
        k.len() > 0,
    ensures
        xor_cycle(xor_cycle(m, k), k) == m,
{
    let c = xor_cycle(m, k);
    assert forall|i: int| 0 <= i < m.len() implies #[trigger] xor_cycle(c, k)[i] == m[i] by {
        let (a, b) = (m[i], k[i % (k.len() as int)]);
        assert((a ^ b) ^ b == a) by (bit_vector);
    }
    assert(xor_cycle(c, k) =~= m);
}

/// Unwrapping a wrapped key with the same wrap key, at least as long, gives the
/// key back.
pub proof fn lemma_xor_zip_involution(k: Seq<u8>, w: Seq<u8>)
    requires
        k.len() <= w.len(),
    ensures
        xor_zip(xor_zip(k, w), w) == k,
{
    assert forall|i: int| 0 <= i < k.len() implies #[trigger] xor_zip(xor_zip(k, w), w)[i]
        == k[i] by {
        let (a, b) = (k[i], w[i]);
        assert((a ^ b) ^ b == a) by (bit_vector);
    }
    assert(xor_zip(xor_zip(k, w), w) =~= k);
}

/// Decryption undoes encryption: where both sides reach the same shared
/// secret `s`, decrypting the wrapped key and message that encryption with a
/// 32-byte stream key `k` produced gives the message back.
pub proof fn lemma_decrypt_encrypt(s: nat, k: Seq<u8>, m: Seq<u8>)
    requires
        k.len() == 32,
        sha256_of(be_bytes_of(s)).len() == 32,
    ensures
        decrypt_with_secret(s, xor_zip(k, wrap_key_of(s)), xor_cycle(m, k)) == m,
{
    lemma_xor_zip_involution(k, wrap_key_of(s));
    lemma_xor_cycle_involution(m, k);
}

// ---------------------------------------------------------------------------
// On a prime field the conversions never fail
// ---------------------------------------------------------------------------

/// On a prime field, `k * Q` for a reduced point `Q` of the curve converts to
/// affine coordinates (so ECDH and decryption never panic), and is again a
/// point of the curve.
pub proof fn lemma_scalar_point_converts<M: EllipticCurve>(k: nat, q: (nat, nat, bool))
    requires
        is_prime(M::spec_modulo()),
        is_reduced_curve_point::<M>(q),
    ensures
        is_reduced_proj(M::spec_modulo(), scalar_point::<M>(k, q)),
        has_affine::<M>(scalar_point::<M>(k, q)),
        is_reduced_curve_point::<M>(to_affine::<M>(scalar_point::<M>(k, q))),
{
    let p = M::spec_modulo();
    M::lemma_curve_bounds();
    lemma_affine_proj_roundtrip(p, q);
    lemma_proj_mul_total::<M>(affine_to_proj_spec(q), k);
}

/// On a prime field whose base point lies on the curve, `k * G` converts to
/// affine coordinates for every `k` (so `public_key` never panics), and is a
/// point of the curve.
pub proof fn lemma_public_point_converts<M: EllipticCurve>(k: nat)
    requires
        is_prime(M::spec_modulo()),
        is_curve_point::<M>(affine_generator::<M>()),
    ensures
        is_reduced_proj(M::spec_modulo(), public_point::<M>(k)),
        has_affine::<M>(public_point::<M>(k)),
        is_reduced_curve_point::<M>(to_affine::<M>(public_point::<M>(k))),
{
    M::lemma_curve_bounds();
    lemma_scalar_point_converts::<M>(k, affine_generator::<M>());
}

/// On a prime field whose base point lies on the curve, encryption for a
/// receiver whose public point is a reduced point of the curve never panics,
/// whatever ephemeral scalar it draws.
pub proof fn lemma_encrypt_always_defined<M: EllipticCurve>(q: (nat, nat, bool))
    requires
        is_prime(M::spec_modulo()),
        is_curve_point::<M>(affine_generator::<M>()),
        is_reduced_curve_point::<M>(q),
    ensures
        forall|e: nat| #[trigger] encrypt_defined::<M>(e, q),
{
    assert forall|e: nat| #[trigger] encrypt_defined::<M>(e, q) by {
        lemma_public_point_converts::<M>(e);
        lemma_scalar_point_converts::<M>(e, q);
    }
}

/// On a prime field whose base point lies on the curve, with a prime order,
/// every signing attempt runs without panicking, whatever nonce it draws.
pub proof fn lemma_nonces_usable<M: EllipticCurve>()
    requires
        is_prime(M::spec_modulo()),
        is_prime(M::spec_order()),
        is_curve_point::<M>(affine_generator::<M>()),
    ensures
        forall|k: nat| k < M::spec_order() ==> #[trigger] nonce_usable::<M>(k),
{
    assert forall|k: nat| k < M::spec_order() implies #[trigger] nonce_usable::<M>(k) by {
        lemma_public_point_converts::<M>(k % M::spec_modulo());
        if k != 0 {
            vstd::arithmetic::div_mod::lemma_small_mod(k, M::spec_order());
            lemma_prime_invertible(k, M::spec_order());
        }
    }
}

/// On a prime field whose base point lies on the curve, verification against
/// a public point that is a reduced point of the curve never panics: the point
/// `u1 * G + u2 * Q` it converts always has affine coordinates.
pub proof fn lemma_verify_point_converts<M: EllipticCurve>(
    q: (nat, nat, bool),
    z: nat,
    r: nat,
    s: nat,
)
    requires
        is_prime(M::spec_modulo()),
        is_curve_point::<M>(affine_generator::<M>()),
        is_reduced_curve_point::<M>(q),
    ensures
        has_affine::<M>(verify_point::<M>(q, z, r, s)),
{
    let (p, n) = (M::spec_modulo(), M::spec_order());
    M::lemma_curve_bounds();
    let w = inverse_of(s, n);
    let u1 = (z * w) % n;
    let u2 = (r * w) % n;
    let pt1 = public_point::<M>(u1 % p);
    let pt2 = scalar_point::<M>(u2 % p, q);
    lemma_public_point_converts::<M>(u1 % p);
    lemma_scalar_point_converts::<M>(u2 % p, q);
    lemma_affine_add_total(
        p,
        M::spec_a(),
        M::spec_b(),
        proj_to_affine_spec(p, pt1),
        proj_to_affine_spec(p, pt2),
    );
    lemma_proj_add_agrees(p, M::spec_a(), M::spec_b(), pt1, pt2);
}

// ---------------------------------------------------------------------------
// Multiples as repeated sums, and the laws of the protocols
// ---------------------------------------------------------------------------

/// Under the group law, `k * Q` for a reduced point `Q` of the curve converts
/// to affine coordinates, and is `Q` added to itself `k` times.
pub proof fn lemma_scalar_point_is_repeated_sum<M: EllipticCurve>(k: nat, q: (nat, nat, bool))
    requires
        group_law::<M>(),
        is_reduced_curve_point::<M>(q),
    ensures
        is_reduced_proj(M::spec_modulo(), scalar_point::<M>(k, q)),
        has_affine::<M>(scalar_point::<M>(k, q)),
        to_affine::<M>(scalar_point::<M>(k, q)) == repeated_sum::<M>(q, k),
        is_reduced_curve_point::<M>(to_affine::<M>(scalar_point::<M>(k, q))),
{
    let p = M::spec_modulo();
    M::lemma_curve_bounds();
    lemma_affine_proj_roundtrip(p, q);
    vstd::arithmetic::div_mod::lemma_small_mod(1, p);
    lemma_proj_mul_is_repeated_sum::<M>(affine_to_proj_spec(q), k);
    lemma_repeated_sum_closed::<M>(q, k);
}

/// The base point of curve `M` is a reduced point of the curve wherever it
/// lies on the curve.
proof fn lemma_generator_reduced<M: EllipticCurve>()
    requires
        is_curve_point::<M>(affine_generator::<M>()),
    ensures
        is_reduced_curve_point::<M>(affine_generator::<M>()),
{
    M::lemma_curve_bounds();
    vstd::arithmetic::div_mod::lemma_mod_bound(M::spec_gen_x() as int, M::spec_modulo() as int);
    vstd::arithmetic::div_mod::lemma_mod_bound(M::spec_gen_y() as int, M::spec_modulo() as int);
}

/// Under the group law, with the base point on the curve, a public point
/// `k * G` (and so `public_key`) is `G` added to itself `k` times.
pub proof fn lemma_public_point_is_repeated_sum<M: EllipticCurve>(k: nat)
    requires
        group_law::<M>(),
        is_curve_point::<M>(affine_generator::<M>()),
    ensures
        is_reduced_proj(M::spec_modulo(), public_point::<M>(k)),
        has_affine::<M>(public_point::<M>(k)),
        to_affine::<M>(public_point::<M>(k)) == repeated_sum::<M>(affine_generator::<M>(), k),
        is_reduced_curve_point::<M>(to_affine::<M>(public_point::<M>(k))),
{
    lemma_generator_reduced::<M>();
    lemma_scalar_point_is_repeated_sum::<M>(k, affine_generator::<M>());
}

/// The ECDH shared secret is the x coordinate of the multiple: under the group
/// law, for a reduced point `Q` of the curve, the secret of scalar `k` and `Q`
/// is the x coordinate of `Q` added to itself `k` times, and there is none
/// exactly where that multiple is the point at infinity.
pub proof fn lemma_ecdh_is_x_of_multiple<M: EllipticCurve>(k: nat, q: (nat, nat, bool))
    requires
        group_law::<M>(),
        is_reduced_curve_point::<M>(q),
    ensures
        ecdh_spec::<M>(k, q) is Some <==> !repeated_sum::<M>(q, k).2,
        ecdh_spec::<M>(k, q) is Some ==> ecdh_spec::<M>(k, q).unwrap() == repeated_sum::<M>(
            q,
            k,
        ).0,
{
    lemma_scalar_point_is_repeated_sum::<M>(k, q);
}

/// ECDH agreement: under the group law, with the base point on the curve, the
/// holder of `a` with the peer's public point `b * G`, and the holder of `b`
/// with `a * G`, compute the same shared secret (or both the point at
/// infinity).
pub proof fn lemma_ecdh_agreement<M: EllipticCurve>(a: nat, b: nat)
    requires
        group_law::<M>(),
        is_curve_point::<M>(affine_generator::<M>()),
    ensures
        has_affine::<M>(scalar_point::<M>(a, to_affine::<M>(public_point::<M>(b)))),
        has_affine::<M>(scalar_point::<M>(b, to_affine::<M>(public_point::<M>(a)))),
        ecdh_spec::<M>(a, to_affine::<M>(public_point::<M>(b))) == ecdh_spec::<M>(
            b,
            to_affine::<M>(public_point::<M>(a)),
        ),
{
    let g = affine_generator::<M>();
    lemma_generator_reduced::<M>();
    lemma_public_point_is_repeated_sum::<M>(a);
    lemma_public_point_is_repeated_sum::<M>(b);
    lemma_scalar_point_is_repeated_sum::<M>(a, to_affine::<M>(public_point::<M>(b)));
    lemma_scalar_point_is_repeated_sum::<M>(b, to_affine::<M>(public_point::<M>(a)));
    lemma_repeated_sum_mul::<M>(g, b, a);
    lemma_repeated_sum_mul::<M>(g, a, b);
    vstd::arithmetic::mul::lemma_mul_is_commutative(a as int, b as int);
}

/// Decryption undoes encryption: under the group law, with the base point on
/// the curve, what encryption to the public point `d * G` produces (with any
/// 32-byte stream key and ephemeral scalar), decryption with `d` and the
/// ephemeral public point turns back into the message; the conversions
/// decryption makes are defined.
pub proof fn lemma_decrypt_undoes_encrypt<M: EllipticCurve>(
    k: Seq<u8>,
    e: nat,
    d: nat,
    m: Seq<u8>,
    c: Result<Ciphertext<M>, &'static str>,
)
    requires
        group_law::<M>(),
        is_curve_point::<M>(affine_generator::<M>()),
        k.len() == 32,
        encrypt_outcome::<M>(k, e, to_affine::<M>(public_point::<M>(d)), m, c),
        c is Ok,
    ensures
        has_affine::<M>(scalar_point::<M>(d, c->Ok_0.0.point@)),
        ecdh_spec::<M>(d, c->Ok_0.0.point@) is Some,
        decrypt_with_secret(ecdh_spec::<M>(d, c->Ok_0.0.point@).unwrap(), c->Ok_0.1@, c->Ok_0.2@)
            == m,
{
    lemma_ecdh_agreement::<M>(d, e);
    let s = ecdh_spec::<M>(e, to_affine::<M>(public_point::<M>(d))).unwrap();
    lemma_decrypt_encrypt(s, k, m);
}

/// The x coordinate of the nonce point, modulo the order, under the group law:
/// `nonce_r(k)` is that of `G` added to itself `k mod p` times.
pub proof fn lemma_nonce_r_is_repeated_sum<M: EllipticCurve>(k: nat)
    requires
        group_law::<M>(),
        is_curve_point::<M>(affine_generator::<M>()),
    ensures
        nonce_r::<M>(k) == repeated_sum::<M>(affine_generator::<M>(), k % M::spec_modulo()).0
            % M::spec_order(),
{
    lemma_public_point_is_repeated_sum::<M>(k % M::spec_modulo());
}

/// The scalars verification forms from a signature made with nonce `k`
/// combine back into `k`: with `s = k^-1 * (z + r*d) mod n` and `w = s^-1 mod
/// n`, `(z*w mod n) + d * (r*w mod n)` is `k` modulo a prime `n`.
proof fn lemma_ecdsa_scalars(k: nat, z: nat, r: nat, d: nat, n: nat)
    requires
        is_prime(n),
        0 < k < n,
        (inverse_of(k, n) * ((z + (r * d) % n) % n)) % n != 0,
    ensures
        ({
            let s = (inverse_of(k, n) * ((z + (r * d) % n) % n)) % n;
            let w = inverse_of(s, n);
            &&& invertible(s, n)
            &&& ((z * w) % n + d * ((r * w) % n)) % n == k
        }),
{
    let ni = n as int;
    vstd::arithmetic::div_mod::lemma_small_mod(k, n);
    vstd::arithmetic::div_mod::lemma_small_mod(1, n);
    lemma_prime_invertible(k, n);
    let ki = inverse_of(k, n);
    assert(is_inverse(k, ki, n));
    let t = (z + (r * d) % n) % n;
    let s = (ki * t) % n;
    vstd::arithmetic::div_mod::lemma_mod_bound((ki * t) as int, ni);
    vstd::arithmetic::div_mod::lemma_small_mod(s, n);
    lemma_prime_invertible(s, n);
    let w = inverse_of(s, n);
    assert(is_inverse(s, w, n));
    let u1 = (z * w) % n;
    let u2 = (r * w) % n;
    let (zi, ri, di, wi, ti, kii, ki_) = (z as int, r as int, d as int, w as int, t as int, ki as int, k as int);
    // t == z + r d, s == ki t
    vstd::arithmetic::div_mod::lemma_mod_twice((r * d) as int, ni);
    vstd::arithmetic::div_mod::lemma_add_mod_noop(zi, (r * d) as int, ni);
    vstd::arithmetic::div_mod::lemma_add_mod_noop(zi, ((r * d) % n) as int, ni);
    vstd::arithmetic::div_mod::lemma_mod_twice(zi + ((r * d) % n) as int, ni);
    assert(eqv(ti, zi + ri * di, ni));
    vstd::arithmetic::div_mod::lemma_mod_twice(kii * ti, ni);
    assert(eqv(s as int, kii * ti, ni));
    // u1 + d u2 == w (z + r d) == w t
    vstd::arithmetic::div_mod::lemma_mod_twice(zi * wi, ni);
    vstd::arithmetic::div_mod::lemma_mod_twice(ri * wi, ni);
    lemma_eqv_mul(di, di, u2 as int, ri * wi, ni);
    lemma_eqv_add(u1 as int, zi * wi, di * u2, di * (ri * wi), ni);
    assert(zi * wi + di * (ri * wi) == wi * (zi + ri * di)) by (nonlinear_arith);
    lemma_eqv_mul(wi, wi, zi + ri * di, ti, ni);
    assert(eqv(u1 + di * u2, wi * ti, ni));
    // k == k (s w) == (k ki) (t w) == t w
    lemma_eqv_mul(ki_, ki_, (s * w) as int, 1, ni);
    lemma_eqv_mul(s as int, kii * ti, wi, wi, ni);
    lemma_eqv_mul(ki_, ki_, (s as int) * wi, (kii * ti) * wi, ni);
    assert(ki_ * ((kii * ti) * wi) == (ki_ * kii) * (wi * ti)) by (nonlinear_arith);
    lemma_eqv_mul((ki_ * kii), 1, wi * ti, wi * ti, ni);
    assert(eqv(ki_, wi * ti, ni));
    lemma_eqv_eq(((u1 + d * u2) % n) as nat, k, n);
}

/// What a signing attempt gives, by the defining relation of ECDSA: under the
/// group law, with a prime order `n` not above the modulus and the base point
/// on the curve, a nonce `0 < k < n` gives a signature exactly when
/// `r = x(k * G) mod n` and `z + r*d mod n` are nonzero, and then the signature
/// is `(r, s)` with `0 < s < n` and `s * k == z + r*d` modulo `n`.
pub proof fn lemma_sign_with_nonce_relation<M: EllipticCurve>(k: nat, z: nat, d: nat)
    requires
        group_law::<M>(),
        is_prime(M::spec_order()),
        is_curve_point::<M>(affine_generator::<M>()),
        M::spec_order() <= M::spec_modulo(),
        0 < k < M::spec_order(),
    ensures
        ({
            let n = M::spec_order();
            let r = repeated_sum::<M>(affine_generator::<M>(), k).0 % n;
            &&& (sign_with_nonce_spec::<M>(k, z, d) is Some <==> (r != 0 && (z + r * d) % n != 0))
            &&& (sign_with_nonce_spec::<M>(k, z, d) is Some ==> {
                let (r1, s1) = sign_with_nonce_spec::<M>(k, z, d).unwrap();
                &&& r1 == r
                &&& 0 < s1 < n
                &&& (s1 * k) % n == (z + r * d) % n
            })
        }),
{
    let (p, n) = (M::spec_modulo(), M::spec_order());
    let ni = n as int;
    M::lemma_curve_bounds();
    vstd::arithmetic::div_mod::lemma_small_mod(k, p);
    lemma_nonce_r_is_repeated_sum::<M>(k);
    let r = nonce_r::<M>(k);
    vstd::arithmetic::div_mod::lemma_small_mod(k, n);
    vstd::arithmetic::div_mod::lemma_small_mod(1, n);
    lemma_prime_invertible(k, n);
    let ki = inverse_of(k, n);
    assert(is_inverse(k, ki, n));
    let t = (z + (r * d) % n) % n;
    // t == (z + r d) mod n
    vstd::arithmetic::div_mod::lemma_add_mod_noop(z as int, (r * d) as int, ni);
    vstd::arithmetic::div_mod::lemma_add_mod_noop(z as int, ((r * d) % n) as int, ni);
    vstd::arithmetic::div_mod::lemma_mod_twice((r * d) as int, ni);
    assert(t == (z + r * d) % n);
    let s = (ki * t) % n;
    vstd::arithmetic::div_mod::lemma_mod_bound((ki * t) as int, ni);
    if t != 0 {
        // ki is not a multiple of n (k * ki == 1), nor is t, so s != 0
        if ki % n == 0 {
            vstd::arithmetic::div_mod::lemma_small_mod(ki, n);
            assert(ki == 0);
            assert(k * ki == 0) by (nonlinear_arith)
                requires
                    ki == 0,
            ;
            vstd::arithmetic::div_mod::lemma_small_mod(0, n);
        }
        vstd::arithmetic::div_mod::lemma_mod_bound((z + r * d) as int, ni);
        vstd::arithmetic::div_mod::lemma_small_mod(t, n);
        lemma_prime_product(ki, t, n);
        // s * k == ki t k == (k ki) t == t
        vstd::arithmetic::div_mod::lemma_mul_mod_noop_left((ki * t) as int, k as int, ni);
        assert((ki * t) * k == (k * ki) * t) by (nonlinear_arith);
        vstd::arithmetic::div_mod::lemma_mul_mod_noop_left((k * ki) as int, t as int, ni);
        assert(1 * t == t);
        assert((s * k) % n == t);
    } else {
        assert(ki * t == 0) by (nonlinear_arith)
            requires
                t == 0,
        ;
        vstd::arithmetic::div_mod::lemma_small_mod(0, n);
    }
}

/// Exactly which signatures verification accepts: under the group law, with a
/// prime order `n` not above the modulus, the base point on the curve and a
/// public point `Q` that is a reduced point of the curve, `(r, s)` is valid for
/// digest `z` exactly when `0 < r < n`, `0 < s < n`, and, with
/// `w = s^-1 mod n`, the point `(z*w mod n) * G + (r*w mod n) * Q` is finite
/// with x coordinate `r` modulo `n`.
pub proof fn lemma_verify_accepts_exactly<M: EllipticCurve>(
    q: (nat, nat, bool),
    z: nat,
    r: nat,
    s: nat,
)
    requires
        group_law::<M>(),
        is_prime(M::spec_order()),
        is_curve_point::<M>(affine_generator::<M>()),
        M::spec_order() <= M::spec_modulo(),
        is_reduced_curve_point::<M>(q),
    ensures
        verify_spec::<M>(q, z, r, s) <==> ({
            let n = M::spec_order();
            let w = inverse_of(s, n);
            let pt = padd::<M>(
                repeated_sum::<M>(affine_generator::<M>(), (z * w) % n),
                repeated_sum::<M>(q, (r * w) % n),
            );
            &&& 0 < r < n
            &&& 0 < s < n
            &&& !pt.2
            &&& pt.0 % n == r
        }),
{
    let n = M::spec_order();
    lemma_verify_point_is_sum::<M>(q, z, r, s);
    if 0 < s < n {
        vstd::arithmetic::div_mod::lemma_small_mod(s, n);
        lemma_prime_invertible(s, n);
    }
}

/// A signature verifies under the signer's public key: on a prime field with
/// associative addition and a prime order `n` of the base point `G` (on the
/// curve, with `n * G` the point at infinity, `n` not above the modulus), the
/// signature that nonce `k < n` gives for digest `z` and private scalar `d` is
/// valid for `z` under the public point `d * G`; the conversion verification
/// makes is defined.
pub proof fn lemma_signature_verifies<M: EllipticCurve>(k: nat, z: nat, d: nat)
    requires
        group_law::<M>(),
        is_prime(M::spec_order()),
        is_curve_point::<M>(affine_generator::<M>()),
        repeated_sum::<M>(affine_generator::<M>(), M::spec_order()) == affine_infinity(),
        M::spec_order() <= M::spec_modulo(),
        k < M::spec_order(),
        sign_with_nonce_spec::<M>(k, z, d) is Some,
    ensures
        ({
            let (r, s) = sign_with_nonce_spec::<M>(k, z, d).unwrap();
            let q = to_affine::<M>(public_point::<M>(d));
            &&& has_affine::<M>(verify_point::<M>(q, z, r, s))
            &&& verify_spec::<M>(q, z, r, s)
        }),
{
    let (p, n) = (M::spec_modulo(), M::spec_order());
    let g = affine_generator::<M>();
    M::lemma_curve_bounds();
    lemma_generator_reduced::<M>();
    let (r, s) = sign_with_nonce_spec::<M>(k, z, d).unwrap();
    assert(r == nonce_r::<M>(k) && r != 0);
    assert(s == (inverse_of(k, n) * ((z + (r * d) % n) % n)) % n && s != 0);
    lemma_ecdsa_scalars(k, z, r, d, n);
    let w = inverse_of(s, n);
    let u1 = (z * w) % n;
    let u2 = (r * w) % n;
    vstd::arithmetic::div_mod::lemma_mod_bound((z * w) as int, n as int);
    vstd::arithmetic::div_mod::lemma_mod_bound((r * w) as int, n as int);
    vstd::arithmetic::div_mod::lemma_mod_bound((nonce_r::<M>(k)) as int, n as int);
    vstd::arithmetic::div_mod::lemma_small_mod(u1, p);
    vstd::arithmetic::div_mod::lemma_small_mod(u2, p);
    vstd::arithmetic::div_mod::lemma_small_mod(k, p);
    // the two points verification adds, as repeated sums of G
    let q = to_affine::<M>(public_point::<M>(d));
    lemma_public_point_is_repeated_sum::<M>(d);
    lemma_public_point_is_repeated_sum::<M>(u1);
    lemma_scalar_point_is_repeated_sum::<M>(u2, q);
    lemma_repeated_sum_mul::<M>(g, d, u2);
    let pt1 = public_point::<M>(u1);
    let pt2 = scalar_point::<M>(u2, q);
    assert(verify_point::<M>(q, z, r, s) == proj_add_of::<M>(pt1, pt2));
    lemma_affine_add_total(
        p,
        M::spec_a(),
        M::spec_b(),
        to_affine::<M>(pt1),
        to_affine::<M>(pt2),
    );
    lemma_proj_add_agrees(p, M::spec_a(), M::spec_b(), pt1, pt2);
    // their sum is (u1 + d u2) * G == k * G
    lemma_repeated_sum_add::<M>(g, u1, d * u2);
    lemma_repeated_sum_mod::<M>(g, u1 + d * u2, n);
    lemma_nonce_r_is_repeated_sum::<M>(k);
    lemma_repeated_sum_closed::<M>(g, k);
    let pk = repeated_sum::<M>(g, k);
    assert(to_affine::<M>(verify_point::<M>(q, z, r, s)) == pk);
    assert(k % p == k);
    if pk.2 {
        assert(pk == affine_infinity());
        vstd::arithmetic::div_mod::lemma_small_mod(0, n);
        assert(r == 0);
    }
}

/// What verification checks, as repeated sums: under the group law, with the
/// base point on the curve and the order not above the modulus, the point
/// `u1 * G + u2 * Q` that verification converts is `G` added to itself `u1`
/// times plus `Q` added to itself `u2` times.
pub proof fn lemma_verify_point_is_sum<M: EllipticCurve>(q: (nat, nat, bool), z: nat, r: nat, s: nat)
    requires
        group_law::<M>(),
        is_curve_point::<M>(affine_generator::<M>()),
        is_reduced_curve_point::<M>(q),
        M::spec_order() <= M::spec_modulo(),
    ensures
        ({
            let n = M::spec_order();
            let w = inverse_of(s, n);
            let u1 = (z * w) % n;
            let u2 = (r * w) % n;
            &&& has_affine::<M>(verify_point::<M>(q, z, r, s))
            &&& to_affine::<M>(verify_point::<M>(q, z, r, s)) == padd::<M>(
                repeated_sum::<M>(affine_generator::<M>(), u1),
                repeated_sum::<M>(q, u2),
            )
        }),
{
    let (p, n) = (M::spec_modulo(), M::spec_order());
    M::lemma_curve_bounds();
    let w = inverse_of(s, n);
    let u1 = (z * w) % n;
    let u2 = (r * w) % n;
    vstd::arithmetic::div_mod::lemma_mod_bound((z * w) as int, n as int);
    vstd::arithmetic::div_mod::lemma_mod_bound((r * w) as int, n as int);
    vstd::arithmetic::div_mod::lemma_small_mod(u1, p);
    vstd::arithmetic::div_mod::lemma_small_mod(u2, p);
    lemma_public_point_is_repeated_sum::<M>(u1);
    lemma_scalar_point_is_repeated_sum::<M>(u2, q);
    let pt1 = public_point::<M>(u1);
    let pt2 = scalar_point::<M>(u2, q);
    lemma_affine_add_total(p, M::spec_a(), M::spec_b(), to_affine::<M>(pt1), to_affine::<M>(pt2));
    lemma_proj_add_agrees(p, M::spec_a(), M::spec_b(), pt1, pt2);
}

/// On P-521, with its modulus and order prime, every signing attempt runs
/// without panicking, whatever nonce below the order it draws.
pub proof fn lemma_p521_nonces_usable()
    requires
        is_prime(P521::spec_modulo()),
        is_prime(P521::spec_order()),
    ensures
        forall|k: nat| k < P521::spec_order() ==> #[trigger] nonce_usable::<P521>(k),
{
    lemma_p521_generator_on_curve();
    lemma_nonces_usable::<P521>();
}

// ---------------------------------------------------------------------------
// Byte helpers
// ---------------------------------------------------------------------------

/// Byte-wise exclusive or of two slices, as long as the shorter one.
pub fn xor_bytes(a: &[u8], b: &[u8]) -> (r: Vec<u8>)
    ensures
        r@ == xor_zip(a@, b@),
{
    let n = if a.len() <= b.len() {
        a.len()
    } else {
        b.len()
    };
    let mut r: Vec<u8> = Vec::new();
    let mut i: usize = 0;
    while i < n
        invariant
            i <= n,
            n == (if a@.len() <= b@.len() { a@.len() } else { b@.len() }),
            r@.len() == i,
            forall|j: int| 0 <= j < i ==> r@[j] == a@[j] ^ b@[j],
        decreases n - i,
    {
        r.push(a[i] ^ b[i]);
        i = i + 1;
    }
    assert(r@ =~= xor_zip(a@, b@));
    r
}

/// Exclusive or of `m` with `k` repeated; empty where `k` is.
pub fn xor_repeating(m: &[u8], k: &[u8]) -> (r: Vec<u8>)
    ensures
        r@ == xor_cycle(m@, k@),
{
    let mut r: Vec<u8> = Vec::new();
    if k.len() == 0 {
        assert(r@ =~= xor_cycle(m@, k@));
        return r;
    }
    let mut i: usize = 0;
    while i < m.len()
        invariant
            i <= m.len(),
            k@.len() > 0,
            r@.len() == i,
            forall|j: int| 0 <= j < i ==> r@[j] == m@[j] ^ k@[j % (k@.len() as int)],
        decreases m.len() - i,
    {
        r.push(m[i] ^ k[i % k.len()]);
        i = i + 1;
    }
    assert(r@ =~= xor_cycle(m@, k@));
    r
}

// ---------------------------------------------------------------------------
// Keys
// ---------------------------------------------------------------------------

impl<M: EllipticCurve> PrivateKey<M> {
    /// A random private key, below the modulus.
    pub fn generate(rng: &mut StdRng) -> (r: Self)
        ensures
            r.scalar@ < M::spec_modulo(),
    {
        PrivateKey { scalar: Field::<M>::get_random(rng) }
    }

    /// The public key `scalar * G`. Converting it to affine coordinates panics
    /// where its `Z` has no inverse, which `requires` rules out.
    pub fn public_key(&self) -> (r: PublicKey<M>)
        requires
            has_affine::<M>(public_point::<M>(self.scalar@)),
        ensures
            r.point@ == to_affine::<M>(public_point::<M>(self.scalar@)),
    {
        let generator_affine = AffinePoint::<M>::get_generator();
        let generator_proj = ProjectivePoint::<M>::from_affine(generator_affine);
        let pub_proj = generator_proj.mul_scalar(&self.scalar);
        PublicKey { point: AffinePoint::from_projective(pub_proj) }
    }
}

impl<M: EllipticCurve> Clone for PrivateKey<M> {
    fn clone(&self) -> (r: Self)
        ensures
            r.scalar@ == self.scalar@,
    {
        PrivateKey { scalar: self.scalar.copy() }
    }
}

impl<M: EllipticCurve> Clone for PublicKey<M> {
    fn clone(&self) -> (r: Self)
        ensures
            r.point@ == self.point@,
    {
        PublicKey { point: self.point.copy() }
    }
}

impl Clone for Signature {
    fn clone(&self) -> (res: Self)
        ensures
            res.r@ == self.r@,
            res.s@ == self.s@,
    {
        Signature { r: self.r.clone(), s: self.s.clone() }
    }
}

impl Ecdh {
    /// The shared secret: the x coordinate of `sender_priv * receiver_pub`, or an
    /// error where that product is the point at infinity. Its conversion to
    /// affine coordinates panics where `Z` has no inverse, which `requires`
    /// rules out.
    pub fn compute_shared_secret<M: EllipticCurve>(
        sender_priv: &PrivateKey<M>,
        receiver_pub: &PublicKey<M>,
    ) -> (r: Result<Vec<u32>, &'static str>)
        requires
            has_affine::<M>(scalar_point::<M>(sender_priv.scalar@, receiver_pub.point@)),
        ensures
            r is Ok <==> ecdh_spec::<M>(sender_priv.scalar@, receiver_pub.point@) is Some,
            r is Ok ==> nat_of(r->Ok_0@) == ecdh_spec::<M>(
                sender_priv.scalar@,
                receiver_pub.point@,
            ).unwrap(),
            r is Err ==> r->Err_0@ == "Shared secret is point at infinity"@,
            r is Ok <==> !to_affine::<M>(
                scalar_point::<M>(sender_priv.scalar@, receiver_pub.point@),
            ).2,
            r is Ok ==> nat_of(r->Ok_0@) == to_affine::<M>(
                scalar_point::<M>(sender_priv.scalar@, receiver_pub.point@),
            ).0,
            (group_law::<M>() && is_reduced_curve_point::<M>(receiver_pub.point@)) ==> ({
                let kq = repeated_sum::<M>(receiver_pub.point@, sender_priv.scalar@);
                &&& (r is Ok <==> !kq.2)
                &&& (r is Ok ==> nat_of(r->Ok_0@) == kq.0)
            }),
    {
        proof {
            if group_law::<M>() && is_reduced_curve_point::<M>(receiver_pub.point@) {
                lemma_scalar_point_is_repeated_sum::<M>(
                    sender_priv.scalar@,
                    receiver_pub.point@,
                );
            }
        }
        let receiver_pub_proj = ProjectivePoint::<M>::from_affine(receiver_pub.point.clone());
        let shared_point_proj = receiver_pub_proj.mul_scalar(&sender_priv.scalar);
        let shared_point_affine = AffinePoint::from_projective(shared_point_proj);
        if shared_point_affine.is_infinity {
            return Err("Shared secret is point at infinity");
        }
        Ok(shared_point_affine.x.number)
    }
}

impl StreamCipher {
    /// Encrypts with a fresh random 32-byte stream key and a fresh random
    /// ephemeral key pair; the outcome is [`encrypt_outcome`] for those two.
    /// The conversions panic where `requires` is not met for the ephemeral
    /// scalar drawn, so it asks that for every scalar below the modulus.
    pub fn encrypt<M: EllipticCurve>(
        rng: &mut StdRng,
        receiver_pub: &PublicKey<M>,
        message: &[u8],
    ) -> (r: Result<Ciphertext<M>, &'static str>)
        requires
            forall|e: nat|
                e < M::spec_modulo() ==> #[trigger] encrypt_defined::<M>(e, receiver_pub.point@),
        ensures
            exists|k: Seq<u8>, e: nat|
                k.len() == 32 && e < M::spec_modulo() && #[trigger] encrypt_outcome::<M>(
                    k,
                    e,
                    receiver_pub.point@,
                    message@,
                    r,
                ) && (r is Ok <==> !to_affine::<M>(scalar_point::<M>(e, receiver_pub.point@)).2)
                    && (r is Ok ==> ({
                    let sx = to_affine::<M>(scalar_point::<M>(e, receiver_pub.point@)).0;
                    let w = sha256_of(be_bytes_of(sx));
                    let c = r->Ok_0;
                    &&& c.0.point@ == to_affine::<M>(public_point::<M>(e))
                    &&& c.1@.len() == 32
                    &&& forall|i: int| 0 <= i < 32 ==> #[trigger] c.1@[i] == k[i] ^ w[i]
                    &&& c.2@.len() == message@.len()
                    &&& forall|i: int|
                        0 <= i < message@.len() ==> #[trigger] c.2@[i] == message@[i] ^ k[i % 32]
                })),
    {
        let k: [u8; 32] = random_bytes_32(rng);
        let ephemeral_priv = PrivateKey::<M>::generate(rng);
        assert(encrypt_defined::<M>(ephemeral_priv.scalar@, receiver_pub.point@));
        let r = Self::encrypt_with(&k, &ephemeral_priv, receiver_pub, message);
        assert(encrypt_outcome::<M>(k@, ephemeral_priv.scalar@, receiver_pub.point@, message@, r));
        r
    }

    /// Encryption with the stream key `k` and the ephemeral key pair of
    /// `ephemeral_priv`: see [`encrypt_outcome`].
    pub fn encrypt_with<M: EllipticCurve>(
        k: &[u8; 32],
        ephemeral_priv: &PrivateKey<M>,
        receiver_pub: &PublicKey<M>,
        message: &[u8],
    ) -> (r: Result<Ciphertext<M>, &'static str>)
        requires
            encrypt_defined::<M>(ephemeral_priv.scalar@, receiver_pub.point@),
        ensures
            encrypt_outcome::<M>(k@, ephemeral_priv.scalar@, receiver_pub.point@, message@, r),
            r is Ok <==> !to_affine::<M>(
                scalar_point::<M>(ephemeral_priv.scalar@, receiver_pub.point@),
            ).2,
            r is Ok ==> ({
                let sx = to_affine::<M>(
                    scalar_point::<M>(ephemeral_priv.scalar@, receiver_pub.point@),
                ).0;
                let w = sha256_of(be_bytes_of(sx));
                let c = r->Ok_0;
                &&& c.0.point@ == to_affine::<M>(public_point::<M>(ephemeral_priv.scalar@))
                &&& c.1@.len() == 32
                &&& forall|i: int| 0 <= i < 32 ==> #[trigger] c.1@[i] == k@[i] ^ w[i]
                &&& c.2@.len() == message@.len()
                &&& forall|i: int|
                    0 <= i < message@.len() ==> #[trigger] c.2@[i] == message@[i] ^ k@[i % 32]
            }),
    {
        let c_m = xor_repeating(message, k);
        let q_a = ephemeral_priv.public_key();
        let s_x = match Ecdh::compute_shared_secret(ephemeral_priv, receiver_pub) {
            Ok(s) => s,
            Err(e) => return Err(e),
        };
        let wrap_key = sha256(&big_to_bytes_be(&s_x));
        let c_k = xor_bytes(k, &wrap_key);
        Ok((q_a, c_k, c_m))
    }

    /// Decrypts: unwraps the stream key with the shared secret of
    /// `sender_private` and `receiver_pub`, then deciphers the message; an error
    /// where the shared secret is the point at infinity.
    pub fn decrypt<M: EllipticCurve>(
        sender_private: &PrivateKey<M>,
        receiver_pub: &PublicKey<M>,
        c_k: &[u8],
        c_m: &[u8],
    ) -> (r: Result<Vec<u8>, &'static str>)
        requires
            has_affine::<M>(scalar_point::<M>(sender_private.scalar@, receiver_pub.point@)),
        ensures
            r is Ok <==> ecdh_spec::<M>(sender_private.scalar@, receiver_pub.point@) is Some,
            r is Ok ==> r->Ok_0@ == decrypt_with_secret(
                ecdh_spec::<M>(sender_private.scalar@, receiver_pub.point@).unwrap(),
                c_k@,
                c_m@,
            ),
            r is Err ==> r->Err_0@ == "Shared secret is point at infinity"@,
            r is Ok <==> !to_affine::<M>(
                scalar_point::<M>(sender_private.scalar@, receiver_pub.point@),
            ).2,
            r is Ok ==> ({
                let sx = to_affine::<M>(
                    scalar_point::<M>(sender_private.scalar@, receiver_pub.point@),
                ).0;
                let w = sha256_of(be_bytes_of(sx));
                let l = if c_k@.len() <= 32 {
                    c_k@.len() as int
                } else {
                    32int
                };
                &&& r->Ok_0@.len() == (if l == 0 {
                    0
                } else {
                    c_m@.len()
                })
                &&& forall|i: int|
                    0 <= i < r->Ok_0@.len() ==> #[trigger] r->Ok_0@[i] == c_m@[i] ^ (c_k@[i % l]
                        ^ w[i % l])
            }),
    {
        let s_x = match Ecdh::compute_shared_secret(sender_private, receiver_pub) {
            Ok(s) => s,
            Err(e) => return Err(e),
        };
        let wrap_key = sha256(&big_to_bytes_be(&s_x));
        let k = xor_bytes(c_k, &wrap_key);
        let m = xor_repeating(c_m, &k);
        Ok(m)
    }
}

impl Ecdsa {
    /// The SHA-256 digest of the message, read as a big-endian number.
    fn hash_message(message: &[u8]) -> (r: Vec<u32>)
        ensures
            nat_of(r@) == digest_value(message@),
    {
        let hash_bytes = sha256(message);
        big_from_bytes_be(&hash_bytes)
    }

    /// Signs with random nonces below the order until one gives a signature
    /// (see [`sign_with_nonce_spec`]); under the group law, its `r` is the x
    /// coordinate of `k * G`, taken as `G` added to itself `k` times, modulo the
    /// order. The attempts are counted, and after `u64::MAX` of them (each fails
    /// with a chance far below 2^-500 on P-521) the error is returned.
    pub fn sign<M: EllipticCurve>(rng: &mut StdRng, private_key: &PrivateKey<M>, message: &[u8]) -> (r:
        Result<Signature, &'static str>)
        requires
            forall|k: nat| k < M::spec_order() ==> #[trigger] nonce_usable::<M>(k),
        ensures
            r is Ok ==> exists|k: nat|
                k < M::spec_order() && #[trigger] sign_with_nonce_spec::<M>(
                    k,
                    digest_value(message@),
                    private_key.scalar@,
                ) == Some((nat_of(r->Ok_0.r@), nat_of(r->Ok_0.s@))),
            (r is Ok && group_law::<M>() && is_curve_point::<M>(affine_generator::<M>())) ==> exists|
                k: nat,
            |
                0 < k < M::spec_order() && #[trigger] sign_with_nonce_spec::<M>(
                    k,
                    digest_value(message@),
                    private_key.scalar@,
                ) == Some((nat_of(r->Ok_0.r@), nat_of(r->Ok_0.s@))) && nat_of(r->Ok_0.r@)
                    == repeated_sum::<M>(affine_generator::<M>(), k % M::spec_modulo()).0
                    % M::spec_order(),
            r is Err ==> r->Err_0@ == "No nonce gave a signature"@,
            r is Err ==> exists|draws: Seq<nat>|
                draws.len() == u64::MAX && forall|i: int|
                    0 <= i < draws.len() ==> draws[i] < M::spec_order()
                        && #[trigger] sign_with_nonce_spec::<M>(
                        draws[i],
                        digest_value(message@),
                        private_key.scalar@,
                    ) is None,
            (group_law::<M>() && is_prime(M::spec_order()) && is_curve_point::<M>(
                affine_generator::<M>(),
            ) && M::spec_order() <= M::spec_modulo()) ==> ({
                let (n, z, d) = (M::spec_order(), digest_value(message@), private_key.scalar@);
                &&& r is Ok ==> exists|k: nat|
                    0 < k < n && #[trigger] repeated_sum::<M>(affine_generator::<M>(), k).0 % n
                        == nat_of(r->Ok_0.r@) && 0 < nat_of(r->Ok_0.r@) && 0 < nat_of(r->Ok_0.s@)
                        < n && (nat_of(r->Ok_0.s@) * k) % n == (z + nat_of(r->Ok_0.r@) * d) % n
                &&& r is Err ==> exists|draws: Seq<nat>|
                    draws.len() == u64::MAX && forall|i: int|
                        0 <= i < draws.len() ==> #[trigger] draws[i] < n && (draws[i] == 0 || ({
                            let rk = repeated_sum::<M>(affine_generator::<M>(), draws[i]).0 % n;
                            rk == 0 || (z + rk * d) % n == 0
                        }))
            }),
    {
        proof {
            M::lemma_curve_bounds();
        }
        let ghost hyp = group_law::<M>() && is_prime(M::spec_order()) && is_curve_point::<M>(
            affine_generator::<M>(),
        ) && M::spec_order() <= M::spec_modulo();
        let ghost z = digest_value(message@);
        let ghost d = private_key.scalar@;
        let n = M::order();
        let mut attempts: u64 = 0;
        let ghost mut draws: Seq<nat> = Seq::empty();
        while attempts < u64::MAX
            invariant
                nat_of(n@) == M::spec_order(),
                M::spec_order() > 1,
                forall|k: nat| k < M::spec_order() ==> #[trigger] nonce_usable::<M>(k),
                draws.len() == attempts,
                z == digest_value(message@),
                d == private_key.scalar@,
                hyp == (group_law::<M>() && is_prime(M::spec_order()) && is_curve_point::<M>(
                    affine_generator::<M>(),
                ) && M::spec_order() <= M::spec_modulo()),
                forall|i: int|
                    0 <= i < draws.len() ==> draws[i] < M::spec_order()
                        && #[trigger] sign_with_nonce_spec::<M>(draws[i], z, d) is None,
                hyp ==> forall|i: int|
                    0 <= i < draws.len() ==> #[trigger] draws[i] < M::spec_order() && (draws[i]
                        == 0 || ({
                        let rk = repeated_sum::<M>(affine_generator::<M>(), draws[i]).0
                            % M::spec_order();
                        rk == 0 || (z + rk * d) % M::spec_order() == 0
                    })),
            decreases u64::MAX - attempts,
        {
            attempts = attempts + 1;
            let k = big_random_below(rng, &n);
            assert(nonce_usable::<M>(nat_of(k@)));
            let attempt = Self::sign_with_nonce(&k, private_key, message);
            proof {
                if hyp && nat_of(k@) > 0 {
                    lemma_sign_with_nonce_relation::<M>(nat_of(k@), z, d);
                }
            }
            match attempt {
                Some(sig) => {
                    proof {
                        if group_law::<M>() && is_curve_point::<M>(affine_generator::<M>()) {
                            lemma_nonce_r_is_repeated_sum::<M>(nat_of(k@));
                        }
                    }
                    return Ok(sig);
                },
                None => {},
            }
            proof {
                let old_draws = draws;
                draws = draws.push(nat_of(k@));
                assert forall|i: int| 0 <= i < draws.len() implies draws[i] < M::spec_order()
                    && #[trigger] sign_with_nonce_spec::<M>(draws[i], z, d) is None by {
                    if i < old_draws.len() {
                        assert(draws[i] == old_draws[i]);
                    }
                }
                if hyp {
                    assert forall|i: int| 0 <= i < draws.len() implies #[trigger] draws[i]
                        < M::spec_order() && (draws[i] == 0 || ({
                        let rk = repeated_sum::<M>(affine_generator::<M>(), draws[i]).0
                            % M::spec_order();
                        rk == 0 || (z + rk * d) % M::spec_order() == 0
                    })) by {
                        if i < old_draws.len() {
                            assert(draws[i] == old_draws[i]);
                        }
                    }
                }
            }
        }
        Err("No nonce gave a signature")
    }

    /// One signing attempt with nonce `k`: `r` is the x coordinate of `k * G`
    /// modulo the order `n`, and `s = k^-1 * (z + r*d) mod n` for the digest `z`
    /// and private scalar `d`; `None` where `k`, `r` or `s` is zero. The
    /// attempt panics where `requires` is not met.
    pub fn sign_with_nonce<M: EllipticCurve>(
        k: &Vec<u32>,
        private_key: &PrivateKey<M>,
        message: &[u8],
    ) -> (r: Option<Signature>)
        requires
            nonce_usable::<M>(nat_of(k@)),
        ensures
            r is Some <==> sign_with_nonce_spec::<M>(
                nat_of(k@),
                digest_value(message@),
                private_key.scalar@,
            ) is Some,
            r is Some ==> Some((nat_of(r->0.r@), nat_of(r->0.s@))) == sign_with_nonce_spec::<M>(
                nat_of(k@),
                digest_value(message@),
                private_key.scalar@,
            ),
            (group_law::<M>() && is_prime(M::spec_order()) && is_curve_point::<M>(
                affine_generator::<M>(),
            ) && M::spec_order() <= M::spec_modulo() && 0 < nat_of(k@) < M::spec_order()) ==> ({
                let (n, z, d) = (M::spec_order(), digest_value(message@), private_key.scalar@);
                let rk = repeated_sum::<M>(affine_generator::<M>(), nat_of(k@)).0 % n;
                &&& (r is Some <==> (rk != 0 && (z + rk * d) % n != 0))
                &&& (r is Some ==> nat_of(r->0.r@) == rk && 0 < nat_of(r->0.s@) < n && (nat_of(
                    r->0.s@,
                ) * nat_of(k@)) % n == (z + rk * d) % n)
            }),
    {
        proof {
            if group_law::<M>() && is_prime(M::spec_order()) && is_curve_point::<M>(
                affine_generator::<M>(),
            ) && M::spec_order() <= M::spec_modulo() && 0 < nat_of(k@) < M::spec_order() {
                lemma_sign_with_nonce_relation::<M>(
                    nat_of(k@),
                    digest_value(message@),
                    private_key.scalar@,
                );
            }
        }
        proof {
            M::lemma_curve_bounds();
        }
        let n = M::order();
        let z = Self::hash_message(message);
        let d = &private_key.scalar.number;
        if digits_are_zero(k) {
            return None;
        }
        let gen_affine = AffinePoint::<M>::get_generator();
        let gen_proj = ProjectivePoint::<M>::from_affine(gen_affine);
        let point_proj = gen_proj.mul_scalar(&Field::<M>::from_digits(k));
        let point_affine = AffinePoint::from_projective(point_proj);
        let r = big_rem(&point_affine.x.number, &n);
        if digits_are_zero(&r) {
            return None;
        }
        let k_inv = big_modinv(k, &n).expect("k must be invertible");
        proof {
            lemma_inverse_of(nat_of(k@), nat_of(k_inv@), M::spec_order());
        }
        let r_times_d = big_rem(&big_mul(&r, d), &n);
        let z_plus_rd = big_rem(&big_add(&z, &r_times_d), &n);
        let s = big_rem(&big_mul(&k_inv, &z_plus_rd), &n);
        if digits_are_zero(&s) {
            return None;
        }
        Some(Signature { r, s })
    }

    /// Whether `sig` is a valid signature of `message` under `public_key`; see
    /// [`verify_spec`]. Converting `u1 * G + u2 * Q` to affine coordinates
    /// panics where its `Z` has no inverse, which `requires` rules out.
    pub fn verify<M: EllipticCurve>(public_key: &PublicKey<M>, message: &[u8], sig: &Signature) -> (r:
        bool)
        requires
            signature_in_range::<M>(nat_of(sig.r@), nat_of(sig.s@)) ==> has_affine::<M>(
                verify_point::<M>(
                    public_key.point@,
                    digest_value(message@),
                    nat_of(sig.r@),
                    nat_of(sig.s@),
                ),
            ),
        ensures
            r == verify_spec::<M>(
                public_key.point@,
                digest_value(message@),
                nat_of(sig.r@),
                nat_of(sig.s@),
            ),
            (group_law::<M>() && is_prime(M::spec_order()) && is_curve_point::<M>(
                affine_generator::<M>(),
            ) && M::spec_order() <= M::spec_modulo() && is_reduced_curve_point::<M>(
                public_key.point@,
            )) ==> (r <==> ({
                let (n, z, rr, ss) = (
                    M::spec_order(),
                    digest_value(message@),
                    nat_of(sig.r@),
                    nat_of(sig.s@),
                );
                let w = inverse_of(ss, n);
                let pt = padd::<M>(
                    repeated_sum::<M>(affine_generator::<M>(), (z * w) % n),
                    repeated_sum::<M>(public_key.point@, (rr * w) % n),
                );
                &&& 0 < rr < n
                &&& 0 < ss < n
                &&& !pt.2
                &&& pt.0 % n == rr
            })),
    {
        proof {
            if group_law::<M>() && is_prime(M::spec_order()) && is_curve_point::<M>(
                affine_generator::<M>(),
            ) && M::spec_order() <= M::spec_modulo() && is_reduced_curve_point::<M>(
                public_key.point@,
            ) {
                lemma_verify_accepts_exactly::<M>(
                    public_key.point@,
                    digest_value(message@),
                    nat_of(sig.r@),
                    nat_of(sig.s@),
                );
            }
        }
        proof {
            M::lemma_curve_bounds();
        }
        let n = M::order();
        if digits_are_zero(&sig.r) || !big_lt(&sig.r, &n) || digits_are_zero(&sig.s) || !big_lt(
            &sig.s,
            &n,
        ) {
            return false;
        }
        let z = Self::hash_message(message);
        let w = match big_modinv(&sig.s, &n) {
            Some(inv) => inv,
            None => return false,
        };
        proof {
            lemma_inverse_of(nat_of(sig.s@), nat_of(w@), M::spec_order());
        }
        let u1 = big_rem(&big_mul(&z, &w), &n);
        let u2 = big_rem(&big_mul(&sig.r, &w), &n);

        let gen_affine = AffinePoint::<M>::get_generator();
        let gen_proj = ProjectivePoint::<M>::from_affine(gen_affine);
        let pub_proj = ProjectivePoint::<M>::from_affine(public_key.point.clone());

        let u1_field = Field::<M>::new(u1);
        let u2_field = Field::<M>::new(u2);

        let point1_proj = gen_proj.mul_scalar(&u1_field);
        let point2_proj = pub_proj.mul_scalar(&u2_field);

        let sum_proj = point1_proj.add_points(&point2_proj);
        let sum_affine = AffinePoint::from_projective(sum_proj);

        if sum_affine.is_infinity {
            return false;
        }
        let x1_mod_n = big_rem(&sum_affine.x.number, &n);
        big_eq(&x1_mod_n, &sig.r)
    }
}

} // verus!
