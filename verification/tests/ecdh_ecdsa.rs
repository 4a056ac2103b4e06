//! Key pairs, ECDH, the stream cipher and ECDSA on P-521.
use ecc_p521::affine::AffinePoint;
use ecc_p521::crypto::{Ecdh, Ecdsa, PrivateKey, PublicKey, Signature, StreamCipher};
use ecc_p521::field::Field;
use ecc_p521::modulus::{EllipticCurve, P521};
use rand::rngs::StdRng;
use rand::SeedableRng;

type F = Field<P521>;

const G2: (&str, &str) = (
    "433c219024277e7e682fcb288148c282747403279b1ccc06352c6e5505d769be97b3b204da6ef55507aa104a3a35c5af41cf2fa364d60fd967f43e3933ba6d783d",
    "f4bb8cc7f86db26700a7f3eceeeed3f0b5c6b5107c4da97740ab21a29906c42dbbb3e377de9f251f6b93937fa99a3248f4eafcbe95edc0f4f71be356d661f41b02",
);
const EPHEMERAL_7G: (&str, &str) = (
    "56d5d1d99d5b7f6346eeb65fda0b073a0c5f22e0e8f5483228f018d2c2f7114c5d8c308d0abfc698d8c9a6df30dce3bbc46f953f50fdc2619a01cead882816ecd4",
    "3d2d1b7d9baaa2a110d1d8317a39d68478b5c582d02824f0dd71dbd98a26cbde556bd0f293cdec9e2b9523a34591ce1a5f9e76712a5ddefc7b5c6b8bc90525251b",
);
const WRAPPED_KEY: [u8; 32] = [
    117, 69, 231, 188, 125, 205, 180, 172, 118, 35, 55, 242, 226, 195, 233, 35, 146, 219, 0, 216,
    62, 23, 68, 183, 27, 232, 49, 139, 28, 2, 8, 40,
];
const MESSAGE: &[u8] = b"hello, elliptic world! this message is longer than 32 bytes.";
const ENCIPHERED: [u8; 60] = [
    105, 103, 111, 104, 106, 42, 39, 109, 101, 102, 98, 124, 121, 103, 108, 48, 102, 125, 97, 120,
    113, 55, 55, 108, 113, 115, 104, 60, 112, 123, 108, 83, 96, 101, 102, 36, 108, 117, 39, 100,
    102, 100, 108, 105, 127, 46, 123, 120, 112, 124, 51, 39, 39, 54, 117, 97, 109, 127, 104, 50,
];
const SIG_R: &str = "76ca1fa9613a70e8b2cecd8f64877968e32b91b16cd65166ca44b1439883a919e263c09cff2f7f39e770ebda9057d2f1198804a1c160f0bb99eb9ae6fab28f78b";
const SIG_S: &str = "b63a3665c60498588d1f8a2a75b6d8144e546c8942ea6fcd2104717eff014c53fb8f5bdd28aa648835e82cf72f5da4fa87cb9d6ae1aa2fd88edd77b50d2436b05";

fn key(v: u64) -> PrivateKey<P521> {
    PrivateKey { scalar: F::from_u64(v) }
}

fn hex_of(digits: &Vec<u32>) -> String {
    F::from_digits(digits).to_hex()
}

#[test]
fn public_key_is_scalar_times_generator() {
    let pk = key(2).public_key();
    assert_eq!((pk.point.x.to_hex(), pk.point.y.to_hex()), (G2.0.to_string(), G2.1.to_string()));
    let g = key(1).public_key();
    assert!(g.point == AffinePoint::get_generator());
}

#[test]
fn ecdh_parties_agree() {
    let mut rng = StdRng::seed_from_u64(2024);
    let alice = PrivateKey::<P521>::generate(&mut rng);
    let bob = PrivateKey::<P521>::generate(&mut rng);
    let alice_pub = alice.public_key();
    let bob_pub = bob.public_key();
    let s1 = Ecdh::compute_shared_secret(&alice, &bob_pub).unwrap();
    let s2 = Ecdh::compute_shared_secret(&bob, &alice_pub).unwrap();
    assert_eq!(s1, s2);
}

#[test]
fn ecdh_known_secret() {
    // 3 * (5 * G) has the x coordinate of 15 * G
    let s = Ecdh::compute_shared_secret(&key(3), &key(5).public_key()).unwrap();
    let fifteen = key(15).public_key();
    assert_eq!(hex_of(&s), fifteen.point.x.to_hex());
}

#[test]
fn ecdh_at_infinity_is_an_error() {
    let inf = PublicKey { point: AffinePoint::<P521>::new_infinity() };
    assert_eq!(
        Ecdh::compute_shared_secret(&key(3), &inf).unwrap_err(),
        "Shared secret is point at infinity"
    );
    assert_eq!(
        StreamCipher::decrypt(&key(3), &inf, &[1, 2], &[3]).unwrap_err(),
        "Shared secret is point at infinity"
    );
}

#[test]
fn stream_cipher_known_answer() {
    let mut k = [0u8; 32];
    for (i, b) in k.iter_mut().enumerate() {
        *b = (i + 1) as u8;
    }
    let receiver = key(11).public_key();
    let (q, c_k, c_m) = StreamCipher::encrypt_with(&k, &key(7), &receiver, MESSAGE).unwrap();
    assert_eq!(
        (q.point.x.to_hex(), q.point.y.to_hex()),
        (EPHEMERAL_7G.0.to_string(), EPHEMERAL_7G.1.to_string())
    );
    assert_eq!(c_k, WRAPPED_KEY.to_vec());
    assert_eq!(c_m, ENCIPHERED.to_vec());
    let m = StreamCipher::decrypt(&key(11), &q, &c_k, &c_m).unwrap();
    assert_eq!(m, MESSAGE.to_vec());
}

#[test]
fn stream_cipher_roundtrip() {
    let mut rng = StdRng::seed_from_u64(99);
    let bob = PrivateKey::<P521>::generate(&mut rng);
    let bob_pub = bob.public_key();
    let message = b"secret message do not read pls!!!";
    let (ephemeral_pub, c_k, c_m) = StreamCipher::encrypt(&mut rng, &bob_pub, message).unwrap();
    assert_eq!(c_k.len(), 32);
    assert_eq!(c_m.len(), message.len());
    assert_ne!(c_m, message.to_vec());
    let decrypted = StreamCipher::decrypt(&bob, &ephemeral_pub, &c_k, &c_m).unwrap();
    assert_eq!(decrypted, message.to_vec());
}

#[test]
fn decrypt_with_empty_key_gives_empty_message() {
    let m = StreamCipher::decrypt(&key(2), &key(3).public_key(), &[], &[1, 2, 3]).unwrap();
    assert!(m.is_empty());
}

#[test]
fn ecdsa_known_signature() {
    let k = F::from_u64(12345).number;
    let sig = Ecdsa::sign_with_nonce(&k, &key(42), b"abc").unwrap();
    assert_eq!(hex_of(&sig.r), SIG_R);
    assert_eq!(hex_of(&sig.s), SIG_S);
    assert!(Ecdsa::verify(&key(42).public_key(), b"abc", &sig));
    assert!(!Ecdsa::verify(&key(42).public_key(), b"abd", &sig));
    assert!(!Ecdsa::verify(&key(43).public_key(), b"abc", &sig));
}

#[test]
fn ecdsa_zero_nonce_gives_no_signature() {
    assert!(Ecdsa::sign_with_nonce(&vec![], &key(42), b"abc").is_none());
}

#[test]
fn ecdsa_sign_verify_roundtrip() {
    let mut rng = StdRng::seed_from_u64(5);
    let alice = PrivateKey::<P521>::generate(&mut rng);
    let alice_pub = alice.public_key();
    let document = b"data for signing and also signing";
    let sig = Ecdsa::sign(&mut rng, &alice, document).unwrap();
    assert!(Ecdsa::verify(&alice_pub, document, &sig));
    let mut tampered = document.to_vec();
    tampered[0] = b'e';
    assert!(!Ecdsa::verify(&alice_pub, &tampered, &sig));
}

#[test]
fn ecdsa_out_of_range_signatures_are_rejected() {
    let pk = key(42).public_key();
    let n = P521::order();
    let sig = Ecdsa::sign_with_nonce(&F::from_u64(12345).number, &key(42), b"abc").unwrap();
    let zero_r = Signature { r: vec![], s: sig.s.clone() };
    assert!(!Ecdsa::verify(&pk, b"abc", &zero_r));
    let big_s = Signature { r: sig.r.clone(), s: n.clone() };
    assert!(!Ecdsa::verify(&pk, b"abc", &big_s));
    let big_r = Signature { r: n, s: sig.s.clone() };
    assert!(!Ecdsa::verify(&pk, b"abc", &big_r));
}
