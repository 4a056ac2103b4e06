//! Arithmetic modulo the P-521 prime.
use ecc_p521::field::Field;
use ecc_p521::modulus::{Modulus, P521};
use rand::SeedableRng;

type F = Field<P521>;

const P_HEX: &str = "1ffffffffffffffffffffffffffffffffffffffffffffffffffffffffffffffffffffffffffffffffffffffffffffffffffffffffffffffffffffffffffffffffff";
const P_MINUS_1_HEX: &str = "1fffffffffffffffffffffffffffffffffffffffffffffffffffffffffffffffffffffffffffffffffffffffffffffffffffffffffffffffffffffffffffffffffe";
const P_MINUS_2_HEX: &str = "1fffffffffffffffffffffffffffffffffffffffffffffffffffffffffffffffffffffffffffffffffffffffffffffffffffffffffffffffffffffffffffffffffd";
const HALF_HEX: &str = "10000000000000000000000000000000000000000000000000000000000000000000000000000000000000000000000000000000000000000000000000000000000";

fn f(v: u64) -> F {
    F::from_u64(v)
}

#[test]
fn new_reduces_modulo_p() {
    // p + 5
    let digits: Vec<u32> = vec![0x4u32, 0x0u32, 0x0u32, 0x0u32, 0x0u32, 0x0u32, 0x0u32, 0x0u32, 0x0u32, 0x0u32, 0x0u32, 0x0u32, 0x0u32, 0x0u32, 0x0u32, 0x0u32, 0x200u32];
    let x = F::new(digits);
    assert_eq!(x.to_hex(), "5");
    assert_eq!(F::new(P521::get_modulo()).to_hex(), "0");
}

#[test]
fn modulus_is_the_p521_value() {
    assert_eq!(F::from_digits(&vec![]).to_hex(), "0");
    let p = Field::<P521> { number: P521::get_modulo(), modulo: std::marker::PhantomData };
    assert_eq!(p.to_hex(), P_HEX);
}

#[test]
fn add_sub_mul_values() {
    assert_eq!(f(7).add_field(&f(9)).to_hex(), "10");
    assert_eq!(f(3).sub_field(&f(5)).to_hex(), P_MINUS_2_HEX);
    assert_eq!(f(5).sub_field(&f(3)).to_hex(), "2");
    assert_eq!(F::minus_one().mul_field(&F::minus_one()).to_hex(), "1");
    assert_eq!(f(6).mul_field(&f(7)).to_hex(), "2a");
    assert_eq!(F::minus_one().add_field(&f(2)).to_hex(), "1");
}

#[test]
fn operators_match_methods() {
    let a = f(100);
    let b = f(42);
    assert_eq!((&a + &b).to_hex(), "8e");
    assert_eq!((&a - &b).to_hex(), "3a");
    assert_eq!((&a * &b).to_hex(), "1068");
    assert_eq!((a.clone() + b.clone()).to_hex(), "8e");
    assert_eq!((a.clone() - &b).to_hex(), "3a");
    assert_eq!((&a * b.clone()).to_hex(), "1068");
    assert_eq!((f(10) / f(5)).to_hex(), "2");
    let mut c = f(1);
    c += F::minus_one();
    assert!(c.is_zero());
}

#[test]
fn division_and_inverse() {
    assert_eq!(f(1).div_field(&f(2)).to_hex(), HALF_HEX);
    assert_eq!(f(2).inv().unwrap().to_hex(), HALF_HEX);
    assert!(F::zero().inv().is_none());
    let x = f(123456789);
    let y = x.inv().unwrap();
    assert_eq!(x.mul_field(&y).to_hex(), "1");
    // (a / b) * b == a
    let q = f(77).div_field(&f(13));
    assert_eq!(q.mul_field(&f(13)).to_hex(), "4d");
}

#[test]
fn additive_inverse() {
    assert_eq!(f(1).inv_additive().to_hex(), P_MINUS_1_HEX);
    assert_eq!(F::zero().inv_additive().to_hex(), "0");
    let x = f(987654321);
    assert!(x.add_field(&x.inv_additive()).is_zero());
}

#[test]
fn constants() {
    assert_eq!(F::one().to_hex(), "1");
    assert!(F::zero().is_zero());
    assert!(!F::one().is_zero());
    assert_eq!(F::minus_one().to_hex(), P_MINUS_1_HEX);
    assert_eq!(F::default().to_hex(), "0");
    assert_eq!(F::from(300u64).to_hex(), "12c");
    assert_eq!(F::from(&vec![1u32, 1u32]).to_hex(), "100000001");
}

#[test]
fn powers() {
    assert_eq!(f(2).pow(10).to_hex(), "400");
    assert_eq!(f(3).pow(0).to_hex(), "1");
    assert_eq!(f(2).pow_field(&f(10)).to_hex(), "400");
    // Fermat: a^(p-1) == 1
    assert_eq!(f(5).pow_field(&F::minus_one()).to_hex(), "1");
}

#[test]
fn hex_parsing() {
    assert_eq!(F::from_hex("0x1f").unwrap().to_hex(), "1f");
    assert_eq!(F::from_hex("0X1F").unwrap().to_hex(), "1f");
    assert_eq!(F::from_hex("0x0xff").unwrap().to_hex(), "ff");
    assert_eq!(F::from_hex("+ff").unwrap().to_hex(), "ff");
    assert_eq!(F::from_hex("1_0").unwrap().to_hex(), "10");
    assert_eq!(F::from_hex(P_HEX).unwrap().to_hex(), "0");
    assert!(F::from_hex("").is_err());
    assert!(F::from_hex("0x").is_err());
    assert!(F::from_hex("xyz").is_err());
    assert!(F::from_hex("_1").is_err());
    assert!(F::from_hex("++1").is_err());
}

#[test]
fn hex_roundtrip() {
    for v in [0u64, 1, 15, 16, 255, 4096, 0xdeadbeef, u64::MAX] {
        let x = f(v);
        assert_eq!(F::from_hex(&x.to_hex()).unwrap().to_hex(), x.to_hex());
    }
    assert_eq!(f(0).to_hex(), "0");
    assert_eq!(f(255).to_hex(), "ff");
}

#[test]
fn decimal_parsing() {
    assert_eq!(F::from_decimal("123").unwrap().to_hex(), "7b");
    assert_eq!("4096".parse::<F>().unwrap().to_hex(), "1000");
    assert!(F::from_decimal("12a").is_err());
    assert!("".parse::<F>().is_err());
}

#[test]
fn random_elements_are_reduced() {
    let mut rng = rand::rngs::StdRng::seed_from_u64(7);
    for _ in 0..10 {
        let x = F::get_random(&mut rng);
        assert_eq!(F::new(x.number.clone()).number, x.number);
    }
}

#[test]
fn equality_by_value() {
    let a = f(5);
    let b = Field::<P521> { number: vec![5, 0, 0], modulo: std::marker::PhantomData };
    assert!(a == b);
    assert!(a != f(6));
}

#[test]
fn nonzero_elements_are_invertible() {
    let mut rng = rand::rngs::StdRng::seed_from_u64(11);
    for _ in 0..20 {
        let x = F::get_random(&mut rng);
        if x.is_zero() {
            continue;
        }
        let y = x.inv().unwrap();
        assert_eq!(x.mul_field(&y).to_hex(), "1");
    }
    let m1 = F::minus_one();
    assert_eq!(m1.inv().unwrap().to_hex(), P_MINUS_1_HEX);
}

#[test]
fn decimal_text_and_small_conversions() {
    assert_eq!(f(0).to_decimal(), "0");
    assert_eq!(f(1234567890).to_decimal(), "1234567890");
    let p = Field::<P521> { number: P521::get_modulo(), modulo: std::marker::PhantomData };
    assert_eq!(
        p.to_decimal(),
        "6864797660130609714981900799081393217269435300143305409394463459185543183397656052122559640661454554977296311391480858037121987999716643812574028291115057151"
    );
    assert!(F::from_i32(42) == f(42));
    assert_eq!(F::from_i32(0).to_decimal(), "0");
}
