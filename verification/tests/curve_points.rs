//! Affine and projective points of P-521.
use ecc_p521::affine::AffinePoint;
use ecc_p521::field::Field;
use ecc_p521::modulus::P521;
use ecc_p521::projective::ProjectivePoint;
use rand::SeedableRng;

type A = AffinePoint<P521>;
type J = ProjectivePoint<P521>;
type F = Field<P521>;

const GX: &str = "c6858e06b70404e9cd9e3ecb662395b4429c648139053fb521f828af606b4d3dbaa14b5e77efe75928fe1dc127a2ffa8de3348b3c1856a429bf97e7e31c2e5bd66";
const GY: &str = "11839296a789a3bc0045c8a5fb42c7d1bd998f54449579b446817afbd17273e662c97ee72995ef42640c550b9013fad0761353c7086a272c24088be94769fd16650";
const G2: (&str, &str) = (
    "433c219024277e7e682fcb288148c282747403279b1ccc06352c6e5505d769be97b3b204da6ef55507aa104a3a35c5af41cf2fa364d60fd967f43e3933ba6d783d",
    "f4bb8cc7f86db26700a7f3eceeeed3f0b5c6b5107c4da97740ab21a29906c42dbbb3e377de9f251f6b93937fa99a3248f4eafcbe95edc0f4f71be356d661f41b02",
);
const G3: (&str, &str) = (
    "1a73d352443de29195dd91d6a64b5959479b52a6e5b123d9ab9e5ad7a112d7a8dd1ad3f164a3a4832051da6bd16b59fe21baeb490862c32ea05a5919d2ede37ad7d",
    "13e9b03b97dfa62ddd9979f86c6cab814f2f1557fa82a9d0317d2f8ab1fa355ceec2e2dd4cf8dc575b02d5aced1dec3c70cf105c9bc93a590425f588ca1ee86c0e5",
);
const G5: (&str, &str) = (
    "652bf3c52927a432c73dbc3391c04eb0bf7a596efdb53f0d24cf03dab8f177ace4383c0c6d5e3014237112feaf137e79a329d7e1e6d8931738d5ab5096ec8f3078",
    "15be6ef1bdd6601d6ec8a2b73114a8112911cd8fe8e872e0051edd817c9a0347087bb6897c9072cf374311540211cf5ff79d1f007257354f7f8173cc3e8deb090cb",
);
const K_HEX: &str = "123456789abcdef0fedcba9876543210";
const GK: (&str, &str) = (
    "10a9e1cae0b40a5df1c1fddc8aab373eb6183b3d0fd7b7191b530547cdc4ff62e8203c365ff4950684853b13ca940c191b877ace3a468a83c6cded05aef904a3aee",
    "793c5c755fa4eb569c563506589b88ce8ee893ba2950b8c9e3e2177f922eba90e604d8bbbe9953fee9e1b8aa8e9f48fb6ff9c233a3817327358242cabe2ec028c8",
);
const ORDER_HEX: &str = "1fffffffffffffffffffffffffffffffffffffffffffffffffffffffffffffffffa51868783bf2f966b7fcc0148f709a5d03bb5c9b8899c47aebb6fb71e91386409";

fn coords(p: &A) -> (String, String) {
    (p.x.to_hex(), p.y.to_hex())
}

fn expect(p: &A, e: (&str, &str)) {
    assert!(!p.is_infinity);
    assert_eq!(coords(p), (e.0.to_string(), e.1.to_string()));
}

#[test]
fn generator_is_on_curve() {
    let g = A::get_generator();
    assert_eq!(coords(&g), (GX.to_string(), GY.to_string()));
    assert!(A::new(g.x.clone(), g.y.clone()).is_ok());
    assert!(A::from_hex(GX, GY).unwrap() == g);
}

#[test]
fn off_curve_point_is_refused() {
    let err = A::new(F::from_u64(1), F::from_u64(2)).unwrap_err();
    assert_eq!(err, "Point with given coordinates is not on curve");
    let err = A::from_hex(GX, "1").unwrap_err();
    assert_eq!(err, "Point with given coordinates is not on curve");
}

#[test]
fn unparsable_coordinates_are_refused() {
    assert_eq!(A::from_hex("xyz", GY).unwrap_err(), "invalid digit found in string");
    assert_eq!(A::from_hex(GX, "").unwrap_err(), "cannot parse integer from empty string");
}

#[test]
fn affine_doubling_and_addition() {
    let g = A::get_generator();
    let g2 = g.add_points(&g);
    expect(&g2, G2);
    let g3 = g2.add_points(&g);
    expect(&g3, G3);
    let g5 = &g3 + &g2;
    expect(&g5, G5);
    assert!(A::new(g5.x.clone(), g5.y.clone()).is_ok());
}

#[test]
fn affine_infinity_is_neutral() {
    let g = A::get_generator();
    let inf = A::new_infinity();
    assert!(inf.is_infinity);
    assert!(g.add_points(&inf) == g);
    assert!(inf.add_points(&g) == g);
    let neg = A::new(g.x.clone(), g.y.inv_additive()).unwrap();
    assert!(g.add_points(&neg).is_infinity);
}

#[test]
fn affine_scalar_multiplication() {
    let g = A::get_generator();
    expect(&g.mul_scalar(&F::from_u64(5)), G5);
    expect(&(g.clone() * F::from_u64(2)), G2);
    assert!(g.mul_scalar(&F::zero()).is_infinity);
    expect(&g.mul_scalar(&F::from_hex(K_HEX).unwrap()), GK);
}

#[test]
fn affine_random_points_are_on_curve() {
    let mut rng = rand::rngs::StdRng::seed_from_u64(11);
    let p = A::get_random(&mut rng);
    assert!(A::new(p.x.clone(), p.y.clone()).is_ok());
}

#[test]
fn projective_infinity() {
    let inf = J::new_infinity();
    assert!(inf.is_infinity());
    assert!(inf.double().is_infinity());
    let g: J = A::get_generator().into();
    assert!(!g.is_infinity());
    assert!(inf.add_points(&g) == g);
    assert!(g.add_points(&inf) == g);
    assert!(A::from_projective(J::new_infinity()).is_infinity);
    let j: J = A::new_infinity().into();
    assert!(j.is_infinity());
}

#[test]
fn projective_matches_affine() {
    let g = A::get_generator();
    let gj: J = g.clone().into();
    expect(&A::from_projective(gj.double()), G2);
    let g2j: J = A::from_hex(G2.0, G2.1).unwrap().into();
    expect(&A::from_projective(gj.add_points(&g2j)), G3);
    expect(&A::from_projective(&gj + &g2j), G3);
    let mut acc = gj.clone();
    acc += g2j;
    expect(&A::from_projective(acc), G3);
    // a point plus its negative
    let neg: J = A::new(g.x.clone(), g.y.inv_additive()).unwrap().into();
    assert!(gj.add_points(&neg).is_infinity());
    // to projective and back
    assert!(A::from_projective(gj.clone()) == g);
}

#[test]
fn projective_scalar_multiplication() {
    let gj: J = A::get_generator().into();
    expect(&A::from_projective(gj.mul_scalar(&F::from_u64(5))), G5);
    expect(&A::from_projective(gj.mul_scalar(&F::from_hex(K_HEX).unwrap())), GK);
    expect(&A::from_projective(&gj * &F::from_u64(3)), G3);
    assert!(gj.mul_scalar(&F::zero()).is_infinity());
    expect(&A::from_projective(gj.mul_scalar(&F::one())), (GX, GY));
}

#[test]
fn order_times_generator_is_infinity() {
    let gj: J = A::get_generator().into();
    let n = F::from_hex(ORDER_HEX).unwrap();
    assert!(gj.mul_scalar(&n).is_infinity());
}

#[test]
fn projective_random_points_are_on_curve() {
    let mut rng = rand::rngs::StdRng::seed_from_u64(3);
    let p = A::from_projective(J::get_random(&mut rng));
    assert!(A::new(p.x.clone(), p.y.clone()).is_ok());
}

const G4: (&str, &str) = (
    "35b5df64ae2ac204c354b483487c9070cdc61c891c5ff39afc06c5d55541d3ceac8659e24afe3d0750e8b88e9f078af066a1d5025b08e5a5e2fbc87412871902f3",
    "82096f84261279d2b673e0178eb0b4abb65521aef6e6e32e1b5ae63fe2f19907f279f283e54ba385405224f750a95b85eebb7faef04699d1d9e21f47fc346e4d0d",
);
const G6: (&str, &str) = (
    "1ee4569d6cdb59219532eff34f94480d195623d30977fd71cf3981506ade4ab01525fbcca16153f7394e0727a239531be8c2f66e95657f380ae23731bedf79206b9",
    "1de0255ad0cc64f586ae2dd270546e3b1112aabbb73da5a808e7240a926201a8a96cab72d0e56648c9df96c984de274f2203dc7b8b55ca0dade1eaccd7858d44f17",
);

#[test]
fn projective_points_with_any_z() {
    let gj: J = A::get_generator().into();
    // results of projective arithmetic carry a Z other than 1
    let g2j = gj.double();
    assert!(g2j.z != F::one());
    expect(&A::from_projective(g2j.double()), G4);
    expect(&A::from_projective(g2j.add_points(&gj)), G3);
    expect(&A::from_projective(gj.add_points(&g2j)), G3);
    let g3j = g2j.add_points(&gj);
    expect(&A::from_projective(g3j.add_points(&g3j)), G6);
    expect(&A::from_projective(g3j.add_points(&g2j.add_points(&gj))), G6);
    // the generator with every coordinate times 7
    let z = F::from_u64(7);
    let gx = F::from_hex(GX).unwrap();
    let gy = F::from_hex(GY).unwrap();
    let sj = J { x: &gx * &z, y: &gy * &z, z: z.clone() };
    expect(&A::from_projective(sj.clone()), (GX, GY));
    expect(&A::from_projective(sj.double()), G2);
    expect(&A::from_projective(sj.add_points(&gj)), G2);
    expect(&A::from_projective(sj.add_points(&g2j)), G3);
    expect(&A::from_projective(sj.mul_scalar(&F::from_u64(5))), G5);
    // its negative, scaled differently, cancels the generator
    let neg = J { x: &gx * &z, y: &gy.inv_additive() * &z, z: z.clone() };
    assert!(gj.add_points(&neg).is_infinity());
}

#[test]
fn operations_on_curve_points_stay_on_curve() {
    let mut rng = rand::rngs::StdRng::seed_from_u64(5);
    let mut pts: Vec<A> = Vec::new();
    for _ in 0..4 {
        pts.push(A::from_projective(J::get_random(&mut rng)));
    }
    for p in &pts {
        for q in &pts {
            let s = p.add_points(q);
            assert!(s.is_infinity || A::new(s.x.clone(), s.y.clone()).is_ok());
        }
        let k = F::get_random(&mut rng);
        let m = p.mul_scalar(&k);
        assert!(m.is_infinity || A::new(m.x.clone(), m.y.clone()).is_ok());
        // the projective ladder gives the same point
        let mj = A::from_projective(J::from(p.clone()).mul_scalar(&k));
        assert!(mj == m);
    }
}

#[test]
fn addition_is_commutative() {
    let mut rng = rand::rngs::StdRng::seed_from_u64(9);
    let pj = J::get_random(&mut rng);
    let qj = J::get_random(&mut rng);
    let p = A::from_projective(pj.clone());
    let q = A::from_projective(qj.clone());
    assert!(p.add_points(&q) == q.add_points(&p));
    assert!(A::from_projective(pj.add_points(&qj)) == A::from_projective(qj.add_points(&pj)));
    assert!(A::from_projective(pj.add_points(&qj)) == p.add_points(&q));
    let g = A::get_generator();
    let g2 = A::from_hex(G2.0, G2.1).unwrap();
    expect(&g.add_points(&g2), G3);
    expect(&g2.add_points(&g), G3);
}

#[test]
fn small_scalars_and_negatives() {
    let gj: J = A::get_generator().into();
    let g = A::get_generator();
    assert!(gj.mul_scalar(&F::from_u64(2)) == gj.double());
    assert!(gj.add_points(&gj) == gj.double());
    let g2j = gj.double();
    assert!(g2j.add_points(&g2j) == g2j.double());
    assert!(A::from_projective(gj.mul_scalar(&F::one())) == g);
    assert!(g.mul_scalar(&F::zero()).is_infinity);
    assert!(g.mul_scalar(&F::one()) == g);
    let neg = A::new(g.x.clone(), g.y.inv_additive()).unwrap();
    assert!(g.add_points(&neg).is_infinity);
    assert!(neg.add_points(&g).is_infinity);
}

#[test]
fn multiples_are_repeated_sums() {
    let g = A::get_generator();
    let gj: J = g.clone().into();
    let mut sum = A::new_infinity();
    for k in 0..9u64 {
        let kf = F::from_u64(k);
        assert!(g.mul_scalar(&kf) == sum);
        assert!(A::from_projective(gj.mul_scalar(&kf)) == sum);
        sum = sum.add_points(&g);
    }
}

#[test]
fn error_texts() {
    let not_on_curve = "Point with given coordinates is not on curve".to_string();
    assert_eq!(A::new(F::zero(), F::zero()).unwrap_err(), not_on_curve);
    assert_eq!(A::from_hex("0x0", "0x0").unwrap_err(), not_on_curve);
    assert_eq!(A::from_hex("0xg", "0").unwrap_err(), "invalid digit found in string".to_string());
    assert_eq!(A::from_hex("", "0").unwrap_err(), "cannot parse integer from empty string".to_string());
}

#[test]
fn point_text_is_decimal() {
    let g = A::get_generator();
    let t = g.to_text();
    assert!(t.starts_with("6864797660130609714981900799081393217269435300143305409394463459185543183397656052122559640661454554977296311391480858037121987999716643812574028291115057151\n  x: "));
    assert!(t.contains("\n  y: "));
    assert_eq!(t.lines().count(), 3);
}

#[test]
fn representatives_convert_alike() {
    let g2j = J::from(A::get_generator()).double();
    let l = F::from_u64(12345);
    let scaled = J { x: &g2j.x * &l, y: &g2j.y * &l, z: &g2j.z * &l };
    assert!(A::from_projective(scaled) == A::from_projective(g2j.clone()));
    expect(&A::from_projective(g2j), G2);
}
