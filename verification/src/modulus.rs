//! The moduli and curves the library works with.
use crate::bignum::{lemma_nat_of_ge_first, nat_of};
use vstd::prelude::*;

verus! {

/// A modulus for field arithmetic.
pub trait Modulus: Sized {
    /// The modulus, as a number.
    spec fn spec_modulo() -> nat;

    /// The digits of the modulus.
    fn get_modulo() -> (m: Vec<u32>)
        ensures
            nat_of(m@) == Self::spec_modulo(),
    ;

    /// Every modulus is at least 2.
    proof fn lemma_modulo_gt_one()
        ensures
            Self::spec_modulo() > 1,
    ;
}

/// A short Weierstrass curve y^2 = x^3 + a*x + b over the field of its modulus,
/// with a base point (the generator) and the order of that point.
pub trait EllipticCurve: Modulus {
    spec fn spec_a() -> nat;

    spec fn spec_b() -> nat;

    spec fn spec_gen_x() -> nat;

    spec fn spec_gen_y() -> nat;

    spec fn spec_order() -> nat;

    fn a() -> (r: Vec<u32>)
        ensures
            nat_of(r@) == Self::spec_a(),
    ;

    fn b() -> (r: Vec<u32>)
        ensures
            nat_of(r@) == Self::spec_b(),
    ;

    fn gen_x() -> (r: Vec<u32>)
        ensures
            nat_of(r@) == Self::spec_gen_x(),
    ;

    fn gen_y() -> (r: Vec<u32>)
        ensures
            nat_of(r@) == Self::spec_gen_y(),
    ;

    fn order() -> (r: Vec<u32>)
        ensures
            nat_of(r@) == Self::spec_order(),
    ;

    /// The modulus of a curve exceeds every small constant the point formulas use
    /// (up to 8), and the order of the base point is at least 2.
    proof fn lemma_curve_bounds()
        ensures
            Self::spec_modulo() > 8,
            Self::spec_order() > 1,
    ;
}

/// The NIST curve P-521.
#[derive(PartialEq, Eq, Clone, Copy, Debug)]
pub struct P521 {}

/// Digits of the field prime 2^521 - 1.
pub open spec fn p521_p_digits() -> Seq<u32> {
    seq![
        0xffffffffu32, 0xffffffffu32, 0xffffffffu32, 0xffffffffu32, 0xffffffffu32,
        0xffffffffu32, 0xffffffffu32, 0xffffffffu32, 0xffffffffu32, 0xffffffffu32,
        0xffffffffu32, 0xffffffffu32, 0xffffffffu32, 0xffffffffu32, 0xffffffffu32,
        0xffffffffu32, 0x1ffu32,
    ]
}

/// Digits of the curve coefficient a = p - 3.
pub open spec fn p521_a_digits() -> Seq<u32> {
    seq![
        0xfffffffcu32, 0xffffffffu32, 0xffffffffu32, 0xffffffffu32, 0xffffffffu32,
        0xffffffffu32, 0xffffffffu32, 0xffffffffu32, 0xffffffffu32, 0xffffffffu32,
        0xffffffffu32, 0xffffffffu32, 0xffffffffu32, 0xffffffffu32, 0xffffffffu32,
        0xffffffffu32, 0x1ffu32,
    ]
}

/// Digits of the curve coefficient b.
pub open spec fn p521_b_digits() -> Seq<u32> {
    seq![
        0x6b503f00u32, 0xef451fd4u32, 0x3d2c34f1u32, 0x3573df88u32, 0x3bb1bf07u32,
        0x1652c0bdu32, 0xec7e937bu32, 0x56193951u32, 0x8ef109e1u32, 0xb8b48991u32,
        0x99b315f3u32, 0xa2da725bu32, 0xb68540eeu32, 0x929a21a0u32, 0x8e1c9a1fu32,
        0x953eb961u32, 0x51u32,
    ]
}

/// Digits of the x coordinate of the base point.
pub open spec fn p521_gen_x_digits() -> Seq<u32> {
    seq![
        0xc2e5bd66u32, 0xf97e7e31u32, 0x856a429bu32, 0x3348b3c1u32, 0xa2ffa8deu32,
        0xfe1dc127u32, 0xefe75928u32, 0xa14b5e77u32, 0x6b4d3dbau32, 0xf828af60u32,
        0x53fb521u32, 0x9c648139u32, 0x2395b442u32, 0x9e3ecb66u32, 0x404e9cdu32, 0x858e06b7u32,
        0xc6u32,
    ]
}

/// Digits of the y coordinate of the base point.
pub open spec fn p521_gen_y_digits() -> Seq<u32> {
    seq![
        0x9fd16650u32, 0x88be9476u32, 0xa272c240u32, 0x353c7086u32, 0x3fad0761u32,
        0xc550b901u32, 0x5ef42640u32, 0x97ee7299u32, 0x273e662cu32, 0x17afbd17u32,
        0x579b4468u32, 0x98f54449u32, 0x2c7d1bd9u32, 0x5c8a5fb4u32, 0x9a3bc004u32,
        0x39296a78u32, 0x118u32,
    ]
}

/// Digits of the order n of the base point.
pub open spec fn p521_order_digits() -> Seq<u32> {
    seq![
        0x91386409u32, 0xbb6fb71eu32, 0x899c47aeu32, 0x3bb5c9b8u32, 0xf709a5d0u32,
        0x7fcc0148u32, 0xbf2f966bu32, 0x51868783u32, 0xfffffffau32, 0xffffffffu32,
        0xffffffffu32, 0xffffffffu32, 0xffffffffu32, 0xffffffffu32, 0xffffffffu32,
        0xffffffffu32, 0x1ffu32,
    ]
}

impl Modulus for P521 {
    open spec fn spec_modulo() -> nat {
        nat_of(p521_p_digits())
    }

    fn get_modulo() -> (r: Vec<u32>) {
        let r = vec![
            0xffffffffu32, 0xffffffffu32, 0xffffffffu32, 0xffffffffu32, 0xffffffffu32,
            0xffffffffu32, 0xffffffffu32, 0xffffffffu32, 0xffffffffu32, 0xffffffffu32,
            0xffffffffu32, 0xffffffffu32, 0xffffffffu32, 0xffffffffu32, 0xffffffffu32,
            0xffffffffu32, 0x1ffu32,
        ];
        assert(r@ == p521_p_digits());
        r
    }

    proof fn lemma_modulo_gt_one() {
        lemma_nat_of_ge_first(p521_p_digits());
    }
}

impl EllipticCurve for P521 {
    open spec fn spec_a() -> nat {
        nat_of(p521_a_digits())
    }

    open spec fn spec_b() -> nat {
        nat_of(p521_b_digits())
    }

    open spec fn spec_gen_x() -> nat {
        nat_of(p521_gen_x_digits())
    }

    open spec fn spec_gen_y() -> nat {
        nat_of(p521_gen_y_digits())
    }

    open spec fn spec_order() -> nat {
        nat_of(p521_order_digits())
    }

    fn a() -> (r: Vec<u32>) {
        let r = vec![
            0xfffffffcu32, 0xffffffffu32, 0xffffffffu32, 0xffffffffu32, 0xffffffffu32,
            0xffffffffu32, 0xffffffffu32, 0xffffffffu32, 0xffffffffu32, 0xffffffffu32,
            0xffffffffu32, 0xffffffffu32, 0xffffffffu32, 0xffffffffu32, 0xffffffffu32,
            0xffffffffu32, 0x1ffu32,
        ];
        assert(r@ == p521_a_digits());
        r
    }

    fn b() -> (r: Vec<u32>) {
        let r = vec![
            0x6b503f00u32, 0xef451fd4u32, 0x3d2c34f1u32, 0x3573df88u32, 0x3bb1bf07u32,
            0x1652c0bdu32, 0xec7e937bu32, 0x56193951u32, 0x8ef109e1u32, 0xb8b48991u32,
            0x99b315f3u32, 0xa2da725bu32, 0xb68540eeu32, 0x929a21a0u32, 0x8e1c9a1fu32,
            0x953eb961u32, 0x51u32,
        ];
        assert(r@ == p521_b_digits());
        r
    }

    fn gen_x() -> (r: Vec<u32>) {
        let r = vec![
            0xc2e5bd66u32, 0xf97e7e31u32, 0x856a429bu32, 0x3348b3c1u32, 0xa2ffa8deu32,
            0xfe1dc127u32, 0xefe75928u32, 0xa14b5e77u32, 0x6b4d3dbau32, 0xf828af60u32,
            0x53fb521u32, 0x9c648139u32, 0x2395b442u32, 0x9e3ecb66u32, 0x404e9cdu32, 0x858e06b7u32,
            0xc6u32,
        ];
        assert(r@ == p521_gen_x_digits());
        r
    }

    fn gen_y() -> (r: Vec<u32>) {
        let r = vec![
            0x9fd16650u32, 0x88be9476u32, 0xa272c240u32, 0x353c7086u32, 0x3fad0761u32,
            0xc550b901u32, 0x5ef42640u32, 0x97ee7299u32, 0x273e662cu32, 0x17afbd17u32,
            0x579b4468u32, 0x98f54449u32, 0x2c7d1bd9u32, 0x5c8a5fb4u32, 0x9a3bc004u32,
            0x39296a78u32, 0x118u32,
        ];
        assert(r@ == p521_gen_y_digits());
        r
    }

    fn order() -> (r: Vec<u32>) {
        let r = vec![
            0x91386409u32, 0xbb6fb71eu32, 0x899c47aeu32, 0x3bb5c9b8u32, 0xf709a5d0u32,
            0x7fcc0148u32, 0xbf2f966bu32, 0x51868783u32, 0xfffffffau32, 0xffffffffu32,
            0xffffffffu32, 0xffffffffu32, 0xffffffffu32, 0xffffffffu32, 0xffffffffu32,
            0xffffffffu32, 0x1ffu32,
        ];
        assert(r@ == p521_order_digits());
        r
    }

    proof fn lemma_curve_bounds() {
        lemma_nat_of_ge_first(p521_p_digits());
        lemma_nat_of_ge_first(p521_order_digits());
    }
}

/// The value of the digits from `i` on: digit `i` plus `2^32` times the value
/// of the digits after it.
proof fn lemma_nat_of_suffix(s: Seq<u32>, i: int)
    requires
        0 <= i < s.len(),
    ensures
        nat_of(s.subrange(i, s.len() as int)) == s[i] as nat + 0x1_0000_0000 * nat_of(
            s.subrange(i + 1, s.len() as int),
        ),
{
    assert(s.subrange(i, s.len() as int).drop_first() =~= s.subrange(i + 1, s.len() as int));
}

/// The value of the digits from `i` on, as a sum over their positions.
spec fn digits_value_from(s: Seq<u32>, i: nat) -> nat
    decreases s.len() - i,
{
    if i >= s.len() {
        0
    } else {
        s[i as int] as nat + 0x1_0000_0000 * digits_value_from(s, i + 1)
    }
}

/// [`nat_of`] of the digits from `i` on is [`digits_value_from`].
proof fn lemma_nat_of_from(s: Seq<u32>, i: nat)
    requires
        i <= s.len(),
    ensures
        nat_of(s.subrange(i as int, s.len() as int)) == digits_value_from(s, i),
    decreases s.len() - i,
{
    if i == s.len() {
        assert(s.subrange(i as int, s.len() as int).len() == 0);
    } else {
        lemma_nat_of_suffix(s, i as int);
        lemma_nat_of_from(s, i + 1);
    }
}

/// The value of a digit sequence, position by position.
proof fn lemma_nat_of_positional(s: Seq<u32>)
    ensures
        nat_of(s) == digits_value_from(s, 0),
{
    lemma_nat_of_from(s, 0);
    assert(s.subrange(0, s.len() as int) =~= s);
}

proof fn lemma_p521_p_digits_value()
    ensures
        nat_of(p521_p_digits()) == 0x1ffffffffffffffffffffffffffffffffffffffffffffffffffffffffffffffffffffffffffffffffffffffffffffffffffffffffffffffffffffffffffffffffffnat,
{
    lemma_nat_of_positional(p521_p_digits());
    reveal_with_fuel(digits_value_from, 18);
}

proof fn lemma_p521_a_digits_value()
    ensures
        nat_of(p521_a_digits()) == 0x1fffffffffffffffffffffffffffffffffffffffffffffffffffffffffffffffffffffffffffffffffffffffffffffffffffffffffffffffffffffffffffffffffcnat,
{
    lemma_nat_of_positional(p521_a_digits());
    reveal_with_fuel(digits_value_from, 18);
}

proof fn lemma_p521_b_digits_value()
    ensures
        nat_of(p521_b_digits()) == 0x51953eb9618e1c9a1f929a21a0b68540eea2da725b99b315f3b8b489918ef109e156193951ec7e937b1652c0bd3bb1bf073573df883d2c34f1ef451fd46b503f00nat,
{
    lemma_nat_of_positional(p521_b_digits());
    reveal_with_fuel(digits_value_from, 18);
}

proof fn lemma_p521_gen_x_digits_value()
    ensures
        nat_of(p521_gen_x_digits()) == 0xc6858e06b70404e9cd9e3ecb662395b4429c648139053fb521f828af606b4d3dbaa14b5e77efe75928fe1dc127a2ffa8de3348b3c1856a429bf97e7e31c2e5bd66nat,
{
    lemma_nat_of_positional(p521_gen_x_digits());
    reveal_with_fuel(digits_value_from, 18);
}

proof fn lemma_p521_gen_y_digits_value()
    ensures
        nat_of(p521_gen_y_digits()) == 0x11839296a789a3bc0045c8a5fb42c7d1bd998f54449579b446817afbd17273e662c97ee72995ef42640c550b9013fad0761353c7086a272c24088be94769fd16650nat,
{
    lemma_nat_of_positional(p521_gen_y_digits());
    reveal_with_fuel(digits_value_from, 18);
}

proof fn lemma_p521_order_digits_value()
    ensures
        nat_of(p521_order_digits()) == 0x1fffffffffffffffffffffffffffffffffffffffffffffffffffffffffffffffffa51868783bf2f966b7fcc0148f709a5d03bb5c9b8899c47aebb6fb71e91386409nat,
{
    lemma_nat_of_positional(p521_order_digits());
    reveal_with_fuel(digits_value_from, 18);
}

/// The values of the P-521 parameters.
pub proof fn lemma_p521_values()
    ensures
        P521::spec_modulo() == 0x1ffffffffffffffffffffffffffffffffffffffffffffffffffffffffffffffffffffffffffffffffffffffffffffffffffffffffffffffffffffffffffffffffffnat,
        P521::spec_a() == 0x1fffffffffffffffffffffffffffffffffffffffffffffffffffffffffffffffffffffffffffffffffffffffffffffffffffffffffffffffffffffffffffffffffcnat,
        P521::spec_b() == 0x51953eb9618e1c9a1f929a21a0b68540eea2da725b99b315f3b8b489918ef109e156193951ec7e937b1652c0bd3bb1bf073573df883d2c34f1ef451fd46b503f00nat,
        P521::spec_gen_x() == 0xc6858e06b70404e9cd9e3ecb662395b4429c648139053fb521f828af606b4d3dbaa14b5e77efe75928fe1dc127a2ffa8de3348b3c1856a429bf97e7e31c2e5bd66nat,
        P521::spec_gen_y() == 0x11839296a789a3bc0045c8a5fb42c7d1bd998f54449579b446817afbd17273e662c97ee72995ef42640c550b9013fad0761353c7086a272c24088be94769fd16650nat,
        P521::spec_order() == 0x1fffffffffffffffffffffffffffffffffffffffffffffffffffffffffffffffffa51868783bf2f966b7fcc0148f709a5d03bb5c9b8899c47aebb6fb71e91386409nat,
{
    lemma_p521_p_digits_value();
    lemma_p521_a_digits_value();
    lemma_p521_b_digits_value();
    lemma_p521_gen_x_digits_value();
    lemma_p521_gen_y_digits_value();
    lemma_p521_order_digits_value();
}

/// The order of the P-521 base point is below the modulus.
pub proof fn lemma_p521_order_below_modulus()
    ensures
        P521::spec_order() < P521::spec_modulo(),
{
    lemma_p521_values();
}

} // verus!
