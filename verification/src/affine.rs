//! Points of a curve in affine coordinates, with the chord-and-tangent addition.
use crate::bignum::{
    big_bit, big_bits, big_to_decimal, bit_len, bit_of, decimal_string, invertible, parse_error_text,
    parse_radix, string_from_chars,
};
use crate::field::{chars_of, fadd, fdiv, fmul, fsub, trim_hex_prefix, Field};
use crate::consistency::is_reduced_curve_point;
use crate::modulus::{lemma_p521_values, EllipticCurve, Modulus, P521};
use crate::multiples::{group_law, lemma_affine_mul_is_repeated_sum, repeated_sum};
use rand::rngs::StdRng;
use vstd::arithmetic::div_mod::{lemma_add_mod_noop, lemma_mul_mod_noop_left, lemma_small_mod};
use vstd::arithmetic::mul::lemma_mul_is_associative;
use vstd::arithmetic::power::{lemma_square_is_pow2, pow};
use vstd::prelude::*;

verus! {

/// A point with coordinates `x`, `y`, or the point at infinity.
#[derive(Debug)]
pub struct AffinePoint<M: EllipticCurve> {
    pub x: Field<M>,
    pub y: Field<M>,
    pub is_infinity: bool,
}

impl<M: EllipticCurve> View for AffinePoint<M> {
    type V = (nat, nat, bool);

    /// The coordinates and the infinity flag.
    open spec fn view(&self) -> (nat, nat, bool) {
        (self.x@, self.y@, self.is_infinity)
    }
}

// ---------------------------------------------------------------------------
// Model
// ---------------------------------------------------------------------------

/// Whether `(x, y)` satisfies `y^2 = x^3 + a*x + b` modulo `p`.
pub open spec fn on_curve(p: nat, a: nat, b: nat, x: nat, y: nat) -> bool {
    (x * x * x + a * x + b) % p == (y * y) % p
}

/// Whether the affine point is the point at infinity or lies on curve `M`.
pub open spec fn is_curve_point<M: EllipticCurve>(pt: (nat, nat, bool)) -> bool {
    pt.2 || on_curve(M::spec_modulo(), M::spec_a(), M::spec_b(), pt.0, pt.1)
}

/// The point at infinity, as the affine view has it.
pub open spec fn affine_infinity() -> (nat, nat, bool) {
    (0, 0, true)
}

/// Numerator and denominator of the slope through `pt` and `q`: the tangent
/// `(3*x^2 + a, 2*y)` when the points are equal, the chord `(y2 - y1, x2 - x1)`
/// otherwise.
pub open spec fn slope_parts(p: nat, a: nat, pt: (nat, nat, bool), q: (nat, nat, bool)) -> (nat, nat) {
    if pt == q {
        (fadd(fmul(3, fmul(pt.0, pt.0, p), p), a % p, p), fmul(2, pt.1, p))
    } else {
        (fsub(q.1, pt.1, p), fsub(q.0, pt.0, p))
    }
}

/// The x coordinate of the sum for slope `lambda`: `lambda^2 - x1 - x2`.
pub open spec fn sum_x(p: nat, lambda: nat, x1: nat, x2: nat) -> nat {
    fsub(fsub(fmul(lambda, lambda, p), x1, p), x2, p)
}

/// The y coordinate of the sum for slope `lambda`: `lambda * (x1 - x3) - y1`.
pub open spec fn sum_y(p: nat, lambda: nat, x1: nat, y1: nat, x3: nat) -> nat {
    fsub(fmul(lambda, fsub(x1, x3, p), p), y1, p)
}

/// The sum of two affine points as `add_points` computes it: `None` where it
/// panics (a subtraction that would underflow, a slope whose denominator has no
/// inverse, or a result off the curve).
pub open spec fn affine_add_spec(p: nat, a: nat, b: nat, pt: (nat, nat, bool), q: (nat, nat, bool)) -> Option<
    (nat, nat, bool),
> {
    if q.2 {
        Some(pt)
    } else if pt.2 {
        Some(q)
    } else if pt.0 == q.0 && pt.1 != q.1 {
        Some(affine_infinity())
    } else if pt == q && pt.1 == 0 {
        Some(affine_infinity())
    } else {
        let (num, den) = slope_parts(p, a, pt, q);
        if pt != q && !(pt.1 <= q.1 + p && pt.0 <= q.0 + p) {
            None
        } else if !invertible(den, p) {
            None
        } else {
            let lambda = fdiv(num, den, p);
            let t = fmul(lambda, lambda, p);
            if !(pt.0 <= t + p && q.0 <= fsub(t, pt.0, p) + p) {
                None
            } else {
                let x3 = sum_x(p, lambda, pt.0, q.0);
                let m = fmul(lambda, fsub(pt.0, x3, p), p);
                if !(pt.1 <= m + p) {
                    None
                } else {
                    let y3 = sum_y(p, lambda, pt.0, pt.1, x3);
                    if on_curve(p, a, b, x3, y3) {
                        Some((x3, y3, false))
                    } else {
                        None
                    }
                }
            }
        }
    }
}

/// [`affine_add_spec`] on curve `M`.
pub open spec fn affine_add_of<M: EllipticCurve>(pt: (nat, nat, bool), q: (nat, nat, bool)) -> Option<
    (nat, nat, bool),
> {
    affine_add_spec(M::spec_modulo(), M::spec_a(), M::spec_b(), pt, q)
}

/// Double-and-add from bit `i` up to bit `n - 1` of `k`, as the `*` operator
/// runs it: `None` where one of its additions panics.
pub open spec fn affine_mul_from<M: EllipticCurve>(
    result: (nat, nat, bool),
    add: (nat, nat, bool),
    k: nat,
    i: nat,
    n: nat,
) -> Option<(nat, nat, bool)>
    decreases n - i,
{
    if i >= n {
        Some(result)
    } else {
        let r1 = if bit_of(k, i) {
            affine_add_of::<M>(result, add)
        } else {
            Some(result)
        };
        let a1 = affine_add_of::<M>(add, add);
        if r1 is None || a1 is None {
            None
        } else {
            affine_mul_from::<M>(r1.unwrap(), a1.unwrap(), k, i + 1, n)
        }
    }
}

/// `k * pt` as the `*` operator computes it (double-and-add over the bits of `k`,
/// lowest first). Under the group law this is `pt` added to itself `k` times
/// (`multiples`).
pub open spec fn affine_mul_of<M: EllipticCurve>(pt: (nat, nat, bool), k: nat) -> Option<
    (nat, nat, bool),
> {
    affine_mul_from::<M>(affine_infinity(), pt, k, 0, bit_len(k))
}

/// Double-and-add on the scalar 0 gives the point at infinity, and on the
/// scalar 1 the point itself (where the doubling it also computes is
/// defined).
pub proof fn lemma_affine_mul_zero_one<M: EllipticCurve>(pt: (nat, nat, bool))
    requires
        pt.2 ==> pt == affine_infinity(),
    ensures
        affine_mul_of::<M>(pt, 0) == Some(affine_infinity()),
        affine_add_of::<M>(pt, pt) is Some ==> affine_mul_of::<M>(pt, 1) == Some(pt),
{
    assert(bit_len(0) == 0);
    assert(bit_len(1) == 1) by {
        assert(bit_len(0) == 0);
    }
    assert(bit_of(1, 0)) by {
        vstd::arithmetic::power2::lemma2_to64();
    }
    if affine_add_of::<M>(pt, pt) is Some {
        let a1 = affine_add_of::<M>(pt, pt).unwrap();
        assert(affine_add_of::<M>(affine_infinity(), pt) == Some(pt));
        assert(affine_mul_from::<M>(affine_infinity(), pt, 1, 0, 1) == affine_mul_from::<M>(
            pt,
            a1,
            1,
            1,
            1,
        ));
    }
}

/// The sum of a point and its negative `(x, p - y)` is the point at infinity,
/// modulo an odd `p`.
pub proof fn lemma_affine_add_negative(p: nat, a: nat, b: nat, x: nat, y: nat)
    requires
        p > 1,
        p % 2 == 1,
        x < p,
        y < p,
    ensures
        affine_add_spec(p, a, b, (x, y, false), (x, (p - y) as nat % p, false)) == Some(
            affine_infinity(),
        ),
{
    if y == 0 {
        vstd::arithmetic::div_mod::lemma_mod_self_0(p as int);
    } else {
        lemma_small_mod((p - y) as nat, p);
    }
}

/// The base point of curve `M`, as `get_generator` builds it.
pub open spec fn affine_generator<M: EllipticCurve>() -> (nat, nat, bool) {
    (M::spec_gen_x() % M::spec_modulo(), M::spec_gen_y() % M::spec_modulo(), false)
}

/// The base point of P-521 lies on the curve.
pub proof fn lemma_p521_generator_on_curve()
    ensures
        is_curve_point::<P521>(affine_generator::<P521>()),
{
    lemma_p521_values();
    let p = P521::spec_modulo();
    let (a, b) = (P521::spec_a(), P521::spec_b());
    let (x, y) = (P521::spec_gen_x(), P521::spec_gen_y());
    lemma_small_mod(x, p);
    lemma_small_mod(y, p);
    assert(x * x * x + a * x + b == 0x776227cd724ef673885ef260ab32e7b10ea8ac2cc9b079c999287cac597de469713b13bfd2c956ac139aa3bbae5f9d32f04b48e2480e926906a76a265df9cb4107d70cc2597f39d9e06c4c4c1694df3ee41cd55663a44da5ee0e09838a1f005bbfab80373643d2f27b4fc15192a21aff989a8cccaf30ffa45fd705129e59ed244dc973bc6ac680b66332994ff72d6c8371a2462182c3eaf2902bf6f94c17b5f9f82278ca93e5ae17787b556076942bea1244e8920d44751e1cf37b8700459434aab6c0nat);
    assert(y * y == 0x132bd175c5fee5e4c24ba51402ec2df8d7e093297ed3130a78f610eb43fa95868c176115fb12f293716e15b10ecebdb833cdf88977675247cbbfb0f08722457a9cce3bcca386cefde999f30b130ca5e5b39d931bfb4f8ece9419c97a5adbc04f2e84a1e6bc0ec1bb2c876b71ac3f2198b9c537b8188e467017f4ab5dc9a1f9783d900nat);
    vstd::arithmetic::div_mod::lemma_fundamental_div_mod_converse(
        0x776227cd724ef673885ef260ab32e7b10ea8ac2cc9b079c999287cac597de469713b13bfd2c956ac139aa3bbae5f9d32f04b48e2480e926906a76a265df9cb4107d70cc2597f39d9e06c4c4c1694df3ee41cd55663a44da5ee0e09838a1f005bbfab80373643d2f27b4fc15192a21aff989a8cccaf30ffa45fd705129e59ed244dc973bc6ac680b66332994ff72d6c8371a2462182c3eaf2902bf6f94c17b5f9f82278ca93e5ae17787b556076942bea1244e8920d44751e1cf37b8700459434aab6c0int,
        p as int,
        0x3bb113e6b9277b39c42f7930559973d88754561664d83ce4cc943e562cbef234b89d89dfe964ab5609cd51ddd72fce997825a471240749348353b5132efce5a084095eeb201c30aa8d183de2a3753c595e5214d63d0492f1696d4ee0f025dfa6fa320ee08b169bcee8acc751b83ca56719095938902a8376ca2d2c63d8c47504f726int,
        0x17d1b55e69ce70dbfb18dd9d0e1bfcb0098365900ef85819564482d07dbd99f1caad97470c4b347640227c84c688f795df1eb45d49fa193bda8b3641e58a9afade6int,
    );
    vstd::arithmetic::div_mod::lemma_fundamental_div_mod_converse(
        0x132bd175c5fee5e4c24ba51402ec2df8d7e093297ed3130a78f610eb43fa95868c176115fb12f293716e15b10ecebdb833cdf88977675247cbbfb0f08722457a9cce3bcca386cefde999f30b130ca5e5b39d931bfb4f8ece9419c97a5adbc04f2e84a1e6bc0ec1bb2c876b71ac3f2198b9c537b8188e467017f4ab5dc9a1f9783d900int,
        p as int,
        0x995e8bae2ff72f26125d28a017616fc6bf04994bf6989853c7b0875a1fd4ac3460bb08afd897949b8b70ad887675edc19e6fc44bbb3a923e5dfd878439122bd4e6int,
        0x17d1b55e69ce70dbfb18dd9d0e1bfcb0098365900ef85819564482d07dbd99f1caad97470c4b347640227c84c688f795df1eb45d49fa193bda8b3641e58a9afade6int,
    );
}

/// The left side of the curve equation, computed the way `is_on_curve` does it,
/// is `(x^3 + a*x + b) mod p`.
proof fn lemma_curve_lhs(p: nat, a: nat, b: nat, x: nat)
    requires
        p > 0,
    ensures
        (((pow(x as int, 3) % (p as int)) as nat + ((a % p) * x) % p) % p + b % p) % p == (x
            * x * x + a * x + b) % p,
{
    let (pi, xi) = (p as int, x as int);
    assert(pow(xi, 3) == xi * xi * xi) by {
        reveal(pow);
        lemma_square_is_pow2(xi);
        lemma_mul_is_associative(xi, xi, xi);
    }
    lemma_mul_mod_noop_left(a as int, xi, pi);
    lemma_add_mod_noop(xi * xi * xi, (a * x) as int, pi);
    lemma_add_mod_noop(xi * xi * xi + (a * x) as int, b as int, pi);
    lemma_small_mod(b % p, p);
    assert(b % p % p == b % p);
}

impl<M: EllipticCurve> AffinePoint<M> {
    /// The point `(x, y)`, or an error where it is not on the curve.
    pub fn new(x: Field<M>, y: Field<M>) -> (r: Result<Self, String>)
        ensures
            r is Ok <==> on_curve(M::spec_modulo(), M::spec_a(), M::spec_b(), x@, y@),
            r is Ok ==> r->Ok_0@ == (x@, y@, false),
            r is Err ==> r->Err_0@ == "Point with given coordinates is not on curve"@,
    {
        let res = AffinePoint { x, y, is_infinity: false };
        if !res.is_on_curve() {
            Err("Point with given coordinates is not on curve".to_owned())
        } else {
            Ok(res)
        }
    }

    /// The point at infinity.
    pub fn new_infinity() -> (r: Self)
        ensures
            r@ == affine_infinity(),
    {
        AffinePoint { x: Field::zero(), y: Field::zero(), is_infinity: true }
    }

    /// Whether the point is at infinity or satisfies the curve equation.
    fn is_on_curve(&self) -> (r: bool)
        ensures
            r == is_curve_point::<M>(self@),
    {
        if self.is_infinity {
            return true;
        }
        proof {
            M::lemma_modulo_gt_one();
            lemma_curve_lhs(M::spec_modulo(), M::spec_a(), M::spec_b(), self.x@);
        }
        let x = &self.x;
        let y = &self.y;
        let a = Field::<M>::from_digits(&M::a());
        let b = Field::<M>::from_digits(&M::b());
        let lhs = x.pow(3).add_field(&a.mul_field(x)).add_field(&b);
        let rhs = y.mul_field(y);
        lhs == rhs
    }

    /// The base point of the curve.
    pub fn get_generator() -> (r: Self)
        ensures
            r@ == affine_generator::<M>(),
    {
        AffinePoint {
            x: Field::<M>::new(M::gen_x()),
            y: Field::<M>::new(M::gen_y()),
            is_infinity: false,
        }
    }

    /// A random `k` below the modulus, times the base point. The
    /// multiplication panics where one of its additions does, which
    /// `requires` rules out for every `k` the draw can give.
    pub fn get_random(rng: &mut StdRng) -> (r: Self)
        requires
            forall|k: nat|
                k < M::spec_modulo() ==> (#[trigger] affine_mul_of::<M>(affine_generator::<M>(), k))
                    is Some,
        ensures
            exists|k: nat|
                k < M::spec_modulo() && r@ == (#[trigger] affine_mul_of::<M>(
                    affine_generator::<M>(),
                    k,
                )).unwrap(),
    {
        let g = Self::get_generator();
        let k = Field::<M>::get_random(rng);
        assert(affine_mul_of::<M>(affine_generator::<M>(), k@) is Some);
        g.mul_scalar(&k)
    }

    /// The sum of two points, by the chord-and-tangent rule; see [`affine_add_spec`].
    pub fn add_points(&self, rhs: &Self) -> (r: Self)
        requires
            affine_add_of::<M>(self@, rhs@) is Some,
        ensures
            r@ == affine_add_of::<M>(self@, rhs@).unwrap(),
    {
        proof {
            M::lemma_curve_bounds();
            M::lemma_modulo_gt_one();
        }
        if rhs.is_infinity {
            return self.clone();
        } else if self.is_infinity {
            return rhs.clone();
        } else if self.x == rhs.x && self.y != rhs.y {
            return Self::new_infinity();
        }
        let ghost p = M::spec_modulo();
        let two = Field::<M>::from_u64(2);
        let three = Field::<M>::from_u64(3);
        proof {
            lemma_small_mod(2, p);
            lemma_small_mod(3, p);
            lemma_square_is_pow2(self.x@ as int);
        }
        let lambda: Field<M> = if self == rhs {
            if self.y.is_zero() {
                return Self::new_infinity();
            }
            let a = Field::<M>::from_digits(&M::a());
            let num = three.mul_field(&self.x.pow_field(&two)).add_field(&a);
            let den = two.mul_field(&self.y);
            num.div_field(&den)
        } else {
            let num = rhs.y.sub_field(&self.y);
            let den = rhs.x.sub_field(&self.x);
            num.div_field(&den)
        };
        proof {
            lemma_square_is_pow2(lambda@ as int);
        }
        let new_x = lambda.pow_field(&two).sub_field(&self.x).sub_field(&rhs.x);
        let new_y = lambda.mul_field(&self.x.sub_field(&new_x)).sub_field(&self.y);
        Self::new(new_x, new_y).expect("Addition of points needs to be correct")
    }

    /// `k * self`, by double-and-add over the bits of `k` (lowest first), as the
    /// `*` operator computes it; see [`affine_mul_of`].
    pub fn mul_scalar(&self, k: &Field<M>) -> (r: Self)
        requires
            affine_mul_of::<M>(self@, k@) is Some,
        ensures
            r@ == affine_mul_of::<M>(self@, k@).unwrap(),
            (group_law::<M>() && is_reduced_curve_point::<M>(self@)) ==> r@ == repeated_sum::<M>(
                self@,
                k@,
            ),
    {
        proof {
            if group_law::<M>() && is_reduced_curve_point::<M>(self@) {
                lemma_affine_mul_is_repeated_sum::<M>(self@, k@);
            }
        }
        let mut result = Self::new_infinity();
        let mut add = self.clone();
        let bits = big_bits(&k.number);
        let mut i: u64 = 0;
        while i < bits
            invariant
                i <= bits,
                bits == bit_len(k@),
                affine_mul_from::<M>(result@, add@, k@, i as nat, bits as nat) == affine_mul_of::<
                    M,
                >(self@, k@),
                affine_mul_of::<M>(self@, k@) is Some,
            decreases bits - i,
        {
            if big_bit(&k.number, i) {
                result = result.add_points(&add);
            }
            add = add.add_points(&add);
            i = i + 1;
        }
        result
    }

    /// The point whose coordinates are given as hexadecimal text (see
    /// `Field::from_hex`): an error where a coordinate does not parse, or where
    /// the point is not on the curve.
    pub fn from_hex(x_hex: &str, y_hex: &str) -> (r: Result<Self, String>)
        ensures
            r is Ok <==> ({
                let px = parse_radix(trim_hex_prefix(x_hex@), 16);
                let py = parse_radix(trim_hex_prefix(y_hex@), 16);
                &&& px is Some
                &&& py is Some
                &&& on_curve(
                    M::spec_modulo(),
                    M::spec_a(),
                    M::spec_b(),
                    px.unwrap() % M::spec_modulo(),
                    py.unwrap() % M::spec_modulo(),
                )
            }),
            r is Ok ==> r->Ok_0@ == (
                parse_radix(trim_hex_prefix(x_hex@), 16).unwrap() % M::spec_modulo(),
                parse_radix(trim_hex_prefix(y_hex@), 16).unwrap() % M::spec_modulo(),
                false,
            ),
            (r is Err && parse_radix(trim_hex_prefix(x_hex@), 16) is Some && parse_radix(
                trim_hex_prefix(y_hex@),
                16,
            ) is Some) ==> r->Err_0@ == "Point with given coordinates is not on curve"@,
            (r is Err && !(parse_radix(trim_hex_prefix(x_hex@), 16) is Some && parse_radix(
                trim_hex_prefix(y_hex@),
                16,
            ) is Some)) ==> (r->Err_0@ == "cannot parse integer from empty string"@ || r->Err_0@
                == "invalid digit found in string"@),
    {
        let x = match Field::<M>::from_hex(x_hex) {
            Ok(v) => v,
            Err(err) => return Err(parse_error_text(&err)),
        };
        let y = match Field::<M>::from_hex(y_hex) {
            Ok(v) => v,
            Err(err) => return Err(parse_error_text(&err)),
        };
        Self::new(x, y)
    }

    /// The modulus and the coordinates, in decimal: the modulus, then
    /// `"\n  x: "` and `x`, then `"\n  y: "` and `y`.
    pub fn to_text(&self) -> (r: String)
        ensures
            r@ == decimal_string(M::spec_modulo()) + "\n  x: "@ + decimal_string(self@.0)
                + "\n  y: "@ + decimal_string(self@.1),
    {
        let modulus = big_to_decimal(&M::get_modulo());
        let mut text = chars_of(modulus.as_str());
        let mut part = chars_of("\n  x: ");
        text.append(&mut part);
        let x = self.x.to_decimal();
        let mut part = chars_of(x.as_str());
        text.append(&mut part);
        let mut part = chars_of("\n  y: ");
        text.append(&mut part);
        let y = self.y.to_decimal();
        let mut part = chars_of(y.as_str());
        text.append(&mut part);
        string_from_chars(&text)
    }

    /// A copy of the point.
    pub fn copy(&self) -> (r: Self)
        ensures
            r@ == self@,
    {
        AffinePoint { x: self.x.copy(), y: self.y.copy(), is_infinity: self.is_infinity }
    }
}

// ---------------------------------------------------------------------------
// Standard traits
// ---------------------------------------------------------------------------

impl<M: EllipticCurve> Clone for AffinePoint<M> {
    fn clone(&self) -> (r: Self)
        ensures
            r@ == self@,
    {
        self.copy()
    }
}

impl<M: EllipticCurve> PartialEq for AffinePoint<M> {
    fn eq(&self, other: &Self) -> (r: bool) {
        self.x == other.x && self.y == other.y && self.is_infinity == other.is_infinity
    }
}

impl<M: EllipticCurve> vstd::std_specs::cmp::PartialEqSpecImpl for AffinePoint<M> {
    open spec fn obeys_eq_spec() -> bool {
        true
    }

    /// Two points are equal when their coordinates and flags are.
    open spec fn eq_spec(&self, other: &Self) -> bool {
        self@ == other@
    }
}

impl<M: EllipticCurve> Eq for AffinePoint<M> {

}

impl<M: EllipticCurve> Default for AffinePoint<M> {
    fn default() -> (r: Self)
        ensures
            r@ == (0nat, 0nat, false),
    {
        AffinePoint { x: Field::zero(), y: Field::zero(), is_infinity: false }
    }
}

impl<'a, M: EllipticCurve> core::ops::Add for &'a AffinePoint<M> {
    type Output = AffinePoint<M>;

    fn add(self, rhs: Self) -> (r: AffinePoint<M>)
        ensures
            r@ == affine_add_of::<M>(self@, rhs@).unwrap(),
    {
        self.add_points(rhs)
    }
}

impl<'a, M: EllipticCurve> vstd::std_specs::ops::AddSpecImpl for &'a AffinePoint<M> {
    open spec fn obeys_add_spec() -> bool {
        false
    }

    open spec fn add_req(self, rhs: Self) -> bool {
        affine_add_of::<M>(self@, rhs@) is Some
    }

    open spec fn add_spec(self, rhs: Self) -> AffinePoint<M> {
        arbitrary()
    }
}

impl<M: EllipticCurve> core::ops::Add for AffinePoint<M> {
    type Output = AffinePoint<M>;

    fn add(self, rhs: Self) -> (r: AffinePoint<M>)
        ensures
            r@ == affine_add_of::<M>(self@, rhs@).unwrap(),
    {
        self.add_points(&rhs)
    }
}

impl<M: EllipticCurve> vstd::std_specs::ops::AddSpecImpl for AffinePoint<M> {
    open spec fn obeys_add_spec() -> bool {
        false
    }

    open spec fn add_req(self, rhs: Self) -> bool {
        affine_add_of::<M>(self@, rhs@) is Some
    }

    open spec fn add_spec(self, rhs: Self) -> AffinePoint<M> {
        arbitrary()
    }
}

impl<'a, M: EllipticCurve> core::ops::Mul<&'a Field<M>> for &'a AffinePoint<M> {
    type Output = AffinePoint<M>;

    fn mul(self, rhs: &'a Field<M>) -> (r: AffinePoint<M>)
        ensures
            r@ == affine_mul_of::<M>(self@, rhs@).unwrap(),
    {
        self.mul_scalar(rhs)
    }
}

impl<'a, M: EllipticCurve> vstd::std_specs::ops::MulSpecImpl<&'a Field<M>> for &'a AffinePoint<M> {
    open spec fn obeys_mul_spec() -> bool {
        false
    }

    open spec fn mul_req(self, rhs: &'a Field<M>) -> bool {
        affine_mul_of::<M>(self@, rhs@) is Some
    }

    open spec fn mul_spec(self, rhs: &'a Field<M>) -> AffinePoint<M> {
        arbitrary()
    }
}

impl<M: EllipticCurve> core::ops::Mul<Field<M>> for AffinePoint<M> {
    type Output = AffinePoint<M>;

    fn mul(self, rhs: Field<M>) -> (r: AffinePoint<M>)
        ensures
            r@ == affine_mul_of::<M>(self@, rhs@).unwrap(),
    {
        self.mul_scalar(&rhs)
    }
}

impl<M: EllipticCurve> vstd::std_specs::ops::MulSpecImpl<Field<M>> for AffinePoint<M> {
    open spec fn obeys_mul_spec() -> bool {
        false
    }

    open spec fn mul_req(self, rhs: Field<M>) -> bool {
        affine_mul_of::<M>(self@, rhs@) is Some
    }

    open spec fn mul_spec(self, rhs: Field<M>) -> AffinePoint<M> {
        arbitrary()
    }
}

} // verus!
