//! Points of a curve in homogeneous projective coordinates `(X : Y : Z)`, which
//! stand for the affine point `(X/Z, Y/Z)`; addition and doubling need no
//! inversion, and scalar multiplication runs a Montgomery ladder.
use crate::affine::{affine_add_of, is_curve_point, AffinePoint};
use crate::consistency::{is_reduced_proj, lemma_proj_add_agrees, lemma_proj_double_agrees};
use crate::multiples::{group_law, lemma_proj_mul_is_repeated_sum, repeated_sum};
use crate::bignum::{big_bit, big_bits, bit_len, bit_of, invertible};
use crate::field::{fadd, fdiv, fmul, fsub, Field};
use crate::modulus::EllipticCurve;
use rand::rngs::StdRng;
use vstd::arithmetic::div_mod::lemma_small_mod;
use vstd::prelude::*;

verus! {

/// A point `(x : y : z)`; `(0 : 1 : 0)` is the point at infinity.
#[derive(Debug)]
pub struct ProjectivePoint<M: EllipticCurve> {
    pub x: Field<M>,
    pub y: Field<M>,
    pub z: Field<M>,
}

impl<M: EllipticCurve> View for ProjectivePoint<M> {
    type V = (nat, nat, nat);

    /// The three coordinates.
    open spec fn view(&self) -> (nat, nat, nat) {
        (self.x@, self.y@, self.z@)
    }
}

// ---------------------------------------------------------------------------
// Model
// ---------------------------------------------------------------------------

/// The point at infinity, `(0 : 1 : 0)`.
pub open spec fn proj_infinity() -> (nat, nat, nat) {
    (0, 1, 0)
}

/// Whether the coordinates are exactly those of the point at infinity.
pub open spec fn proj_is_infinity(pt: (nat, nat, nat)) -> bool {
    pt.0 == 0 && pt.1 == 1 && pt.2 == 0
}

/// Doubling in projective coordinates, modulo `p`, for the curve coefficient `a`:
/// with `W = a*Z^2 + 3*X^2`, `S = Y*Z`, `B = X*Y*S`, `H = W^2 - 8*B`, the double is
/// `(2*H*S : W*(4*B - H) - 8*Y^2*S^2 : 8*S^3)`; the point at infinity and points
/// with `Y = 0` double to the point at infinity.
pub open spec fn proj_double_spec(p: nat, a: nat, pt: (nat, nat, nat)) -> (nat, nat, nat) {
    if proj_is_infinity(pt) || pt.1 == 0 {
        proj_infinity()
    } else {
        let (x, y, z) = pt;
        let w = fadd(fmul(a % p, fmul(z, z, p), p), fmul(3, fmul(x, x, p), p), p);
        let s = fmul(y, z, p);
        let s_sq = fmul(s, s, p);
        let bb = fmul(fmul(x, y, p), s, p);
        let h = fsub(fmul(w, w, p), fmul(8, bb, p), p);
        let x2 = fmul(fmul(2, h, p), s, p);
        let y2 = fsub(
            fmul(w, fsub(fmul(4, bb, p), h, p), p),
            fmul(8, fmul(fmul(y, y, p), s_sq, p), p),
            p,
        );
        let z2 = fmul(8, fmul(s_sq, s, p), p);
        (x2, y2, z2)
    }
}

/// Addition in projective coordinates, modulo `p`: with `U1 = Y2*Z1`,
/// `U2 = Y1*Z2`, `V1 = X2*Z1`, `V2 = X1*Z2`, equal `V1, V2` give the point at
/// infinity (different `U`) or the double; otherwise, with `U = U1 - U2`,
/// `V = V1 - V2`, `W = Z1*Z2` and `A = U^2*W - V^3 - 2*V^2*V2`, the sum is
/// `(V*A : U*(V^2*V2 - A) - V^3*U2 : V^3*W)`.
pub open spec fn proj_add_spec(p: nat, a: nat, pt: (nat, nat, nat), q: (nat, nat, nat)) -> (
    nat,
    nat,
    nat,
) {
    if proj_is_infinity(pt) {
        q
    } else if proj_is_infinity(q) {
        pt
    } else {
        let u1 = fmul(q.1, pt.2, p);
        let u2 = fmul(pt.1, q.2, p);
        let v1 = fmul(q.0, pt.2, p);
        let v2 = fmul(pt.0, q.2, p);
        if v1 == v2 {
            if u1 != u2 {
                proj_infinity()
            } else {
                proj_double_spec(p, a, pt)
            }
        } else {
            let u = fsub(u1, u2, p);
            let v = fsub(v1, v2, p);
            let v_sq = fmul(v, v, p);
            let v_cube = fmul(v_sq, v, p);
            let w = fmul(pt.2, q.2, p);
            let aa = fsub(
                fsub(fmul(fmul(u, u, p), w, p), v_cube, p),
                fmul(2, fmul(v_sq, v2, p), p),
                p,
            );
            let x3 = fmul(v, aa, p);
            let y3 = fsub(fmul(u, fsub(fmul(v_sq, v2, p), aa, p), p), fmul(v_cube, u2, p), p);
            let z3 = fmul(v_cube, w, p);
            (x3, y3, z3)
        }
    }
}

/// [`proj_double_spec`] on curve `M`.
pub open spec fn proj_double_of<M: EllipticCurve>(pt: (nat, nat, nat)) -> (nat, nat, nat) {
    proj_double_spec(M::spec_modulo(), M::spec_a(), pt)
}

/// [`proj_add_spec`] on curve `M`.
pub open spec fn proj_add_of<M: EllipticCurve>(pt: (nat, nat, nat), q: (nat, nat, nat)) -> (
    nat,
    nat,
    nat,
) {
    proj_add_spec(M::spec_modulo(), M::spec_a(), pt, q)
}

/// One rung of the Montgomery ladder: on bit 1, `(R0 + R1, 2*R1)`; on bit 0,
/// `(2*R0, R0 + R1)`.
pub open spec fn ladder_step<M: EllipticCurve>(
    r0: (nat, nat, nat),
    r1: (nat, nat, nat),
    bit: bool,
) -> ((nat, nat, nat), (nat, nat, nat)) {
    if bit {
        (proj_add_of::<M>(r0, r1), proj_double_of::<M>(r1))
    } else {
        (proj_double_of::<M>(r0), proj_add_of::<M>(r0, r1))
    }
}

/// The ladder over bits `i - 1` down to `0` of `k`, from the pair `(r0, r1)`.
pub open spec fn ladder_from<M: EllipticCurve>(
    r0: (nat, nat, nat),
    r1: (nat, nat, nat),
    k: nat,
    i: nat,
) -> ((nat, nat, nat), (nat, nat, nat))
    decreases i,
{
    if i == 0 {
        (r0, r1)
    } else {
        let next = ladder_step::<M>(r0, r1, bit_of(k, (i - 1) as nat));
        ladder_from::<M>(next.0, next.1, k, (i - 1) as nat)
    }
}

/// `k * pt` as `mul_scalar` computes it: the Montgomery ladder over the bits of
/// `k`, highest first, from the pair (infinity, `pt`). Under the group law this
/// stands for `pt` added to itself `k` times (`multiples`).
pub open spec fn proj_mul_of<M: EllipticCurve>(pt: (nat, nat, nat), k: nat) -> (nat, nat, nat) {
    ladder_from::<M>(proj_infinity(), pt, k, bit_len(k)).0
}

/// The base point of curve `M` with `Z = 1`.
pub open spec fn proj_generator<M: EllipticCurve>() -> (nat, nat, nat) {
    (M::spec_gen_x() % M::spec_modulo(), M::spec_gen_y() % M::spec_modulo(), 1)
}

/// The affine point a projective one stands for, modulo `p`: `(X/Z, Y/Z)`, or
/// the point at infinity for `(0 : 1 : 0)`.
pub open spec fn proj_to_affine_spec(p: nat, pt: (nat, nat, nat)) -> (nat, nat, bool) {
    if proj_is_infinity(pt) {
        (0, 0, true)
    } else {
        (fdiv(pt.0, pt.2, p), fdiv(pt.1, pt.2, p), false)
    }
}

/// Whether converting to affine coordinates succeeds: the point is `(0 : 1 : 0)`
/// or its `Z` is invertible modulo `p`.
pub open spec fn proj_has_affine(p: nat, pt: (nat, nat, nat)) -> bool {
    proj_is_infinity(pt) || invertible(pt.2, p)
}

/// The projective point an affine one becomes: `(x : y : 1)`, or `(0 : 1 : 0)`.
pub open spec fn affine_to_proj_spec(pt: (nat, nat, bool)) -> (nat, nat, nat) {
    if pt.2 {
        proj_infinity()
    } else {
        (pt.0, pt.1, 1)
    }
}

/// The ladder on the scalar 0 gives the point at infinity, on the scalar 1
/// the point itself, and on the scalar 2 its double.
pub proof fn lemma_proj_mul_small<M: EllipticCurve>(pt: (nat, nat, nat))
    ensures
        proj_mul_of::<M>(pt, 0) == proj_infinity(),
        proj_mul_of::<M>(pt, 1) == pt,
        proj_mul_of::<M>(pt, 2) == proj_double_of::<M>(pt),
{
    assert(bit_len(0) == 0);
    assert(bit_len(1) == 1) by {
        assert(bit_len(0) == 0);
    }
    assert(bit_len(2) == 2) by {
        assert(bit_len(1) == 1 && bit_len(0) == 0);
    }
    assert(bit_of(1, 0) && bit_of(2, 1) && !bit_of(2, 0)) by {
        vstd::arithmetic::power2::lemma2_to64();
    }
    // the first rung, on bit 1, gives (pt, 2 * pt)
    let first = ladder_step::<M>(proj_infinity(), pt, true);
    assert(first.0 == pt);
    assert(ladder_from::<M>(proj_infinity(), pt, 1, 1) == ladder_from::<M>(first.0, first.1, 1, 0));
    // for 2, the second rung, on bit 0, doubles pt
    let second = ladder_step::<M>(first.0, first.1, false);
    assert(ladder_from::<M>(proj_infinity(), pt, 2, 2) == ladder_from::<M>(first.0, first.1, 2, 1));
    assert(ladder_from::<M>(first.0, first.1, 2, 1) == ladder_from::<M>(second.0, second.1, 2, 0));
}

impl<M: EllipticCurve> ProjectivePoint<M> {
    /// The point at infinity `(0 : 1 : 0)`.
    pub fn new_infinity() -> (r: Self)
        ensures
            r@ == proj_infinity(),
    {
        proof {
            M::lemma_modulo_gt_one();
            lemma_small_mod(1, M::spec_modulo());
        }
        ProjectivePoint { x: Field::zero(), y: Field::one(), z: Field::zero() }
    }

    /// Whether the coordinates are `(0 : 1 : 0)`.
    pub fn is_infinity(&self) -> (r: bool)
        ensures
            r == proj_is_infinity(self@),
    {
        proof {
            M::lemma_modulo_gt_one();
            lemma_small_mod(1, M::spec_modulo());
        }
        self.x.is_zero() && self.y == Field::<M>::from_u64(1) && self.z.is_zero()
    }

    /// The double of the point; see [`proj_double_spec`].
    pub fn double(&self) -> (r: Self)
        ensures
            r@ == proj_double_of::<M>(self@),
            ({
                let p = M::spec_modulo();
                let ap = proj_to_affine_spec(p, self@);
                (is_reduced_proj(p, self@) && proj_has_affine(p, self@) && affine_add_of::<M>(
                    ap,
                    ap,
                ) is Some) ==> (proj_has_affine(p, r@) && proj_to_affine_spec(p, r@)
                    == affine_add_of::<M>(ap, ap).unwrap())
            }),
    {
        proof {
            let p = M::spec_modulo();
            let ap = proj_to_affine_spec(p, self@);
            M::lemma_curve_bounds();
            if is_reduced_proj(p, self@) && proj_has_affine(p, self@) && affine_add_of::<M>(
                ap,
                ap,
            ) is Some {
                lemma_proj_double_agrees(p, M::spec_a(), M::spec_b(), self@);
            }
        }
        if self.is_infinity() {
            return Self::new_infinity();
        }
        if self.y.is_zero() {
            return Self::new_infinity();
        }
        proof {
            M::lemma_curve_bounds();
            lemma_small_mod(2, M::spec_modulo());
            lemma_small_mod(3, M::spec_modulo());
            lemma_small_mod(4, M::spec_modulo());
            lemma_small_mod(8, M::spec_modulo());
        }
        let a = Field::<M>::from_digits(&M::a());
        let two = Field::<M>::from_u64(2);
        let three = Field::<M>::from_u64(3);
        let four = Field::<M>::from_u64(4);
        let eight = Field::<M>::from_u64(8);

        let z_sq = self.z.mul_field(&self.z);
        let x_sq = self.x.mul_field(&self.x);
        let y_sq = self.y.mul_field(&self.y);

        // W := a*Z^2 + 3*X^2
        let w = a.mul_field(&z_sq).add_field(&three.mul_field(&x_sq));

        // S := Y*Z
        let s = self.y.mul_field(&self.z);
        let s_sq = s.mul_field(&s);

        // B := X*Y*S
        let b = self.x.mul_field(&self.y).mul_field(&s);

        // H := W^2 - 8*B
        let w_sq = w.mul_field(&w);
        let h = w_sq.sub_field(&eight.mul_field(&b));

        // X' := 2*H*S
        let x_prime = two.mul_field(&h).mul_field(&s);

        // Y' := W*(4*B - H) - 8*Y^2*S^2
        let four_b_minus_h = four.mul_field(&b).sub_field(&h);
        let eight_y2_s2 = eight.mul_field(&y_sq.mul_field(&s_sq));
        let y_prime = w.mul_field(&four_b_minus_h).sub_field(&eight_y2_s2);

        // Z' := 8*S^3
        let s_cube = s_sq.mul_field(&s);
        let z_prime = eight.mul_field(&s_cube);

        ProjectivePoint { x: x_prime, y: y_prime, z: z_prime }
    }

    /// The sum of two points; see [`proj_add_spec`].
    pub fn add_points(&self, rhs: &Self) -> (r: Self)
        ensures
            r@ == proj_add_of::<M>(self@, rhs@),
            ({
                let p = M::spec_modulo();
                let (ap, aq) = (proj_to_affine_spec(p, self@), proj_to_affine_spec(p, rhs@));
                (is_reduced_proj(p, self@) && is_reduced_proj(p, rhs@) && proj_has_affine(
                    p,
                    self@,
                ) && proj_has_affine(p, rhs@) && affine_add_of::<M>(ap, aq) is Some) ==> (
                proj_has_affine(p, r@) && proj_to_affine_spec(p, r@) == affine_add_of::<M>(
                    ap,
                    aq,
                ).unwrap())
            }),
    {
        proof {
            let p = M::spec_modulo();
            let (ap, aq) = (proj_to_affine_spec(p, self@), proj_to_affine_spec(p, rhs@));
            M::lemma_curve_bounds();
            if is_reduced_proj(p, self@) && is_reduced_proj(p, rhs@) && proj_has_affine(p, self@)
                && proj_has_affine(p, rhs@) && affine_add_of::<M>(ap, aq) is Some {
                lemma_proj_add_agrees(p, M::spec_a(), M::spec_b(), self@, rhs@);
            }
        }
        if self.is_infinity() {
            return rhs.clone();
        } else if rhs.is_infinity() {
            return self.clone();
        }
        proof {
            M::lemma_curve_bounds();
            lemma_small_mod(2, M::spec_modulo());
        }
        // U1 := Y2*Z1
        let u1 = rhs.y.mul_field(&self.z);
        // U2 := Y1*Z2
        let u2 = self.y.mul_field(&rhs.z);
        // V1 := X2*Z1
        let v1 = rhs.x.mul_field(&self.z);
        // V2 := X1*Z2
        let v2 = self.x.mul_field(&rhs.z);

        if v1 == v2 {
            if u1 != u2 {
                return Self::new_infinity();
            } else {
                return self.double();
            }
        }
        let two = Field::<M>::from_u64(2);

        // U := U1 - U2
        let u = u1.sub_field(&u2);
        let u_sq = u.mul_field(&u);

        // V := V1 - V2
        let v = v1.sub_field(&v2);
        let v_sq = v.mul_field(&v);
        let v_cube = v_sq.mul_field(&v);

        // W := Z1*Z2
        let w = self.z.mul_field(&rhs.z);

        // A := U^2*W - V^3 - 2*V^2*V2
        let u2_w = u_sq.mul_field(&w);
        let two_v2_v2 = two.mul_field(&v_sq.mul_field(&v2));
        let a = u2_w.sub_field(&v_cube).sub_field(&two_v2_v2);

        // X3 := V*A
        let x3 = v.mul_field(&a);

        // Y3 := U*(V^2*V2 - A) - V^3*U2
        let v2_v2_minus_a = v_sq.mul_field(&v2).sub_field(&a);
        let v3_u2 = v_cube.mul_field(&u2);
        let y3 = u.mul_field(&v2_v2_minus_a).sub_field(&v3_u2);

        // Z3 := V^3*W
        let z3 = v_cube.mul_field(&w);

        ProjectivePoint { x: x3, y: y3, z: z3 }
    }

    /// `k * self` by the Montgomery ladder over the bits of `k`, highest first;
    /// see [`proj_mul_of`].
    pub fn mul_scalar(&self, k: &Field<M>) -> (r: Self)
        ensures
            r@ == proj_mul_of::<M>(self@, k@),
            ({
                let p = M::spec_modulo();
                (group_law::<M>() && is_reduced_proj(p, self@) && proj_has_affine(p, self@)
                    && is_curve_point::<M>(proj_to_affine_spec(p, self@))) ==> (proj_has_affine(
                    p,
                    r@,
                ) && proj_to_affine_spec(p, r@) == repeated_sum::<M>(
                    proj_to_affine_spec(p, self@),
                    k@,
                ))
            }),
    {
        proof {
            let p = M::spec_modulo();
            if group_law::<M>() && is_reduced_proj(p, self@) && proj_has_affine(p, self@)
                && is_curve_point::<M>(proj_to_affine_spec(p, self@)) {
                lemma_proj_mul_is_repeated_sum::<M>(self@, k@);
            }
        }
        let mut r0 = Self::new_infinity();
        let mut r1 = self.clone();

        let bits = big_bits(&k.number);

        if bits == 0 {
            return r0;
        }
        let mut i: u64 = bits;
        while i > 0
            invariant
                i <= bits,
                bits == bit_len(k@),
                ladder_from::<M>(r0@, r1@, k@, i as nat) == ladder_from::<M>(
                    proj_infinity(),
                    self@,
                    k@,
                    bits as nat,
                ),
            decreases i,
        {
            i = i - 1;
            if big_bit(&k.number, i) {
                r0 = r0.add_points(&r1);
                r1 = r1.double();
            } else {
                r1 = r0.add_points(&r1);
                r0 = r0.double();
            }
        }
        r0
    }

    /// The base point of the curve, with `Z = 1`.
    fn get_generator() -> (r: Self)
        ensures
            r@ == proj_generator::<M>(),
    {
        ProjectivePoint {
            x: Field::<M>::new(M::gen_x()),
            y: Field::<M>::new(M::gen_y()),
            z: Field::<M>::one(),
        }
    }

    /// A random `k` below the modulus, times the base point.
    pub fn get_random(rng: &mut StdRng) -> (r: Self)
        ensures
            exists|k: nat|
                k < M::spec_modulo() && r@ == #[trigger] proj_mul_of::<M>(proj_generator::<M>(), k),
    {
        let g = Self::get_generator();
        let k = Field::<M>::get_random(rng);
        g.mul_scalar(&k)
    }

    /// A copy of the point.
    pub fn copy(&self) -> (r: Self)
        ensures
            r@ == self@,
    {
        ProjectivePoint { x: self.x.copy(), y: self.y.copy(), z: self.z.copy() }
    }

    /// The projective point `(x : y : 1)` for an affine point, `(0 : 1 : 0)` for
    /// the point at infinity.
    pub fn from_affine(affine: AffinePoint<M>) -> (r: Self)
        ensures
            r@ == affine_to_proj_spec(affine@),
    {
        if affine.is_infinity {
            return ProjectivePoint::new_infinity();
        }
        ProjectivePoint { x: affine.x.copy(), y: affine.y.copy(), z: Field::<M>::one() }
    }
}

impl<M: EllipticCurve> AffinePoint<M> {
    /// The affine point `(X/Z, Y/Z)` a projective point stands for (the point at
    /// infinity for `(0 : 1 : 0)`). Inverting `Z` fails (and the conversion
    /// panics) where `Z` has no inverse, which `requires` rules out.
    pub fn from_projective(proj: ProjectivePoint<M>) -> (r: Self)
        requires
            proj_has_affine(M::spec_modulo(), proj@),
        ensures
            r@ == proj_to_affine_spec(M::spec_modulo(), proj@),
    {
        if proj.is_infinity() {
            return AffinePoint::new_infinity();
        }
        let z_inv = proj.z.inv().expect("Z coordinate must be invertible");
        let affine_x = proj.x.mul_field(&z_inv);
        let affine_y = proj.y.mul_field(&z_inv);
        AffinePoint { x: affine_x, y: affine_y, is_infinity: false }
    }
}

// ---------------------------------------------------------------------------
// Standard traits
// ---------------------------------------------------------------------------

impl<M: EllipticCurve> Clone for ProjectivePoint<M> {
    fn clone(&self) -> (r: Self)
        ensures
            r@ == self@,
    {
        self.copy()
    }
}

impl<M: EllipticCurve> PartialEq for ProjectivePoint<M> {
    fn eq(&self, other: &Self) -> (r: bool) {
        self.x == other.x && self.y == other.y && self.z == other.z
    }
}

impl<M: EllipticCurve> vstd::std_specs::cmp::PartialEqSpecImpl for ProjectivePoint<M> {
    open spec fn obeys_eq_spec() -> bool {
        true
    }

    /// Two points are equal when their coordinates are (not when they stand
    /// for the same affine point).
    open spec fn eq_spec(&self, other: &Self) -> bool {
        self@ == other@
    }
}

impl<M: EllipticCurve> Eq for ProjectivePoint<M> {

}

impl<M: EllipticCurve> Default for ProjectivePoint<M> {
    fn default() -> (r: Self)
        ensures
            r@ == (0nat, 0nat, 0nat),
    {
        ProjectivePoint { x: Field::zero(), y: Field::zero(), z: Field::zero() }
    }
}

impl<M: EllipticCurve> From<AffinePoint<M>> for ProjectivePoint<M> {
    fn from(affine: AffinePoint<M>) -> (r: Self)
        ensures
            r@ == affine_to_proj_spec(affine@),
    {
        ProjectivePoint::from_affine(affine)
    }
}

impl<M: EllipticCurve> vstd::std_specs::convert::FromSpecImpl<AffinePoint<M>> for ProjectivePoint<M> {
    open spec fn obeys_from_spec() -> bool {
        false
    }

    open spec fn from_spec(v: AffinePoint<M>) -> ProjectivePoint<M> {
        arbitrary()
    }
}

impl<'a, M: EllipticCurve> core::ops::Add for &'a ProjectivePoint<M> {
    type Output = ProjectivePoint<M>;

    fn add(self, rhs: Self) -> (r: ProjectivePoint<M>)
        ensures
            r@ == proj_add_of::<M>(self@, rhs@),
    {
        self.add_points(rhs)
    }
}

impl<'a, M: EllipticCurve> vstd::std_specs::ops::AddSpecImpl for &'a ProjectivePoint<M> {
    open spec fn obeys_add_spec() -> bool {
        false
    }

    open spec fn add_req(self, rhs: Self) -> bool {
        true
    }

    open spec fn add_spec(self, rhs: Self) -> ProjectivePoint<M> {
        arbitrary()
    }
}

impl<M: EllipticCurve> core::ops::Add for ProjectivePoint<M> {
    type Output = ProjectivePoint<M>;

    fn add(self, rhs: Self) -> (r: ProjectivePoint<M>)
        ensures
            r@ == proj_add_of::<M>(self@, rhs@),
    {
        self.add_points(&rhs)
    }
}

impl<M: EllipticCurve> vstd::std_specs::ops::AddSpecImpl for ProjectivePoint<M> {
    open spec fn obeys_add_spec() -> bool {
        false
    }

    open spec fn add_req(self, rhs: Self) -> bool {
        true
    }

    open spec fn add_spec(self, rhs: Self) -> ProjectivePoint<M> {
        arbitrary()
    }
}

impl<M: EllipticCurve> core::ops::AddAssign for ProjectivePoint<M> {
    fn add_assign(&mut self, rhs: Self)
        ensures
            final(self)@ == proj_add_of::<M>(old(self)@, rhs@),
    {
        *self = self.add_points(&rhs);
    }
}

impl<'a, M: EllipticCurve> core::ops::Mul<&'a Field<M>> for &'a ProjectivePoint<M> {
    type Output = ProjectivePoint<M>;

    fn mul(self, rhs: &'a Field<M>) -> (r: ProjectivePoint<M>)
        ensures
            r@ == proj_mul_of::<M>(self@, rhs@),
    {
        self.mul_scalar(rhs)
    }
}

impl<'a, M: EllipticCurve> vstd::std_specs::ops::MulSpecImpl<&'a Field<M>> for &'a ProjectivePoint<M> {
    open spec fn obeys_mul_spec() -> bool {
        false
    }

    open spec fn mul_req(self, rhs: &'a Field<M>) -> bool {
        true
    }

    open spec fn mul_spec(self, rhs: &'a Field<M>) -> ProjectivePoint<M> {
        arbitrary()
    }
}

impl<M: EllipticCurve> core::ops::Mul<Field<M>> for ProjectivePoint<M> {
    type Output = ProjectivePoint<M>;

    fn mul(self, rhs: Field<M>) -> (r: ProjectivePoint<M>)
        ensures
            r@ == proj_mul_of::<M>(self@, rhs@),
    {
        self.mul_scalar(&rhs)
    }
}

impl<M: EllipticCurve> vstd::std_specs::ops::MulSpecImpl<Field<M>> for ProjectivePoint<M> {
    open spec fn obeys_mul_spec() -> bool {
        false
    }

    open spec fn mul_req(self, rhs: Field<M>) -> bool {
        true
    }

    open spec fn mul_spec(self, rhs: Field<M>) -> ProjectivePoint<M> {
        arbitrary()
    }
}

} // verus!
