//! Projective and affine arithmetic agree: adding or doubling projective points
//! that stand for affine points, and converting the result back, gives the
//! point that affine addition gives, wherever affine addition is defined; the
//! Montgomery ladder in projective coordinates therefore computes what the
//! same ladder computes on affine points.
//!
//! The proofs work with congruences modulo `p` ([`eqv`]): each field operation
//! is congruent to the integer operation it reduces, congruences compose, and
//! the remaining steps are identities between integer polynomials. A point
//! `(X : Y : Z)` with `X == Z*x`, `Y == Z*y` runs through the same steps as
//! `(x : y : 1)`, every value scaled by a power of `Z`.
use crate::affine::{
    affine_add_of, affine_add_spec, affine_infinity, affine_mul_from, affine_mul_of,
    is_curve_point, on_curve, slope_parts, sum_x, sum_y,
};
use crate::bignum::{bit_len, bit_of, inverse_of, invertible, is_inverse};
use crate::modulus::EllipticCurve;
use crate::prime::{is_prime, lemma_prime_invertible, lemma_prime_product};
use crate::field::{fadd, fdiv, fmul, fsub, lemma_inverse_of};
use crate::projective::{
    affine_to_proj_spec, ladder_from, proj_add_spec, proj_double_spec, proj_has_affine,
    proj_infinity, proj_is_infinity, proj_mul_of, proj_to_affine_spec,
};
use vstd::arithmetic::div_mod::{
    lemma_add_mod_noop, lemma_mod_add_multiples_vanish, lemma_mod_bound, lemma_mod_twice,
    lemma_mod_self_0, lemma_mul_mod_noop, lemma_small_mod, lemma_sub_mod_noop,
};
use vstd::arithmetic::mul::{lemma_mul_is_associative, lemma_mul_is_commutative};
use vstd::prelude::*;

verus! {

// ---------------------------------------------------------------------------
// Congruence modulo p
// ---------------------------------------------------------------------------

/// `a` and `b` are congruent modulo `p`.
pub open spec fn eqv(a: int, b: int, p: int) -> bool {
    a % p == b % p
}

pub(crate) proof fn lemma_eqv_add(a: int, b: int, c: int, d: int, p: int)
    requires
        p > 0,
        eqv(a, b, p),
        eqv(c, d, p),
    ensures
        eqv(a + c, b + d, p),
{
    lemma_add_mod_noop(a, c, p);
    lemma_add_mod_noop(b, d, p);
}

proof fn lemma_eqv_sub(a: int, b: int, c: int, d: int, p: int)
    requires
        p > 0,
        eqv(a, b, p),
        eqv(c, d, p),
    ensures
        eqv(a - c, b - d, p),
{
    lemma_sub_mod_noop(a, c, p);
    lemma_sub_mod_noop(b, d, p);
}

pub(crate) proof fn lemma_eqv_mul(a: int, b: int, c: int, d: int, p: int)
    requires
        p > 0,
        eqv(a, b, p),
        eqv(c, d, p),
    ensures
        eqv(a * c, b * d, p),
{
    lemma_mul_mod_noop(a, c, p);
    lemma_mul_mod_noop(b, d, p);
}

proof fn lemma_fmul_eqv(a: nat, b: nat, p: nat)
    requires
        p > 0,
    ensures
        eqv(fmul(a, b, p) as int, a as int * b as int, p as int),
        fmul(a, b, p) < p,
{
    lemma_mod_twice(a as int * b as int, p as int);
    lemma_mod_bound(a as int * b as int, p as int);
}

proof fn lemma_fadd_eqv(a: nat, b: nat, p: nat)
    requires
        p > 0,
    ensures
        eqv(fadd(a, b, p) as int, a as int + b as int, p as int),
        fadd(a, b, p) < p,
{
    lemma_mod_twice(a as int + b as int, p as int);
    lemma_mod_bound(a as int + b as int, p as int);
}

proof fn lemma_fsub_eqv(a: nat, b: nat, p: nat)
    requires
        p > 0,
        b <= a + p,
    ensures
        eqv(fsub(a, b, p) as int, a as int - b as int, p as int),
        fsub(a, b, p) < p,
{
    let d = a as int - b as int;
    lemma_mod_twice(p + d, p as int);
    lemma_mod_add_multiples_vanish(d, p as int);
    lemma_mod_bound(p + d, p as int);
}

/// `(a / b) * b` is congruent to `a`.
proof fn lemma_fdiv_eqv(a: nat, b: nat, p: nat)
    requires
        p > 1,
        invertible(b, p),
    ensures
        eqv(fdiv(a, b, p) as int * b as int, a as int, p as int),
        fdiv(a, b, p) < p,
{
    let x = inverse_of(b, p);
    let (ai, bi, xi, pi) = (a as int, b as int, x as int, p as int);
    assert(is_inverse(b, x, p));
    lemma_small_mod(1, p);
    lemma_fmul_eqv(a, x, p);
    // fdiv(a, b) * b == (a * x) * b == a * (x * b) == a * (b * x)
    lemma_eqv_mul(fdiv(a, b, p) as int, ai * xi, bi, bi, pi);
    lemma_mul_is_associative(ai, xi, bi);
    lemma_mul_is_commutative(xi, bi);
    // b * x == 1
    assert(eqv(bi * xi, 1, pi));
    lemma_eqv_mul(ai, ai, bi * xi, 1, pi);
}

/// Congruent numbers below `p` are equal.
pub(crate) proof fn lemma_eqv_eq(a: nat, b: nat, p: nat)
    requires
        p > 0,
        a < p,
        b < p,
        eqv(a as int, b as int, p as int),
    ensures
        a == b,
{
    lemma_small_mod(a, p);
    lemma_small_mod(b, p);
}

/// Invertibility depends on the residue only.
proof fn lemma_invertible_eqv(a: nat, b: nat, p: nat)
    requires
        p > 1,
        invertible(a, p),
        eqv(a as int, b as int, p as int),
    ensures
        invertible(b, p),
{
    let x = inverse_of(a, p);
    assert(is_inverse(a, x, p));
    lemma_eqv_mul(a as int, b as int, x as int, x as int, p as int);
    assert(is_inverse(b, x, p));
}

/// A product of invertible numbers is invertible.
proof fn lemma_invertible_mul(a: nat, c: nat, p: nat)
    requires
        p > 1,
        invertible(a, p),
        invertible(c, p),
    ensures
        invertible(a * c, p),
{
    let x = inverse_of(a, p);
    let y = inverse_of(c, p);
    assert(is_inverse(a, x, p));
    assert(is_inverse(c, y, p));
    let (ai, ci, xi, yi, pi) = (a as int, c as int, x as int, y as int, p as int);
    let z = (x * y) % p;
    lemma_small_mod(1, p);
    lemma_mod_bound(xi * yi, pi);
    lemma_fmul_eqv(x, y, p);
    // (a * c) * z == (a * x) * (c * y) == 1 * 1
    lemma_eqv_mul(ai * ci, ai * ci, z as int, xi * yi, pi);
    assert((ai * ci) * (xi * yi) == (ai * xi) * (ci * yi)) by (nonlinear_arith);
    lemma_eqv_mul(ai * xi, 1, ci * yi, 1, pi);
    assert(is_inverse(a * c, z, p));
}

/// Dividing by an invertible `z` a number congruent to `x * z` gives `x`.
proof fn lemma_div_of_eqv(num: nat, z: nat, x: nat, p: nat)
    requires
        p > 1,
        x < p,
        invertible(z, p),
        eqv(num as int, x as int * z as int, p as int),
    ensures
        fdiv(num, z, p) == x,
{
    let iz = inverse_of(z, p);
    assert(is_inverse(z, iz, p));
    let (ni, zi, xi, izi, pi) = (num as int, z as int, x as int, iz as int, p as int);
    lemma_small_mod(1, p);
    lemma_fmul_eqv(num, iz, p);
    // num * iz == x * z * iz == x * (z * iz) == x
    lemma_eqv_mul(ni, xi * zi, izi, izi, pi);
    lemma_mul_is_associative(xi, zi, izi);
    lemma_eqv_mul(xi, xi, zi * izi, 1, pi);
    lemma_eqv_eq(fdiv(num, z, p), x, p);
}

// ---------------------------------------------------------------------------
// Addition of points with different x coordinates
// ---------------------------------------------------------------------------

/// For `x1 != x2` and an invertible `x2 - x1`, the projective sum of
/// `(x1 : y1 : 1)` and `(x2 : y2 : 1)` has an invertible `Z` and stands for the
/// affine point `(sum_x, sum_y)` of slope `(y2 - y1) / (x2 - x1)`.
proof fn lemma_add_distinct(p: nat, a: nat, x1: nat, y1: nat, x2: nat, y2: nat)
    requires
        p > 8,
        x1 < p,
        y1 < p,
        x2 < p,
        y2 < p,
        x1 != x2,
        invertible(fsub(x2, x1, p), p),
    ensures
        ({
            let r = proj_add_spec(p, a, (x1, y1, 1), (x2, y2, 1));
            let lambda = fdiv(fsub(y2, y1, p), fsub(x2, x1, p), p);
            let x3 = sum_x(p, lambda, x1, x2);
            &&& proj_has_affine(p, r)
            &&& proj_to_affine_spec(p, r) == (x3, sum_y(p, lambda, x1, y1, x3), false)
        }),
{
    let pi = p as int;
    lemma_small_mod(1, p);
    lemma_small_mod(x1, p);
    lemma_small_mod(y1, p);
    lemma_small_mod(x2, p);
    lemma_small_mod(y2, p);
    lemma_small_mod(2, p);
    // projective quantities
    let u1 = fmul(y2, 1, p);
    let u2 = fmul(y1, 1, p);
    let v1 = fmul(x2, 1, p);
    let v2 = fmul(x1, 1, p);
    assert(u1 == y2 && u2 == y1 && v1 == x2 && v2 == x1);
    let u = fsub(u1, u2, p);
    let v = fsub(v1, v2, p);
    let v_sq = fmul(v, v, p);
    let v_cube = fmul(v_sq, v, p);
    let w = fmul(1, 1, p);
    assert(w == 1);
    let uu = fmul(u, u, p);
    let uuw = fmul(uu, w, p);
    let t1 = fsub(uuw, v_cube, p);
    let vv2 = fmul(v_sq, v2, p);
    let t2 = fmul(2, vv2, p);
    let aa = fsub(t1, t2, p);
    let x3p = fmul(v, aa, p);
    let t3 = fsub(vv2, aa, p);
    let t4 = fmul(u, t3, p);
    let t5 = fmul(v_cube, u2, p);
    let y3p = fsub(t4, t5, p);
    let z3p = fmul(v_cube, w, p);
    let r = proj_add_spec(p, a, (x1, y1, 1), (x2, y2, 1));
    assert(r == (x3p, y3p, z3p));
    // affine quantities
    let lambda = fdiv(u, v, p);
    let t = fmul(lambda, lambda, p);
    let xs = fsub(t, x1, p);
    let x3 = fsub(xs, x2, p);
    let d = fsub(x1, x3, p);
    let m = fmul(lambda, d, p);
    let y3 = fsub(m, y1, p);
    // integer views
    let (li, ui, vi, x1i, y1i, x2i) = (
        lambda as int,
        u as int,
        v as int,
        x1 as int,
        y1 as int,
        x2 as int,
    );
    let x3i = x3 as int;
    let y3i = y3 as int;
    // basic congruences
    lemma_fdiv_eqv(u, v, p);  // lambda * v == u
    lemma_fsub_eqv(u1, u2, p);
    lemma_fsub_eqv(v1, v2, p);  // v == x2 - x1
    lemma_fmul_eqv(v, v, p);
    lemma_fmul_eqv(v_sq, v, p);
    lemma_fmul_eqv(u, u, p);
    lemma_fmul_eqv(uu, w, p);
    lemma_fsub_eqv(uuw, v_cube, p);
    lemma_fmul_eqv(v_sq, v2, p);
    lemma_fmul_eqv(2, vv2, p);
    lemma_fsub_eqv(t1, t2, p);
    lemma_fmul_eqv(v, aa, p);
    lemma_fsub_eqv(vv2, aa, p);
    lemma_fmul_eqv(u, t3, p);
    lemma_fmul_eqv(v_cube, u2, p);
    lemma_fsub_eqv(t4, t5, p);
    lemma_fmul_eqv(v_cube, w, p);
    lemma_fmul_eqv(lambda, lambda, p);
    lemma_fsub_eqv(t, x1, p);
    lemma_fsub_eqv(xs, x2, p);
    lemma_fsub_eqv(x1, x3, p);
    lemma_fmul_eqv(lambda, d, p);
    lemma_fsub_eqv(m, y1, p);
    // v^2 and v^3
    let vsq_i = vi * vi;
    let vcube_i = vsq_i * vi;
    lemma_eqv_mul(v_sq as int, vsq_i, vi, vi, pi);
    assert(eqv(v_cube as int, vcube_i, pi));
    // x3 == lambda^2 - x1 - x2
    lemma_eqv_sub(t as int, li * li, x1i, x1i, pi);
    lemma_eqv_sub(xs as int, li * li - x1i, x2i, x2i, pi);
    assert(eqv(x3i, li * li - x1i - x2i, pi));
    // aa == v^2 * x3
    // u^2 == (lambda v)^2
    lemma_eqv_mul(ui, li * vi, ui, li * vi, pi);
    lemma_eqv_mul(uu as int, ui * ui, 1, 1, pi);
    assert(eqv(uuw as int, (li * vi) * (li * vi), pi));
    // v^3 == v^2 (x2 - x1)
    lemma_eqv_mul(vsq_i, vsq_i, vi, x2i - x1i, pi);
    assert(eqv(v_cube as int, vsq_i * (x2i - x1i), pi));
    lemma_eqv_sub(uuw as int, (li * vi) * (li * vi), v_cube as int, vsq_i * (x2i - x1i), pi);
    lemma_eqv_mul(v_sq as int, vsq_i, v2 as int, x1i, pi);
    lemma_eqv_mul(2, 2, vv2 as int, vsq_i * x1i, pi);
    lemma_eqv_sub(
        t1 as int,
        (li * vi) * (li * vi) - vsq_i * (x2i - x1i),
        t2 as int,
        2 * (vsq_i * x1i),
        pi,
    );
    assert((li * vi) * (li * vi) - vsq_i * (x2i - x1i) - 2 * (vsq_i * x1i) == vsq_i * (li * li
        - x1i - x2i)) by (nonlinear_arith)
        requires
            vsq_i == vi * vi,
    ;
    lemma_eqv_mul(vsq_i, vsq_i, li * li - x1i - x2i, x3i, pi);
    assert(eqv(aa as int, vsq_i * x3i, pi));
    // X3 == v * aa == x3 * v^3, Z3 == v^3
    lemma_eqv_mul(vi, vi, aa as int, vsq_i * x3i, pi);
    assert(vi * (vsq_i * x3i) == x3i * vcube_i) by (nonlinear_arith)
        requires
            vsq_i == vi * vi,
            vcube_i == vsq_i * vi,
    ;
    lemma_eqv_mul(v_cube as int, vcube_i, 1, 1, pi);
    assert(eqv(z3p as int, vcube_i, pi));
    lemma_eqv_mul(x3i, x3i, z3p as int, vcube_i, pi);
    assert(eqv(x3p as int, x3i * z3p as int, pi));
    // Z3 is invertible
    lemma_invertible_mul(v, v, p);
    lemma_invertible_eqv(v * v, v_sq, p);
    lemma_invertible_mul(v_sq, v, p);
    lemma_invertible_eqv(v_sq * v, z3p, p);
    lemma_div_of_eqv(x3p, z3p, x3, p);
    // Y3 == u (v^2 x1 - aa) - v^3 y1 == y3 * v^3
    lemma_eqv_sub(vv2 as int, vsq_i * x1i, aa as int, vsq_i * x3i, pi);
    lemma_eqv_mul(ui, li * vi, t3 as int, vsq_i * x1i - vsq_i * x3i, pi);
    lemma_eqv_mul(v_cube as int, vcube_i, u2 as int, y1i, pi);
    lemma_eqv_sub(t4 as int, (li * vi) * (vsq_i * x1i - vsq_i * x3i), t5 as int, vcube_i * y1i, pi);
    lemma_eqv_sub(x1i, x1i, x3i, x3i, pi);
    lemma_eqv_mul(li, li, d as int, x1i - x3i, pi);
    lemma_eqv_sub(m as int, li * (x1i - x3i), y1i, y1i, pi);
    assert((li * vi) * (vsq_i * x1i - vsq_i * x3i) - vcube_i * y1i == (li * (x1i - x3i) - y1i)
        * vcube_i) by (nonlinear_arith)
        requires
            vsq_i == vi * vi,
            vcube_i == vsq_i * vi,
    ;
    lemma_eqv_mul(y3i, li * (x1i - x3i) - y1i, z3p as int, vcube_i, pi);
    assert(eqv(y3p as int, y3i * z3p as int, pi));
    lemma_div_of_eqv(y3p, z3p, y3, p);
}


// ---------------------------------------------------------------------------
// Doubling
// ---------------------------------------------------------------------------

/// For `y != 0` and an invertible `2y`, the projective double of `(x : y : 1)`
/// has an invertible `Z` and stands for the affine point `(sum_x, sum_y)` of the
/// tangent slope `(3x^2 + a) / 2y`.
proof fn lemma_double_finite(p: nat, a: nat, x: nat, y: nat)
    requires
        p > 8,
        x < p,
        y < p,
        y != 0,
        invertible(fmul(2, y, p), p),
    ensures
        ({
            let r = proj_double_spec(p, a, (x, y, 1));
            let lambda = fdiv(fadd(fmul(3, fmul(x, x, p), p), a % p, p), fmul(2, y, p), p);
            let x3 = sum_x(p, lambda, x, x);
            &&& proj_has_affine(p, r)
            &&& proj_to_affine_spec(p, r) == (x3, sum_y(p, lambda, x, y, x3), false)
        }),
{
    let pi = p as int;
    lemma_small_mod(1, p);
    lemma_small_mod(x, p);
    lemma_small_mod(y, p);
    lemma_small_mod(2, p);
    lemma_small_mod(3, p);
    lemma_small_mod(4, p);
    lemma_small_mod(8, p);
    lemma_mod_bound(a as int, pi);
    // projective quantities
    let ap = a % p;
    let zz = fmul(1, 1, p);
    assert(zz == 1);
    let xx = fmul(x, x, p);
    let e1 = fmul(ap, zz, p);
    let e2 = fmul(3, xx, p);
    let w = fadd(e1, e2, p);
    let s = fmul(y, 1, p);
    assert(s == y);
    let s_sq = fmul(s, s, p);
    let xy = fmul(x, y, p);
    let bb = fmul(xy, s, p);
    let ww = fmul(w, w, p);
    let e8b = fmul(8, bb, p);
    let h = fsub(ww, e8b, p);
    let h2 = fmul(2, h, p);
    let x2p = fmul(h2, s, p);
    let e4b = fmul(4, bb, p);
    let f = fsub(e4b, h, p);
    let wf = fmul(w, f, p);
    let yy = fmul(y, y, p);
    let yys = fmul(yy, s_sq, p);
    let e8y = fmul(8, yys, p);
    let y2p = fsub(wf, e8y, p);
    let s3 = fmul(s_sq, s, p);
    let z2p = fmul(8, s3, p);
    let r = proj_double_spec(p, a, (x, y, 1));
    assert(r == (x2p, y2p, z2p));
    // affine quantities
    let num = fadd(e2, ap, p);
    let den = fmul(2, y, p);
    let lambda = fdiv(num, den, p);
    let t = fmul(lambda, lambda, p);
    let xs = fsub(t, x, p);
    let x3 = fsub(xs, x, p);
    let d = fsub(x, x3, p);
    let m = fmul(lambda, d, p);
    let y3 = fsub(m, y, p);
    let (li, xi, yi, wi, hi) = (lambda as int, x as int, y as int, w as int, h as int);
    let (x3i, y3i) = (x3 as int, y3 as int);
    // congruences of the steps
    lemma_fmul_eqv(x, x, p);
    lemma_fmul_eqv(ap, zz, p);
    lemma_fmul_eqv(3, xx, p);
    lemma_fadd_eqv(e1, e2, p);
    lemma_fmul_eqv(y, 1, p);
    lemma_fmul_eqv(s, s, p);
    lemma_fmul_eqv(x, y, p);
    lemma_fmul_eqv(xy, s, p);
    lemma_fmul_eqv(w, w, p);
    lemma_fmul_eqv(8, bb, p);
    lemma_fsub_eqv(ww, e8b, p);
    lemma_fmul_eqv(2, h, p);
    lemma_fmul_eqv(h2, s, p);
    lemma_fmul_eqv(4, bb, p);
    lemma_fsub_eqv(e4b, h, p);
    lemma_fmul_eqv(w, f, p);
    lemma_fmul_eqv(y, y, p);
    lemma_fmul_eqv(yy, s_sq, p);
    lemma_fmul_eqv(8, yys, p);
    lemma_fsub_eqv(wf, e8y, p);
    lemma_fmul_eqv(s_sq, s, p);
    lemma_fmul_eqv(8, s3, p);
    lemma_fadd_eqv(e2, ap, p);
    lemma_fmul_eqv(2, y, p);
    lemma_fdiv_eqv(num, den, p);
    lemma_fmul_eqv(lambda, lambda, p);
    lemma_fsub_eqv(t, x, p);
    lemma_fsub_eqv(xs, x, p);
    lemma_fsub_eqv(x, x3, p);
    lemma_fmul_eqv(lambda, d, p);
    lemma_fsub_eqv(m, y, p);
    // w == num, so lambda * 2y == w
    assert(eqv(e1 as int, ap as int, pi));
    lemma_eqv_add(e1 as int, ap as int, e2 as int, e2 as int, pi);
    lemma_eqv_add(e2 as int, e2 as int, ap as int, ap as int, pi);
    assert(eqv(wi, num as int, pi));
    lemma_eqv_mul(li, li, den as int, 2 * yi, pi);
    assert(eqv(li * (2 * yi), wi, pi));
    let k = li * (2 * yi);
    // bb == x y^2, h == W^2 - 8 x y^2 == k^2 - 8 x y^2
    lemma_eqv_mul(xy as int, xi * yi, s as int, yi, pi);
    let bbi = xi * yi * yi;
    assert(eqv(bb as int, bbi, pi));
    lemma_eqv_mul(wi, k, wi, k, pi);
    lemma_eqv_mul(8, 8, bb as int, bbi, pi);
    lemma_eqv_sub(ww as int, k * k, e8b as int, 8 * bbi, pi);
    assert(eqv(hi, k * k - 8 * bbi, pi));
    // x3 == lambda^2 - 2x
    lemma_eqv_sub(t as int, li * li, xi, xi, pi);
    lemma_eqv_sub(xs as int, li * li - xi, xi, xi, pi);
    assert(eqv(x3i, li * li - xi - xi, pi));
    // Z' == 8 y^3
    lemma_eqv_mul(s_sq as int, yi * yi, s as int, yi, pi);
    lemma_eqv_mul(8, 8, s3 as int, yi * yi * yi, pi);
    let zi = 8 * (yi * yi * yi);
    assert(eqv(z2p as int, zi, pi));
    // X' == 2 h y == x3 * 8 y^3
    lemma_eqv_mul(2, 2, hi, k * k - 8 * bbi, pi);
    lemma_eqv_mul(h2 as int, 2 * (k * k - 8 * bbi), s as int, yi, pi);
    assert(2 * (k * k - 8 * bbi) * yi == (li * li - xi - xi) * zi) by (nonlinear_arith)
        requires
            k == li * (2 * yi),
            bbi == xi * yi * yi,
            zi == 8 * (yi * yi * yi),
    ;
    lemma_eqv_mul(x3i, li * li - xi - xi, z2p as int, zi, pi);
    assert(eqv(x2p as int, x3i * z2p as int, pi));
    // Z' is invertible: it is congruent to (2y)^3
    lemma_invertible_mul(den, den, p);
    lemma_invertible_mul(den * den, den, p);
    lemma_eqv_mul(den as int, 2 * yi, den as int, 2 * yi, pi);
    lemma_eqv_mul(den as int * den as int, (2 * yi) * (2 * yi), den as int, 2 * yi, pi);
    assert((2 * yi) * (2 * yi) * (2 * yi) == zi) by (nonlinear_arith)
        requires
            zi == 8 * (yi * yi * yi),
    ;
    lemma_invertible_eqv(den * den * den, z2p, p);
    lemma_div_of_eqv(x2p, z2p, x3, p);
    // Y' == W (4 x y^2 - h) - 8 y^4 == y3 * 8 y^3
    lemma_eqv_mul(4, 4, bb as int, bbi, pi);
    lemma_eqv_sub(e4b as int, 4 * bbi, hi, k * k - 8 * bbi, pi);
    lemma_eqv_mul(wi, k, f as int, 4 * bbi - (k * k - 8 * bbi), pi);
    lemma_eqv_mul(yy as int, yi * yi, s_sq as int, yi * yi, pi);
    lemma_eqv_mul(8, 8, yys as int, (yi * yi) * (yi * yi), pi);
    lemma_eqv_sub(
        wf as int,
        k * (4 * bbi - (k * k - 8 * bbi)),
        e8y as int,
        8 * ((yi * yi) * (yi * yi)),
        pi,
    );
    lemma_eqv_sub(xi, xi, x3i, li * li - xi - xi, pi);
    lemma_eqv_mul(li, li, d as int, xi - (li * li - xi - xi), pi);
    lemma_eqv_sub(m as int, li * (xi - (li * li - xi - xi)), yi, yi, pi);
    let ycube = yi * yi * yi;
    let lcube = li * li * li;
    assert(k * (12 * bbi) == 24 * (xi * li * ycube)) by (nonlinear_arith)
        requires
            k == li * (2 * yi),
            bbi == xi * yi * yi,
            ycube == yi * yi * yi,
    ;
    assert(k * (k * k) == 8 * (lcube * ycube)) by (nonlinear_arith)
        requires
            k == li * (2 * yi),
            lcube == li * li * li,
            ycube == yi * yi * yi,
    ;
    assert((yi * yi) * (yi * yi) == yi * ycube) by (nonlinear_arith)
        requires
            ycube == yi * yi * yi,
    ;
    assert(k * (4 * bbi - (k * k - 8 * bbi)) == k * (12 * bbi) - k * (k * k)) by (nonlinear_arith);
    assert((li * (xi - (li * li - xi - xi)) - yi) * zi == 24 * (xi * li * ycube) - 8 * (lcube
        * ycube) - 8 * (yi * ycube)) by (nonlinear_arith)
        requires
            zi == 8 * ycube,
            lcube == li * li * li,
    ;
    lemma_eqv_mul(y3i, li * (xi - (li * li - xi - xi)) - yi, z2p as int, zi, pi);
    assert(eqv(y2p as int, y3i * z2p as int, pi));
    lemma_div_of_eqv(y2p, z2p, y3, p);
}


// ---------------------------------------------------------------------------
// Scaled congruences: `A == c * a` modulo `p`
// ---------------------------------------------------------------------------

/// Products of scaled values are scaled by the product of the factors.
proof fn lemma_sc_mul(aa: nat, c1: int, a: nat, bb: nat, c2: int, b: nat, c: int, p: nat)
    requires
        p > 0,
        c == c1 * c2,
        eqv(aa as int, c1 * a, p as int),
        eqv(bb as int, c2 * b, p as int),
    ensures
        eqv(fmul(aa, bb, p) as int, c * fmul(a, b, p), p as int),
        fmul(aa, bb, p) < p,
        fmul(a, b, p) < p,
{
    let pi = p as int;
    lemma_fmul_eqv(aa, bb, p);
    lemma_fmul_eqv(a, b, p);
    lemma_eqv_mul(aa as int, c1 * a, bb as int, c2 * b, pi);
    assert((c1 * a) * (c2 * b) == c * (a * b)) by (nonlinear_arith)
        requires
            c == c1 * c2,
    ;
    lemma_eqv_mul(c, c, fmul(a, b, p) as int, (a * b) as int, pi);
}

/// Differences of values scaled by one factor are scaled by it.
proof fn lemma_sc_sub(aa: nat, a: nat, bb: nat, b: nat, c: int, p: nat)
    requires
        p > 0,
        aa < p,
        bb < p,
        a < p,
        b < p,
        eqv(aa as int, c * a, p as int),
        eqv(bb as int, c * b, p as int),
    ensures
        eqv(fsub(aa, bb, p) as int, c * fsub(a, b, p), p as int),
        fsub(aa, bb, p) < p,
        fsub(a, b, p) < p,
{
    let pi = p as int;
    lemma_fsub_eqv(aa, bb, p);
    lemma_fsub_eqv(a, b, p);
    lemma_eqv_sub(aa as int, c * a, bb as int, c * b, pi);
    assert(c * a - c * b == c * (a - b)) by (nonlinear_arith);
    lemma_eqv_mul(c, c, fsub(a, b, p) as int, a - b, pi);
}

/// Sums of values scaled by one factor are scaled by it.
proof fn lemma_sc_add(aa: nat, a: nat, bb: nat, b: nat, c: int, p: nat)
    requires
        p > 0,
        eqv(aa as int, c * a, p as int),
        eqv(bb as int, c * b, p as int),
    ensures
        eqv(fadd(aa, bb, p) as int, c * fadd(a, b, p), p as int),
        fadd(aa, bb, p) < p,
        fadd(a, b, p) < p,
{
    let pi = p as int;
    lemma_fadd_eqv(aa, bb, p);
    lemma_fadd_eqv(a, b, p);
    lemma_eqv_add(aa as int, c * a, bb as int, c * b, pi);
    assert(c * a + c * b == c * (a + b)) by (nonlinear_arith);
    lemma_eqv_mul(c, c, fadd(a, b, p) as int, (a + b) as int, pi);
}

/// Multiplying by an invertible factor can be undone: `c * a == c * b`
/// modulo `p` gives `a == b` modulo `p`.
proof fn lemma_eqv_cancel(a: int, b: int, c: nat, p: nat)
    requires
        p > 1,
        invertible(c, p),
        eqv(c * a, c * b, p as int),
    ensures
        eqv(a, b, p as int),
{
    let pi = p as int;
    let ci = inverse_of(c, p);
    assert(is_inverse(c, ci, p));
    lemma_small_mod(1, p);
    lemma_eqv_mul(ci as int, ci as int, c * a, c * b, pi);
    assert(ci * (c * a) == (ci * c) * a) by (nonlinear_arith);
    assert(ci * (c * b) == (ci * c) * b) by (nonlinear_arith);
    lemma_mul_is_commutative(ci as int, c as int);
    lemma_eqv_mul((ci * c) as int, 1, a, a, pi);
    lemma_eqv_mul((ci * c) as int, 1, b, b, pi);
}

/// Values below `p` scaled by one invertible factor are equal exactly when
/// the unscaled ones are.
proof fn lemma_sc_eq_iff(aa: nat, a: nat, bb: nat, b: nat, c: nat, p: nat)
    requires
        p > 1,
        aa < p,
        bb < p,
        a < p,
        b < p,
        invertible(c, p),
        eqv(aa as int, (c * a) as int, p as int),
        eqv(bb as int, (c * b) as int, p as int),
    ensures
        (aa == bb) == (a == b),
{
    if a == b {
        lemma_eqv_eq(aa, bb, p);
    }
    if aa == bb {
        lemma_eqv_cancel(a as int, b as int, c, p);
        lemma_eqv_eq(a, b, p);
    }
}

/// Zero has no inverse modulo `p > 1`.
proof fn lemma_zero_not_invertible(p: nat)
    requires
        p > 1,
    ensures
        !invertible(0, p),
{
    if invertible(0, p) {
        let x = inverse_of(0, p);
        assert(is_inverse(0, x, p));
        lemma_small_mod(1, p);
        lemma_small_mod(0, p);
        assert(0 * x == 0);
    }
}

/// A projective point whose coordinates are those of `u` times an invertible
/// factor stands for the same affine point as `u`, where `u`'s `Z` is
/// invertible.
proof fn lemma_scaled_to_affine(p: nat, g: (nat, nat, nat), u: (nat, nat, nat), k: nat)
    requires
        p > 1,
        invertible(k, p),
        invertible(u.2, p),
        eqv(g.0 as int, (k * u.0) as int, p as int),
        eqv(g.1 as int, (k * u.1) as int, p as int),
        eqv(g.2 as int, (k * u.2) as int, p as int),
    ensures
        !proj_is_infinity(g),
        !proj_is_infinity(u),
        proj_has_affine(p, g),
        proj_to_affine_spec(p, g) == proj_to_affine_spec(p, u),
{
    let pi = p as int;
    lemma_small_mod(1, p);
    lemma_invertible_mul(k, u.2, p);
    lemma_invertible_eqv(k * u.2, g.2, p);
    lemma_zero_not_invertible(p);
    let x = fdiv(u.0, u.2, p);
    let y = fdiv(u.1, u.2, p);
    lemma_fdiv_eqv(u.0, u.2, p);
    lemma_fdiv_eqv(u.1, u.2, p);
    // g.0 == k * u.0 == k * (x * u.2) == x * (k * u.2) == x * g.2
    lemma_eqv_mul(k as int, k as int, (x * u.2) as int, u.0 as int, pi);
    assert(k * (x * u.2) == x * (k * u.2)) by (nonlinear_arith);
    lemma_eqv_mul(x as int, x as int, (k * u.2) as int, g.2 as int, pi);
    lemma_div_of_eqv(g.0, g.2, x, p);
    lemma_eqv_mul(k as int, k as int, (y * u.2) as int, u.1 as int, pi);
    assert(k * (y * u.2) == y * (k * u.2)) by (nonlinear_arith);
    lemma_eqv_mul(y as int, y as int, (k * u.2) as int, g.2 as int, pi);
    lemma_div_of_eqv(g.1, g.2, y, p);
}

// ---------------------------------------------------------------------------
// Doubling and addition commute with scaling the coordinates
// ---------------------------------------------------------------------------

/// Doubling `(X : Y : Z)` with `X == Z*x` and `Y == Z*y` gives the double of
/// `(x : y : 1)` with every coordinate times the invertible factor `Z^6`.
proof fn lemma_double_scaled(p: nat, a: nat, xg: nat, yg: nat, zg: nat, x: nat, y: nat) -> (k: nat)
    requires
        p > 8,
        xg < p,
        yg < p,
        zg < p,
        x < p,
        y < p,
        invertible(zg, p),
        eqv(xg as int, (zg * x) as int, p as int),
        eqv(yg as int, (zg * y) as int, p as int),
        yg != 0,
        y != 0,
    ensures
        invertible(k, p),
        ({
            let g = proj_double_spec(p, a, (xg, yg, zg));
            let u = proj_double_spec(p, a, (x, y, 1));
            &&& eqv(g.0 as int, (k * u.0) as int, p as int)
            &&& eqv(g.1 as int, (k * u.1) as int, p as int)
            &&& eqv(g.2 as int, (k * u.2) as int, p as int)
        }),
{
    let pi = p as int;
    let zi = zg as int;
    let z2: nat = zg * zg;
    let z4: nat = z2 * z2;
    let z6: nat = z2 * z4;
    lemma_zero_not_invertible(p);
    lemma_small_mod(1, p);
    lemma_small_mod(2, p);
    lemma_small_mod(3, p);
    lemma_small_mod(4, p);
    lemma_small_mod(8, p);
    lemma_mod_bound(a as int, pi);
    let ap = a % p;
    assert(eqv(zg as int, zi * 1, pi));
    assert(eqv(ap as int, 1int * ap, pi));
    assert(eqv(2, 1int * 2, pi));
    assert(eqv(3, 1int * 3, pi));
    assert(eqv(4, 1int * 4, pi));
    assert(eqv(8, 1int * 8, pi));
    lemma_mul_is_commutative(z2 as int, z4 as int);
    // W := a*Z^2 + 3*X^2
    let (gzz, uzz) = (fmul(zg, zg, p), fmul(1, 1, p));
    lemma_sc_mul(zg, zi, 1, zg, zi, 1, z2 as int, p);
    let (gxx, uxx) = (fmul(xg, xg, p), fmul(x, x, p));
    lemma_sc_mul(xg, zi, x, xg, zi, x, z2 as int, p);
    let (ge1, ue1) = (fmul(ap, gzz, p), fmul(ap, uzz, p));
    lemma_sc_mul(ap, 1, ap, gzz, z2 as int, uzz, z2 as int, p);
    let (ge2, ue2) = (fmul(3, gxx, p), fmul(3, uxx, p));
    lemma_sc_mul(3, 1, 3, gxx, z2 as int, uxx, z2 as int, p);
    let (gw, uw) = (fadd(ge1, ge2, p), fadd(ue1, ue2, p));
    lemma_sc_add(ge1, ue1, ge2, ue2, z2 as int, p);
    // S := Y*Z, B := X*Y*S
    let (gs, us) = (fmul(yg, zg, p), fmul(y, 1, p));
    lemma_sc_mul(yg, zi, y, zg, zi, 1, z2 as int, p);
    let (gss, uss) = (fmul(gs, gs, p), fmul(us, us, p));
    lemma_sc_mul(gs, z2 as int, us, gs, z2 as int, us, z4 as int, p);
    let (gxy, uxy) = (fmul(xg, yg, p), fmul(x, y, p));
    lemma_sc_mul(xg, zi, x, yg, zi, y, z2 as int, p);
    let (gbb, ubb) = (fmul(gxy, gs, p), fmul(uxy, us, p));
    lemma_sc_mul(gxy, z2 as int, uxy, gs, z2 as int, us, z4 as int, p);
    // H := W^2 - 8*B
    let (gww, uww) = (fmul(gw, gw, p), fmul(uw, uw, p));
    lemma_sc_mul(gw, z2 as int, uw, gw, z2 as int, uw, z4 as int, p);
    let (g8b, u8b) = (fmul(8, gbb, p), fmul(8, ubb, p));
    lemma_sc_mul(8, 1, 8, gbb, z4 as int, ubb, z4 as int, p);
    let (gh, uh) = (fsub(gww, g8b, p), fsub(uww, u8b, p));
    lemma_sc_sub(gww, uww, g8b, u8b, z4 as int, p);
    // X' := 2*H*S
    let (g2h, u2h) = (fmul(2, gh, p), fmul(2, uh, p));
    lemma_sc_mul(2, 1, 2, gh, z4 as int, uh, z4 as int, p);
    let (gx2, ux2) = (fmul(g2h, gs, p), fmul(u2h, us, p));
    lemma_sc_mul(g2h, z4 as int, u2h, gs, z2 as int, us, z6 as int, p);
    // Y' := W*(4*B - H) - 8*Y^2*S^2
    let (g4b, u4b) = (fmul(4, gbb, p), fmul(4, ubb, p));
    lemma_sc_mul(4, 1, 4, gbb, z4 as int, ubb, z4 as int, p);
    let (gf, uf) = (fsub(g4b, gh, p), fsub(u4b, uh, p));
    lemma_sc_sub(g4b, u4b, gh, uh, z4 as int, p);
    let (gwf, uwf) = (fmul(gw, gf, p), fmul(uw, uf, p));
    lemma_sc_mul(gw, z2 as int, uw, gf, z4 as int, uf, z6 as int, p);
    let (gyy, uyy) = (fmul(yg, yg, p), fmul(y, y, p));
    lemma_sc_mul(yg, zi, y, yg, zi, y, z2 as int, p);
    let (gyys, uyys) = (fmul(gyy, gss, p), fmul(uyy, uss, p));
    lemma_sc_mul(gyy, z2 as int, uyy, gss, z4 as int, uss, z6 as int, p);
    let (g8y, u8y) = (fmul(8, gyys, p), fmul(8, uyys, p));
    lemma_sc_mul(8, 1, 8, gyys, z6 as int, uyys, z6 as int, p);
    let (gy2, uy2) = (fsub(gwf, g8y, p), fsub(uwf, u8y, p));
    lemma_sc_sub(gwf, uwf, g8y, u8y, z6 as int, p);
    // Z' := 8*S^3
    let (gs3, us3) = (fmul(gss, gs, p), fmul(uss, us, p));
    lemma_sc_mul(gss, z4 as int, uss, gs, z2 as int, us, z6 as int, p);
    let (gz2, uz2) = (fmul(8, gs3, p), fmul(8, us3, p));
    lemma_sc_mul(8, 1, 8, gs3, z6 as int, us3, z6 as int, p);
    assert(proj_double_spec(p, a, (xg, yg, zg)) == (gx2, gy2, gz2));
    assert(proj_double_spec(p, a, (x, y, 1)) == (ux2, uy2, uz2));
    lemma_invertible_mul(zg, zg, p);
    lemma_invertible_mul(z2, z2, p);
    lemma_invertible_mul(z2, z4, p);
    z6
}

/// Adding `(X1 : Y1 : Z1)` and `(X2 : Y2 : Z2)`, with `Xi == Zi*xi` and
/// `Yi == Zi*yi`, takes the same branches as adding `(x1 : y1 : 1)` and
/// `(x2 : y2 : 1)`; for `x1 != x2` it gives their sum with every coordinate
/// times the invertible factor `(Z1*Z2)^4`.
proof fn lemma_add_scaled(
    p: nat,
    a: nat,
    pt: (nat, nat, nat),
    q: (nat, nat, nat),
    x1: nat,
    y1: nat,
    x2: nat,
    y2: nat,
) -> (k: nat)
    requires
        p > 8,
        pt.0 < p && pt.1 < p && pt.2 < p,
        q.0 < p && q.1 < p && q.2 < p,
        x1 < p && y1 < p && x2 < p && y2 < p,
        invertible(pt.2, p),
        invertible(q.2, p),
        eqv(pt.0 as int, (pt.2 * x1) as int, p as int),
        eqv(pt.1 as int, (pt.2 * y1) as int, p as int),
        eqv(q.0 as int, (q.2 * x2) as int, p as int),
        eqv(q.1 as int, (q.2 * y2) as int, p as int),
    ensures
        invertible(k, p),
        (fmul(q.0, pt.2, p) == fmul(pt.0, q.2, p)) == (x1 == x2),
        (fmul(q.1, pt.2, p) == fmul(pt.1, q.2, p)) == (y1 == y2),
        x1 != x2 ==> ({
            let g = proj_add_spec(p, a, pt, q);
            let u = proj_add_spec(p, a, (x1, y1, 1), (x2, y2, 1));
            &&& eqv(g.0 as int, (k * u.0) as int, p as int)
            &&& eqv(g.1 as int, (k * u.1) as int, p as int)
            &&& eqv(g.2 as int, (k * u.2) as int, p as int)
        }),
{
    let pi = p as int;
    let (z1, z2) = (pt.2, q.2);
    let c: nat = z1 * z2;
    let c2: nat = c * c;
    let c3: nat = c2 * c;
    let c4: nat = c * c3;
    lemma_zero_not_invertible(p);
    lemma_small_mod(1, p);
    lemma_small_mod(2, p);
    lemma_small_mod(x1, p);
    lemma_small_mod(y1, p);
    lemma_small_mod(x2, p);
    lemma_small_mod(y2, p);
    assert(eqv(z1 as int, z1 as int * 1, pi));
    assert(eqv(z2 as int, z2 as int * 1, pi));
    assert(eqv(2, 1int * 2, pi));
    lemma_mul_is_commutative(z1 as int, z2 as int);
    lemma_mul_is_commutative(c3 as int, c as int);
    lemma_invertible_mul(z1, z2, p);
    // U1 := Y2*Z1, U2 := Y1*Z2, V1 := X2*Z1, V2 := X1*Z2
    let (gu1, uu1) = (fmul(q.1, z1, p), fmul(y2, 1, p));
    lemma_sc_mul(q.1, z2 as int, y2, z1, z1 as int, 1, c as int, p);
    let (gu2, uu2) = (fmul(pt.1, z2, p), fmul(y1, 1, p));
    lemma_sc_mul(pt.1, z1 as int, y1, z2, z2 as int, 1, c as int, p);
    let (gv1, uv1) = (fmul(q.0, z1, p), fmul(x2, 1, p));
    lemma_sc_mul(q.0, z2 as int, x2, z1, z1 as int, 1, c as int, p);
    let (gv2, uv2) = (fmul(pt.0, z2, p), fmul(x1, 1, p));
    lemma_sc_mul(pt.0, z1 as int, x1, z2, z2 as int, 1, c as int, p);
    lemma_sc_eq_iff(gv1, uv1, gv2, uv2, c, p);
    lemma_sc_eq_iff(gu1, uu1, gu2, uu2, c, p);
    if x1 != x2 {
        // U := U1 - U2, V := V1 - V2, W := Z1*Z2
        let (gu, uu) = (fsub(gu1, gu2, p), fsub(uu1, uu2, p));
        lemma_sc_sub(gu1, uu1, gu2, uu2, c as int, p);
        let (gv, uv) = (fsub(gv1, gv2, p), fsub(uv1, uv2, p));
        lemma_sc_sub(gv1, uv1, gv2, uv2, c as int, p);
        let (gvv, uvv) = (fmul(gv, gv, p), fmul(uv, uv, p));
        lemma_sc_mul(gv, c as int, uv, gv, c as int, uv, c2 as int, p);
        let (gv3, uv3) = (fmul(gvv, gv, p), fmul(uvv, uv, p));
        lemma_sc_mul(gvv, c2 as int, uvv, gv, c as int, uv, c3 as int, p);
        let (gw, uw) = (fmul(z1, z2, p), fmul(1, 1, p));
        lemma_sc_mul(z1, z1 as int, 1, z2, z2 as int, 1, c as int, p);
        // A := U^2*W - V^3 - 2*V^2*V2
        let (guu, uuu) = (fmul(gu, gu, p), fmul(uu, uu, p));
        lemma_sc_mul(gu, c as int, uu, gu, c as int, uu, c2 as int, p);
        let (guuw, uuuw) = (fmul(guu, gw, p), fmul(uuu, uw, p));
        lemma_sc_mul(guu, c2 as int, uuu, gw, c as int, uw, c3 as int, p);
        let (gt1, ut1) = (fsub(guuw, gv3, p), fsub(uuuw, uv3, p));
        lemma_sc_sub(guuw, uuuw, gv3, uv3, c3 as int, p);
        let (gvv2, uvv2) = (fmul(gvv, gv2, p), fmul(uvv, uv2, p));
        lemma_sc_mul(gvv, c2 as int, uvv, gv2, c as int, uv2, c3 as int, p);
        let (gt2, ut2) = (fmul(2, gvv2, p), fmul(2, uvv2, p));
        lemma_sc_mul(2, 1, 2, gvv2, c3 as int, uvv2, c3 as int, p);
        let (gaa, uaa) = (fsub(gt1, gt2, p), fsub(ut1, ut2, p));
        lemma_sc_sub(gt1, ut1, gt2, ut2, c3 as int, p);
        // X3 := V*A
        let (gx3, ux3) = (fmul(gv, gaa, p), fmul(uv, uaa, p));
        lemma_sc_mul(gv, c as int, uv, gaa, c3 as int, uaa, c4 as int, p);
        // Y3 := U*(V^2*V2 - A) - V^3*U2
        let (gt3, ut3) = (fsub(gvv2, gaa, p), fsub(uvv2, uaa, p));
        lemma_sc_sub(gvv2, uvv2, gaa, uaa, c3 as int, p);
        let (gt4, ut4) = (fmul(gu, gt3, p), fmul(uu, ut3, p));
        lemma_sc_mul(gu, c as int, uu, gt3, c3 as int, ut3, c4 as int, p);
        let (gt5, ut5) = (fmul(gv3, gu2, p), fmul(uv3, uu2, p));
        lemma_sc_mul(gv3, c3 as int, uv3, gu2, c as int, uu2, c4 as int, p);
        let (gy3, uy3) = (fsub(gt4, gt5, p), fsub(ut4, ut5, p));
        lemma_sc_sub(gt4, ut4, gt5, ut5, c4 as int, p);
        // Z3 := V^3*W
        let (gz3, uz3) = (fmul(gv3, gw, p), fmul(uv3, uw, p));
        lemma_sc_mul(gv3, c3 as int, uv3, gw, c as int, uw, c4 as int, p);
        assert(!proj_is_infinity(pt));
        assert(!proj_is_infinity(q));
        assert(proj_add_spec(p, a, pt, q) == (gx3, gy3, gz3));
        assert(proj_add_spec(p, a, (x1, y1, 1), (x2, y2, 1)) == (ux3, uy3, uz3));
    }
    lemma_invertible_mul(c, c, p);
    lemma_invertible_mul(c2, c, p);
    lemma_invertible_mul(c, c3, p);
    c4
}

// ---------------------------------------------------------------------------
// The laws
// ---------------------------------------------------------------------------

/// An affine point as the library builds them: coordinates below `p`, and the
/// point at infinity as `(0, 0)`.
pub open spec fn is_reduced_affine(p: nat, pt: (nat, nat, bool)) -> bool {
    if pt.2 {
        pt == affine_infinity()
    } else {
        pt.0 < p && pt.1 < p
    }
}

/// Converting an affine point to projective coordinates and back gives the
/// point again.
pub proof fn lemma_affine_proj_roundtrip(p: nat, pt: (nat, nat, bool))
    requires
        p > 1,
        is_reduced_affine(p, pt),
    ensures
        proj_has_affine(p, affine_to_proj_spec(pt)),
        proj_to_affine_spec(p, affine_to_proj_spec(pt)) == pt,
{
    if !pt.2 {
        lemma_small_mod(1, p);
        lemma_small_mod(pt.0, p);
        lemma_small_mod(pt.1, p);
        assert(is_inverse(1, 1, p));
        lemma_inverse_of(1, 1, p);
    }
}

/// Adding the projective forms `(x : y : 1)` of two affine points and
/// converting back gives their affine sum, wherever that is defined.
proof fn lemma_lifted_add_agrees(p: nat, a: nat, b: nat, pt: (nat, nat, bool), q: (nat, nat, bool))
    requires
        p > 8,
        is_reduced_affine(p, pt),
        is_reduced_affine(p, q),
        affine_add_spec(p, a, b, pt, q) is Some,
    ensures
        proj_has_affine(p, proj_add_spec(p, a, affine_to_proj_spec(pt), affine_to_proj_spec(q))),
        proj_to_affine_spec(p, proj_add_spec(p, a, affine_to_proj_spec(pt), affine_to_proj_spec(q)))
            == affine_add_spec(p, a, b, pt, q).unwrap(),
{
    lemma_affine_proj_roundtrip(p, pt);
    lemma_affine_proj_roundtrip(p, q);
    if !pt.2 && !q.2 {
        lemma_small_mod(pt.0, p);
        lemma_small_mod(pt.1, p);
        lemma_small_mod(q.0, p);
        lemma_small_mod(q.1, p);
        if pt.0 == q.0 && pt.1 == q.1 {
            assert(pt == q);
            lemma_lifted_double_agrees(p, a, b, pt);
        } else if pt.0 != q.0 {
            lemma_add_distinct(p, a, pt.0, pt.1, q.0, q.1);
        }
    }
}

/// Doubling the projective form `(x : y : 1)` of an affine point and
/// converting back gives the affine `pt + pt`, wherever that is defined.
proof fn lemma_lifted_double_agrees(p: nat, a: nat, b: nat, pt: (nat, nat, bool))
    requires
        p > 8,
        is_reduced_affine(p, pt),
        affine_add_spec(p, a, b, pt, pt) is Some,
    ensures
        proj_has_affine(p, proj_double_spec(p, a, affine_to_proj_spec(pt))),
        proj_to_affine_spec(p, proj_double_spec(p, a, affine_to_proj_spec(pt)))
            == affine_add_spec(p, a, b, pt, pt).unwrap(),
{
    if !pt.2 && pt.1 != 0 {
        lemma_double_finite(p, a, pt.0, pt.1);
    }
}


/// A projective point as the library builds them: coordinates below `p`.
pub open spec fn is_reduced_proj(p: nat, pt: (nat, nat, nat)) -> bool {
    pt.0 < p && pt.1 < p && pt.2 < p
}

/// For a point with invertible `Z`, its affine coordinates `x`, `y` are below
/// `p` and satisfy `X == Z*x`, `Y == Z*y` modulo `p`.
proof fn lemma_affine_coords(p: nat, pt: (nat, nat, nat))
    requires
        p > 1,
        invertible(pt.2, p),
    ensures
        fdiv(pt.0, pt.2, p) < p,
        fdiv(pt.1, pt.2, p) < p,
        eqv(pt.0 as int, (pt.2 * fdiv(pt.0, pt.2, p)) as int, p as int),
        eqv(pt.1 as int, (pt.2 * fdiv(pt.1, pt.2, p)) as int, p as int),
{
    lemma_fdiv_eqv(pt.0, pt.2, p);
    lemma_fdiv_eqv(pt.1, pt.2, p);
    lemma_mul_is_commutative(fdiv(pt.0, pt.2, p) as int, pt.2 as int);
    lemma_mul_is_commutative(fdiv(pt.1, pt.2, p) as int, pt.2 as int);
}

/// Projective doubling agrees with affine doubling: for any projective point
/// that stands for an affine point, doubling it and converting the result to
/// affine coordinates gives the affine `pt + pt`, wherever that is defined.
pub proof fn lemma_proj_double_agrees(p: nat, a: nat, b: nat, pt: (nat, nat, nat))
    requires
        p > 8,
        is_reduced_proj(p, pt),
        proj_has_affine(p, pt),
        affine_add_spec(p, a, b, proj_to_affine_spec(p, pt), proj_to_affine_spec(p, pt)) is Some,
    ensures
        proj_has_affine(p, proj_double_spec(p, a, pt)),
        proj_to_affine_spec(p, proj_double_spec(p, a, pt)) == affine_add_spec(
            p,
            a,
            b,
            proj_to_affine_spec(p, pt),
            proj_to_affine_spec(p, pt),
        ).unwrap(),
{
    if !proj_is_infinity(pt) {
        let (xg, yg, zg) = pt;
        lemma_affine_coords(p, pt);
        let x = fdiv(xg, zg, p);
        let y = fdiv(yg, zg, p);
        let ap = (x, y, false);
        assert(proj_to_affine_spec(p, pt) == ap);
        if yg == 0 {
            lemma_small_mod(0, p);
            assert(y == 0);
        } else {
            if y == 0 {
                assert(zg * y == 0) by (nonlinear_arith)
                    requires
                        y == 0,
                ;
                lemma_eqv_eq(yg, 0, p);
            }
            let k = lemma_double_scaled(p, a, xg, yg, zg, x, y);
            lemma_lifted_double_agrees(p, a, b, ap);
            assert(affine_to_proj_spec(ap) == (x, y, 1nat));
            let u = proj_double_spec(p, a, (x, y, 1));
            assert(!proj_is_infinity(u));
            lemma_scaled_to_affine(p, proj_double_spec(p, a, pt), u, k);
        }
    }
}

/// Projective addition agrees with affine addition: for any two projective
/// points that stand for affine points, adding them and converting the sum to
/// affine coordinates gives the affine sum of the two, wherever that is
/// defined.
pub proof fn lemma_proj_add_agrees(
    p: nat,
    a: nat,
    b: nat,
    pt: (nat, nat, nat),
    q: (nat, nat, nat),
)
    requires
        p > 8,
        is_reduced_proj(p, pt),
        is_reduced_proj(p, q),
        proj_has_affine(p, pt),
        proj_has_affine(p, q),
        affine_add_spec(p, a, b, proj_to_affine_spec(p, pt), proj_to_affine_spec(p, q)) is Some,
    ensures
        proj_has_affine(p, proj_add_spec(p, a, pt, q)),
        proj_to_affine_spec(p, proj_add_spec(p, a, pt, q)) == affine_add_spec(
            p,
            a,
            b,
            proj_to_affine_spec(p, pt),
            proj_to_affine_spec(p, q),
        ).unwrap(),
{
    if !proj_is_infinity(pt) && !proj_is_infinity(q) {
        lemma_affine_coords(p, pt);
        lemma_affine_coords(p, q);
        let x1 = fdiv(pt.0, pt.2, p);
        let y1 = fdiv(pt.1, pt.2, p);
        let x2 = fdiv(q.0, q.2, p);
        let y2 = fdiv(q.1, q.2, p);
        let ap = (x1, y1, false);
        let aq = (x2, y2, false);
        assert(proj_to_affine_spec(p, pt) == ap);
        assert(proj_to_affine_spec(p, q) == aq);
        let k = lemma_add_scaled(p, a, pt, q, x1, y1, x2, y2);
        if x1 != x2 {
            lemma_lifted_add_agrees(p, a, b, ap, aq);
            assert(affine_to_proj_spec(ap) == (x1, y1, 1nat));
            assert(affine_to_proj_spec(aq) == (x2, y2, 1nat));
            let u = proj_add_spec(p, a, (x1, y1, 1), (x2, y2, 1));
            assert(!proj_is_infinity(u));
            lemma_scaled_to_affine(p, proj_add_spec(p, a, pt, q), u, k);
        } else if y1 != y2 {
            assert(proj_add_spec(p, a, pt, q) == proj_infinity());
        } else {
            assert(ap == aq);
            assert(proj_add_spec(p, a, pt, q) == proj_double_spec(p, a, pt));
            lemma_proj_double_agrees(p, a, b, pt);
        }
    }
}

/// Projective addition and doubling keep coordinates below `p`.
proof fn lemma_proj_ops_reduced(p: nat, a: nat, pt: (nat, nat, nat), q: (nat, nat, nat))
    requires
        p > 1,
        is_reduced_proj(p, pt),
        is_reduced_proj(p, q),
    ensures
        is_reduced_proj(p, proj_add_spec(p, a, pt, q)),
        is_reduced_proj(p, proj_double_spec(p, a, pt)),
{
}

/// The Montgomery ladder run on affine points of curve `M` over bits `i - 1`
/// down to `0` of `k`, from the pair `(r0, r1)`: `None` where one of its affine
/// additions is undefined.
pub open spec fn affine_ladder_from<M: EllipticCurve>(
    r0: (nat, nat, bool),
    r1: (nat, nat, bool),
    k: nat,
    i: nat,
) -> Option<((nat, nat, bool), (nat, nat, bool))>
    decreases i,
{
    if i == 0 {
        Some((r0, r1))
    } else {
        let (s0, s1) = if bit_of(k, (i - 1) as nat) {
            (affine_add_of::<M>(r0, r1), affine_add_of::<M>(r1, r1))
        } else {
            (affine_add_of::<M>(r0, r0), affine_add_of::<M>(r0, r1))
        };
        if s0 is Some && s1 is Some {
            affine_ladder_from::<M>(s0.unwrap(), s1.unwrap(), k, (i - 1) as nat)
        } else {
            None
        }
    }
}

/// `k * pt` by the Montgomery ladder on affine points, highest bit first, from
/// the pair (infinity, `pt`).
pub open spec fn affine_ladder_mul_of<M: EllipticCurve>(pt: (nat, nat, bool), k: nat) -> Option<
    (nat, nat, bool),
> {
    match affine_ladder_from::<M>(affine_infinity(), pt, k, bit_len(k)) {
        Some(pair) => Some(pair.0),
        None => None,
    }
}

/// Each rung of the projective ladder keeps both points standing for the
/// points of the affine ladder.
proof fn lemma_ladder_from_agrees<M: EllipticCurve>(
    r0: (nat, nat, nat),
    r1: (nat, nat, nat),
    k: nat,
    i: nat,
)
    requires
        M::spec_modulo() > 8,
        is_reduced_proj(M::spec_modulo(), r0),
        is_reduced_proj(M::spec_modulo(), r1),
        proj_has_affine(M::spec_modulo(), r0),
        proj_has_affine(M::spec_modulo(), r1),
        affine_ladder_from::<M>(
            proj_to_affine_spec(M::spec_modulo(), r0),
            proj_to_affine_spec(M::spec_modulo(), r1),
            k,
            i,
        ) is Some,
    ensures
        ({
            let p = M::spec_modulo();
            let s = ladder_from::<M>(r0, r1, k, i);
            let t = affine_ladder_from::<M>(
                proj_to_affine_spec(p, r0),
                proj_to_affine_spec(p, r1),
                k,
                i,
            ).unwrap();
            &&& is_reduced_proj(p, s.0)
            &&& is_reduced_proj(p, s.1)
            &&& proj_has_affine(p, s.0)
            &&& proj_has_affine(p, s.1)
            &&& proj_to_affine_spec(p, s.0) == t.0
            &&& proj_to_affine_spec(p, s.1) == t.1
        }),
    decreases i,
{
    let (p, a, b) = (M::spec_modulo(), M::spec_a(), M::spec_b());
    if i > 0 {
        let bit = bit_of(k, (i - 1) as nat);
        lemma_proj_ops_reduced(p, a, r0, r1);
        lemma_proj_ops_reduced(p, a, r1, r0);
        if bit {
            lemma_proj_add_agrees(p, a, b, r0, r1);
            lemma_proj_double_agrees(p, a, b, r1);
            let n0 = proj_add_spec(p, a, r0, r1);
            let n1 = proj_double_spec(p, a, r1);
            lemma_ladder_from_agrees::<M>(n0, n1, k, (i - 1) as nat);
        } else {
            lemma_proj_double_agrees(p, a, b, r0);
            lemma_proj_add_agrees(p, a, b, r0, r1);
            let n0 = proj_double_spec(p, a, r0);
            let n1 = proj_add_spec(p, a, r0, r1);
            lemma_ladder_from_agrees::<M>(n0, n1, k, (i - 1) as nat);
        }
    }
}

/// Scalar multiplication in projective coordinates agrees with the same
/// Montgomery ladder run on affine points: for a projective point that stands
/// for an affine point, `k * pt` as `mul_scalar` computes it, converted to
/// affine coordinates, is the affine ladder's `k * pt`, wherever the affine
/// ladder is defined.
pub proof fn lemma_proj_mul_agrees<M: EllipticCurve>(pt: (nat, nat, nat), k: nat)
    requires
        is_reduced_proj(M::spec_modulo(), pt),
        proj_has_affine(M::spec_modulo(), pt),
        affine_ladder_mul_of::<M>(proj_to_affine_spec(M::spec_modulo(), pt), k) is Some,
    ensures
        is_reduced_proj(M::spec_modulo(), proj_mul_of::<M>(pt, k)),
        proj_has_affine(M::spec_modulo(), proj_mul_of::<M>(pt, k)),
        proj_to_affine_spec(M::spec_modulo(), proj_mul_of::<M>(pt, k)) == affine_ladder_mul_of::<M>(
            proj_to_affine_spec(M::spec_modulo(), pt),
            k,
        ).unwrap(),
{
    let p = M::spec_modulo();
    M::lemma_curve_bounds();
    lemma_small_mod(1, p);
    assert(proj_to_affine_spec(p, proj_infinity()) == affine_infinity());
    lemma_ladder_from_agrees::<M>(proj_infinity(), pt, k, bit_len(k));
}

// ---------------------------------------------------------------------------
// Commutativity and the neutral element
// ---------------------------------------------------------------------------

/// The negative of an invertible number is invertible.
proof fn lemma_neg_invertible(d1: nat, d2: nat, p: nat)
    requires
        p > 1,
        invertible(d1, p),
        eqv(d2 as int, -(d1 as int), p as int),
    ensures
        invertible(d2, p),
{
    let pi = p as int;
    let i = inverse_of(d1, p);
    assert(is_inverse(d1, i, p));
    let j = fsub(0, i, p);
    lemma_fsub_eqv(0, i, p);
    lemma_small_mod(1, p);
    // d2 * j == (-d1) * (-i) == d1 * i == 1
    lemma_eqv_mul(d2 as int, -(d1 as int), j as int, 0 - i, pi);
    assert((-(d1 as int)) * (0 - i) == d1 * i) by (nonlinear_arith);
    assert(is_inverse(d2, j, p));
}

/// Two finite points with different x coordinates add the same in either
/// order.
proof fn lemma_add_commutative_distinct(p: nat, a: nat, b: nat, x1: nat, y1: nat, x2: nat, y2: nat)
    requires
        p > 1,
        x1 < p && y1 < p && x2 < p && y2 < p,
        x1 != x2,
    ensures
        affine_add_spec(p, a, b, (x1, y1, false), (x2, y2, false)) == affine_add_spec(
            p,
            a,
            b,
            (x2, y2, false),
            (x1, y1, false),
        ),
{
    let pi = p as int;
    let (x1i, y1i, x2i, y2i) = (x1 as int, y1 as int, x2 as int, y2 as int);
    let n1 = fsub(y2, y1, p);
    let d1 = fsub(x2, x1, p);
    let n2 = fsub(y1, y2, p);
    let d2 = fsub(x1, x2, p);
    lemma_fsub_eqv(y2, y1, p);
    lemma_fsub_eqv(x2, x1, p);
    lemma_fsub_eqv(y1, y2, p);
    lemma_fsub_eqv(x1, x2, p);
    assert(eqv(d2 as int, -(d1 as int), pi)) by {
        lemma_eqv_sub(0, 0, d1 as int, x2i - x1i, pi);
    }
    assert(eqv(d1 as int, -(d2 as int), pi)) by {
        lemma_eqv_sub(0, 0, d2 as int, x1i - x2i, pi);
    }
    if invertible(d1, p) {
        lemma_neg_invertible(d1, d2, p);
    }
    if invertible(d2, p) {
        lemma_neg_invertible(d2, d1, p);
    }
    if invertible(d1, p) {
        let l = fdiv(n1, d1, p);
        let li = l as int;
        lemma_fdiv_eqv(n1, d1, p);
        // n2 == -n1 == -(l * d1) == l * d2
        lemma_eqv_sub(0, 0, n1 as int, li * d1, pi);
        lemma_eqv_sub(0, 0, n1 as int, y2i - y1i, pi);
        lemma_eqv_mul(li, li, d2 as int, -(d1 as int), pi);
        assert(0 - li * d1 == li * (-(d1 as int))) by (nonlinear_arith);
        assert(eqv(n2 as int, li * d2, pi));
        lemma_div_of_eqv(n2, d2, l, p);
        assert(fdiv(n2, d2, p) == l);
        // the x coordinates: t - x1 - x2 either way
        let t = fmul(l, l, p);
        lemma_fmul_eqv(l, l, p);
        let xa = fsub(t, x1, p);
        let xb = fsub(t, x2, p);
        lemma_fsub_eqv(t, x1, p);
        lemma_fsub_eqv(t, x2, p);
        let x3 = fsub(xa, x2, p);
        let x3b = fsub(xb, x1, p);
        lemma_fsub_eqv(xa, x2, p);
        lemma_fsub_eqv(xb, x1, p);
        lemma_eqv_sub(xa as int, t - x1i, x2i, x2i, pi);
        lemma_eqv_sub(xb as int, t - x2i, x1i, x1i, pi);
        lemma_eqv_eq(x3, x3b, p);
        assert(sum_x(p, l, x1, x2) == sum_x(p, l, x2, x1));
        // the y coordinates: l*(x1 - x3) - y1 == l*(x2 - x3) - y2, as l*(x2 - x1) == y2 - y1
        let x3i = x3 as int;
        let da = fsub(x1, x3, p);
        let db = fsub(x2, x3, p);
        lemma_fsub_eqv(x1, x3, p);
        lemma_fsub_eqv(x2, x3, p);
        let ma = fmul(l, da, p);
        let mb = fmul(l, db, p);
        lemma_fmul_eqv(l, da, p);
        lemma_fmul_eqv(l, db, p);
        let ya = fsub(ma, y1, p);
        let yb = fsub(mb, y2, p);
        lemma_fsub_eqv(ma, y1, p);
        lemma_fsub_eqv(mb, y2, p);
        lemma_eqv_mul(li, li, da as int, x1i - x3i, pi);
        lemma_eqv_mul(li, li, db as int, x2i - x3i, pi);
        lemma_eqv_sub(ma as int, li * (x1i - x3i), y1i, y1i, pi);
        lemma_eqv_sub(mb as int, li * (x2i - x3i), y2i, y2i, pi);
        let e = li * (x2i - x1i);
        lemma_eqv_mul(li, li, d1 as int, x2i - x1i, pi);
        assert(eqv(e, y2i - y1i, pi));
        assert(li * (x1i - x3i) - y1i == (li * (x2i - x3i) - y2i) + ((y2i - y1i) - e)) by (
        nonlinear_arith)
            requires
                e == li * (x2i - x1i),
        ;
        lemma_eqv_sub(y2i - y1i, e, e, e, pi);
        assert(eqv((y2i - y1i) - e, 0, pi));
        lemma_eqv_add(li * (x2i - x3i) - y2i, li * (x2i - x3i) - y2i, (y2i - y1i) - e, 0, pi);
        lemma_eqv_eq(ya, yb, p);
        assert(sum_y(p, l, x1, y1, x3) == sum_y(p, l, x2, y2, x3));
    }
}

/// Affine addition is commutative: for points with coordinates below `p` (the
/// point at infinity as `(0, 0)`), `pt + q` and `q + pt` are both undefined or
/// both the same point.
pub proof fn lemma_affine_add_commutative(
    p: nat,
    a: nat,
    b: nat,
    pt: (nat, nat, bool),
    q: (nat, nat, bool),
)
    requires
        p > 1,
        is_reduced_affine(p, pt),
        is_reduced_affine(p, q),
    ensures
        affine_add_spec(p, a, b, pt, q) == affine_add_spec(p, a, b, q, pt),
{
    if !pt.2 && !q.2 && pt.0 != q.0 {
        lemma_add_commutative_distinct(p, a, b, pt.0, pt.1, q.0, q.1);
    }
}

/// The point at infinity is neutral for affine addition, on either side.
pub proof fn lemma_affine_add_identity(p: nat, a: nat, b: nat, pt: (nat, nat, bool))
    requires
        is_reduced_affine(p, pt),
    ensures
        affine_add_spec(p, a, b, pt, affine_infinity()) == Some(pt),
        affine_add_spec(p, a, b, affine_infinity(), pt) == Some(pt),
{
}

/// The point at infinity `(0 : 1 : 0)` is neutral for projective addition, on
/// either side, and doubles to itself.
pub proof fn lemma_proj_add_identity(p: nat, a: nat, pt: (nat, nat, nat))
    ensures
        proj_add_spec(p, a, pt, proj_infinity()) == pt,
        proj_add_spec(p, a, proj_infinity(), pt) == pt,
        proj_double_spec(p, a, proj_infinity()) == proj_infinity(),
{
}

/// Adding a projective point to itself gives exactly its double.
pub proof fn lemma_proj_add_self(p: nat, a: nat, pt: (nat, nat, nat))
    ensures
        proj_add_spec(p, a, pt, pt) == proj_double_spec(p, a, pt),
{
}

/// Projective addition is commutative up to the representation: for projective
/// points that stand for affine points, `pt + q` and `q + pt` stand for the
/// same affine point, wherever the affine sum is defined.
pub proof fn lemma_proj_add_commutative(
    p: nat,
    a: nat,
    b: nat,
    pt: (nat, nat, nat),
    q: (nat, nat, nat),
)
    requires
        p > 8,
        is_reduced_proj(p, pt),
        is_reduced_proj(p, q),
        proj_has_affine(p, pt),
        proj_has_affine(p, q),
        affine_add_spec(p, a, b, proj_to_affine_spec(p, pt), proj_to_affine_spec(p, q)) is Some,
    ensures
        proj_has_affine(p, proj_add_spec(p, a, pt, q)),
        proj_has_affine(p, proj_add_spec(p, a, q, pt)),
        proj_to_affine_spec(p, proj_add_spec(p, a, pt, q)) == proj_to_affine_spec(
            p,
            proj_add_spec(p, a, q, pt),
        ),
{
    let (ap, aq) = (proj_to_affine_spec(p, pt), proj_to_affine_spec(p, q));
    lemma_mod_bound(0, p as int);
    assert(is_reduced_affine(p, ap));
    assert(is_reduced_affine(p, aq));
    lemma_affine_add_commutative(p, a, b, ap, aq);
    lemma_proj_add_agrees(p, a, b, pt, q);
    lemma_proj_add_agrees(p, a, b, q, pt);
}

// ---------------------------------------------------------------------------
// The sum of two curve points is on the curve
// ---------------------------------------------------------------------------

/// The line of slope `l` through `(x1, y1)`, at `x`.
spec fn line_at(l: int, x1: int, y1: int, x: int) -> int {
    l * (x - x1) + y1
}

/// How far the curve `x^3 + a*x + b` lies above the square of the line at `x`.
spec fn cubic_gap(a: int, b: int, l: int, x1: int, y1: int, x: int) -> int {
    x * x * x + a * x + b - line_at(l, x1, y1, x) * line_at(l, x1, y1, x)
}

/// The gap depends on the residue of `x` only.
proof fn lemma_cubic_gap_eqv(a: int, b: int, l: int, x1: int, y1: int, x: int, x_: int, p: int)
    requires
        p > 0,
        eqv(x, x_, p),
    ensures
        eqv(cubic_gap(a, b, l, x1, y1, x), cubic_gap(a, b, l, x1, y1, x_), p),
{
    lemma_eqv_mul(x, x_, x, x_, p);
    lemma_eqv_mul(x * x, x_ * x_, x, x_, p);
    lemma_eqv_mul(a, a, x, x_, p);
    lemma_eqv_add(x * x * x, x_ * x_ * x_, a * x, a * x_, p);
    lemma_eqv_add(x * x * x + a * x, x_ * x_ * x_ + a * x_, b, b, p);
    lemma_eqv_sub(x, x_, x1, x1, p);
    lemma_eqv_mul(l, l, x - x1, x_ - x1, p);
    lemma_eqv_add(l * (x - x1), l * (x_ - x1), y1, y1, p);
    let (h, h_) = (line_at(l, x1, y1, x), line_at(l, x1, y1, x_));
    lemma_eqv_mul(h, h_, h, h_, p);
    lemma_eqv_sub(x * x * x + a * x + b, x_ * x_ * x_ + a * x_ + b, h * h, h_ * h_, p);
}

/// Where the gap vanishes at `x3` and `y3` is the negated line there, `(x3, y3)`
/// is on the curve.
proof fn lemma_gap_on_curve(p: nat, a: nat, b: nat, l: int, x1: int, y1: int, x3: nat, y3: nat)
    requires
        p > 0,
        eqv(cubic_gap(a as int, b as int, l, x1, y1, x3 as int), 0, p as int),
        eqv(y3 as int, -line_at(l, x1, y1, x3 as int), p as int),
    ensures
        on_curve(p, a, b, x3, y3),
{
    let pi = p as int;
    let (xi, yi) = (x3 as int, y3 as int);
    let h = line_at(l, x1, y1, xi);
    let f = xi * xi * xi + (a as int) * xi + (b as int);
    lemma_eqv_mul(yi, -h, yi, -h, pi);
    assert((-h) * (-h) == h * h) by (nonlinear_arith);
    // f == gap + h^2 == h^2 == y3^2
    lemma_eqv_add(cubic_gap(a as int, b as int, l, x1, y1, xi), 0, h * h, h * h, pi);
    assert(f == cubic_gap(a as int, b as int, l, x1, y1, xi) + h * h);
    assert(eqv(f, h * h, pi));
    assert(eqv(f, yi * yi, pi));
    assert((x3 * x3 * x3 + a * x3 + b) as int == f);
}

/// The square of the line at `x`, expanded around `x1`.
proof fn lemma_line_square(l: int, s: int, x1: int, y1: int, x: int)
    requires
        s == l * l,
    ensures
        line_at(l, x1, y1, x) * line_at(l, x1, y1, x) == s * ((x - x1) * (x - x1)) + 2 * l * y1
            * (x - x1) + y1 * y1,
{
    let d = x - x1;
    assert((l * d + y1) * (l * d + y1) == (l * l) * (d * d) + 2 * l * y1 * d + y1 * y1)
        by (nonlinear_arith);
}

/// `alpha` of the chord: the gap minus `(x - x1)(x - x2)(x - x3)` is
/// `alpha * x + beta`.
spec fn chord_alpha(a: int, l: int, s: int, x1: int, y1: int, x2: int) -> int {
    a + s * x1 - s * x2 - 2 * l * y1 + x1 * x1 + x1 * x2 + x2 * x2
}

/// `beta` of the chord.
spec fn chord_beta(b: int, l: int, s: int, x1: int, y1: int, x2: int) -> int {
    b - s * x1 * x1 + s * x1 * x2 + 2 * l * x1 * y1 - x1 * x1 * x2 - x1 * x2 * x2 - y1 * y1
}

proof fn lemma_chord_at_x1(a: int, b: int, l: int, s: int, x1: int, y1: int, x2: int)
    by (nonlinear_arith)
    ensures
        x1 * x1 * x1 + a * x1 + b - y1 * y1 == (a + s * x1 - s * x2 - 2 * l * y1 + x1 * x1 + x1 * x2 + x2 * x2) * x1 + (b - s * x1 * x1 + s * x1 * x2 + 2 * l * x1 * y1 - x1 * x1 * x2 - x1 * x2 * x2 - y1 * y1),
{
}

/// Multiplication distributes over a sum of four terms.
proof fn lemma_mul_distrib4(s: int, a: int, b: int, c: int, d: int)
    ensures
        s * (a - b - c + d) == s * a - s * b - s * c + s * d,
{
    assert(s * (a - b - c + d) == s * a - s * b - s * c + s * d) by (nonlinear_arith);
}

proof fn lemma_chord_at_x3(a: int, b: int, l: int, s: int, x1: int, y1: int, x2: int, x3: int)
    requires
        x3 == s - x1 - x2,
    ensures
        x3 * x3 * x3 + a * x3 + b - (s * ((x3 - x1) * (x3 - x1)) + 2 * l * y1 * (x3 - x1) + y1
            * y1) == (a + s * x1 - s * x2 - 2 * l * y1 + x1 * x1 + x1 * x2 + x2 * x2) * x3 + (b
            - s * x1 * x1 + s * x1 * x2 + 2 * l * x1 * y1 - x1 * x1 * x2 - x1 * x2 * x2 - y1
            * y1),
{
    let q = x3 * x3 - x1 * x3 - x2 * x3 + x1 * x2;
    assert((x3 - x1) * (x3 - x1) == x3 * x3 - 2 * (x1 * x3) + x1 * x1) by (nonlinear_arith);
    assert(s * ((x3 - x1) * (x3 - x1)) == s * (x3 * x3) - 2 * (s * x1 * x3) + s * x1 * x1)
        by (nonlinear_arith)
        requires
            (x3 - x1) * (x3 - x1) == x3 * x3 - 2 * (x1 * x3) + x1 * x1,
    ;
    lemma_mul_distrib4(s, x3 * x3, x1 * x3, x2 * x3, x1 * x2);
    lemma_mul_is_associative(s, x1, x3);
    lemma_mul_is_associative(s, x2, x3);
    lemma_mul_is_associative(s, x1, x2);
    assert(s * q == s * (x3 * x3) - s * x1 * x3 - s * x2 * x3 + s * x1 * x2);
    assert(2 * l * y1 * (x3 - x1) == 2 * l * y1 * x3 - 2 * l * x1 * y1) by (nonlinear_arith);
    assert((a + s * x1 - s * x2 - 2 * l * y1 + x1 * x1 + x1 * x2 + x2 * x2) * x3 == a * x3 + s
        * x1 * x3 - s * x2 * x3 - 2 * l * y1 * x3 + x1 * x1 * x3 + x1 * x2 * x3 + x2 * x2 * x3)
        by (nonlinear_arith);
    assert(x1 * q == x1 * x3 * x3 - x1 * x1 * x3 - x1 * x2 * x3 + x1 * x1 * x2) by (nonlinear_arith)
        requires
            q == x3 * x3 - x1 * x3 - x2 * x3 + x1 * x2,
    ;
    assert(x2 * q == x2 * x3 * x3 - x1 * x2 * x3 - x2 * x2 * x3 + x1 * x2 * x2) by (nonlinear_arith)
        requires
            q == x3 * x3 - x1 * x3 - x2 * x3 + x1 * x2,
    ;
    assert(x3 * q == x3 * x3 * x3 - x1 * x3 * x3 - x2 * x3 * x3 + x1 * x2 * x3) by (nonlinear_arith)
        requires
            q == x3 * x3 - x1 * x3 - x2 * x3 + x1 * x2,
    ;
    assert(s * q == x1 * q + x2 * q + x3 * q) by (nonlinear_arith)
        requires
            s == x1 + x2 + x3,
    ;
}

proof fn lemma_chord_at_x2(a: int, b: int, l: int, s: int, x1: int, y1: int, x2: int)
    ensures
        x2 * x2 * x2 + a * x2 + b - (s * ((x2 - x1) * (x2 - x1)) + 2 * l * y1 * (x2 - x1) + y1
            * y1) == (a + s * x1 - s * x2 - 2 * l * y1 + x1 * x1 + x1 * x2 + x2 * x2) * x2 + (b - s * x1 * x1 + s * x1 * x2 + 2 * l * x1 * y1 - x1 * x1 * x2 - x1 * x2 * x2 - y1 * y1),
{
    assert(s * ((x2 - x1) * (x2 - x1)) == s * x2 * x2 - 2 * s * x1 * x2 + s * x1 * x1) by (nonlinear_arith);
    assert(2 * l * y1 * (x2 - x1) == 2 * l * y1 * x2 - 2 * l * y1 * x1) by (nonlinear_arith);
    assert((a + s * x1 - s * x2 - 2 * l * y1 + x1 * x1 + x1 * x2 + x2 * x2) * x2 == a * x2 + s * x1 * x2 - s * x2 * x2 - 2 * l * y1 * x2 + x1 * x1 * x2 + x1 * x2 * x2 + x2 * x2 * x2) by (nonlinear_arith);
    assert(2 * l * x1 * y1 == 2 * l * y1 * x1) by (nonlinear_arith);
    assert(2 * s * x1 * x2 == 2 * (s * x1 * x2)) by (nonlinear_arith);
}

proof fn lemma_tangent_at_x1(a: int, b: int, l: int, x1: int, y1: int)
    by (nonlinear_arith)
    ensures
        x1 * x1 * x1 + a * x1 + b - y1 * y1 == (a - 2 * l * y1 + 3 * (x1 * x1)) * x1 + (b + 2 * l
            * x1 * y1 - 2 * (x1 * x1 * x1) - y1 * y1),
{
}

proof fn lemma_tangent_at_x3(a: int, b: int, l: int, s: int, x1: int, y1: int, x3: int)
    requires
        x3 == s - x1 - x1,
    ensures
        x3 * x3 * x3 + a * x3 + b - (s * ((x3 - x1) * (x3 - x1)) + 2 * l * y1 * (x3 - x1) + y1
            * y1) == (a - 2 * l * y1 + 3 * (x1 * x1)) * x3 + (b + 2 * l * x1 * y1 - 2 * (x1 * x1
            * x1) - y1 * y1),
{
    let q = x3 * x3 - 2 * (x1 * x3) + x1 * x1;
    assert((x3 - x1) * (x3 - x1) == q) by (nonlinear_arith)
        requires
            q == x3 * x3 - 2 * (x1 * x3) + x1 * x1,
    ;
    assert(2 * l * y1 * (x3 - x1) == 2 * l * y1 * x3 - 2 * l * x1 * y1) by (nonlinear_arith);
    assert((a - 2 * l * y1 + 3 * (x1 * x1)) * x3 == a * x3 - 2 * l * y1 * x3 + 3 * (x1 * x1 * x3))
        by (nonlinear_arith);
    assert(x1 * q == x1 * x3 * x3 - 2 * (x1 * x1 * x3) + x1 * x1 * x1) by (nonlinear_arith)
        requires
            q == x3 * x3 - 2 * (x1 * x3) + x1 * x1,
    ;
    assert(x3 * q == x3 * x3 * x3 - 2 * (x1 * x3 * x3) + x1 * x1 * x3) by (nonlinear_arith)
        requires
            q == x3 * x3 - 2 * (x1 * x3) + x1 * x1,
    ;
    assert(s * q == x1 * q + x1 * q + x3 * q) by (nonlinear_arith)
        requires
            s == x1 + x1 + x3,
    ;
}

/// The double of a point of the curve with `y != 0` (and an invertible `2y`) is
/// on the curve.
proof fn lemma_double_on_curve(p: nat, a: nat, b: nat, x: nat, y: nat)
    requires
        p > 8,
        x < p,
        y < p,
        on_curve(p, a, b, x, y),
        invertible(fmul(2, y, p), p),
    ensures
        ({
            let lambda = fdiv(fadd(fmul(3, fmul(x, x, p), p), a % p, p), fmul(2, y, p), p);
            let x3 = sum_x(p, lambda, x, x);
            on_curve(p, a, b, x3, sum_y(p, lambda, x, y, x3))
        }),
{
    let pi = p as int;
    lemma_small_mod(2, p);
    lemma_small_mod(3, p);
    lemma_mod_bound(a as int, pi);
    let xx = fmul(x, x, p);
    let e2 = fmul(3, xx, p);
    let ap = a % p;
    let num = fadd(e2, ap, p);
    let den = fmul(2, y, p);
    let lambda = fdiv(num, den, p);
    let t = fmul(lambda, lambda, p);
    let xs = fsub(t, x, p);
    let x3 = fsub(xs, x, p);
    let d = fsub(x, x3, p);
    let m = fmul(lambda, d, p);
    let y3 = fsub(m, y, p);
    let (l, ai, bi, xi, yi) = (lambda as int, a as int, b as int, x as int, y as int);
    let e3 = l * l - xi - xi;
    lemma_fmul_eqv(x, x, p);
    lemma_fmul_eqv(3, xx, p);
    lemma_fadd_eqv(e2, ap, p);
    lemma_fmul_eqv(2, y, p);
    lemma_fdiv_eqv(num, den, p);
    lemma_fmul_eqv(lambda, lambda, p);
    lemma_fsub_eqv(t, x, p);
    lemma_fsub_eqv(xs, x, p);
    lemma_fsub_eqv(x, x3, p);
    lemma_fmul_eqv(lambda, d, p);
    lemma_fsub_eqv(m, y, p);
    lemma_mod_twice(ai, pi);
    // lambda * 2y == 3x^2 + a
    lemma_eqv_mul(3, 3, xx as int, xi * xi, pi);
    lemma_eqv_add(e2 as int, 3 * (xi * xi), ap as int, ai, pi);
    lemma_eqv_mul(l, l, den as int, 2 * yi, pi);
    assert(eqv(l * (2 * yi), 3 * (xi * xi) + ai, pi));
    // x3 == l^2 - 2x
    lemma_eqv_sub(t as int, l * l, xi, xi, pi);
    lemma_eqv_sub(xs as int, l * l - xi, xi, xi, pi);
    assert(eqv(x3 as int, e3, pi));
    // y3 == -(line at x3)
    lemma_eqv_sub(xi, xi, x3 as int, e3, pi);
    lemma_eqv_mul(l, l, d as int, xi - (x3 as int), pi);
    lemma_eqv_sub(m as int, l * (xi - (x3 as int)), yi, yi, pi);
    assert(-line_at(l, xi, yi, x3 as int) == l * (xi - (x3 as int)) - yi) by (nonlinear_arith);
    assert(eqv(y3 as int, -line_at(l, xi, yi, x3 as int), pi));
    // the gap minus (x - x1)^2 (x - e3) is alpha * x + beta
    let sq = l * l;
    let alpha = ai - 2 * l * yi + 3 * (xi * xi);
    let beta = bi + 2 * l * xi * yi - 2 * (xi * xi * xi) - yi * yi;
    lemma_line_square(l, sq, xi, yi, xi);
    lemma_line_square(l, sq, xi, yi, e3);
    lemma_tangent_at_x1(ai, bi, l, xi, yi);
    lemma_tangent_at_x3(ai, bi, l, sq, xi, yi, e3);
    assert((xi - xi) * (xi - xi) == 0);
    assert(cubic_gap(ai, bi, l, xi, yi, xi) == alpha * xi + beta);
    assert(cubic_gap(ai, bi, l, xi, yi, e3) == alpha * e3 + beta);
    // alpha == 0 by the slope, and the gap vanishes at x (P is on the curve)
    assert(2 * l * yi == l * (2 * yi)) by (nonlinear_arith);
    lemma_eqv_sub(ai, ai, 2 * l * yi, 3 * (xi * xi) + ai, pi);
    lemma_eqv_add(ai - 2 * l * yi, ai - (3 * (xi * xi) + ai), 3 * (xi * xi), 3 * (xi * xi), pi);
    assert(eqv(alpha, 0, pi));
    assert(eqv(cubic_gap(ai, bi, l, xi, yi, xi), 0, pi)) by {
        assert(line_at(l, xi, yi, xi) == yi) by (nonlinear_arith);
        lemma_eqv_sub(xi * xi * xi + ai * xi + bi, yi * yi, yi * yi, yi * yi, pi);
        assert((x * x * x + a * x + b) as int == xi * xi * xi + ai * xi + bi);
    }
    lemma_eqv_mul(alpha, 0, xi, xi, pi);
    lemma_eqv_sub(alpha * xi + beta, 0, alpha * xi, 0, pi);
    assert(eqv(beta, 0, pi));
    lemma_eqv_mul(alpha, 0, e3, e3, pi);
    lemma_eqv_add(alpha * e3, 0, beta, 0, pi);
    // the gap vanishes at x3
    lemma_cubic_gap_eqv(ai, bi, l, xi, yi, x3 as int, e3, pi);
    lemma_gap_on_curve(p, a, b, l, xi, yi, x3, y3);
}

/// The sum of two points of the curve with different x coordinates (and an
/// invertible `x2 - x1`) is on the curve.
proof fn lemma_add_distinct_on_curve(p: nat, a: nat, b: nat, x1: nat, y1: nat, x2: nat, y2: nat)
    requires
        p > 1,
        x1 < p,
        y1 < p,
        x2 < p,
        y2 < p,
        on_curve(p, a, b, x1, y1),
        on_curve(p, a, b, x2, y2),
        invertible(fsub(x2, x1, p), p),
    ensures
        ({
            let lambda = fdiv(fsub(y2, y1, p), fsub(x2, x1, p), p);
            let x3 = sum_x(p, lambda, x1, x2);
            on_curve(p, a, b, x3, sum_y(p, lambda, x1, y1, x3))
        }),
{
    let pi = p as int;
    let u = fsub(y2, y1, p);
    let v = fsub(x2, x1, p);
    let lambda = fdiv(u, v, p);
    let t = fmul(lambda, lambda, p);
    let xs = fsub(t, x1, p);
    let x3 = fsub(xs, x2, p);
    let d = fsub(x1, x3, p);
    let m = fmul(lambda, d, p);
    let y3 = fsub(m, y1, p);
    let (l, ai, bi) = (lambda as int, a as int, b as int);
    let (x1i, y1i, x2i, y2i) = (x1 as int, y1 as int, x2 as int, y2 as int);
    let e3 = l * l - x1i - x2i;
    lemma_fdiv_eqv(u, v, p);
    lemma_fsub_eqv(y2, y1, p);
    lemma_fsub_eqv(x2, x1, p);
    lemma_fmul_eqv(lambda, lambda, p);
    lemma_fsub_eqv(t, x1, p);
    lemma_fsub_eqv(xs, x2, p);
    lemma_fsub_eqv(x1, x3, p);
    lemma_fmul_eqv(lambda, d, p);
    lemma_fsub_eqv(m, y1, p);
    // x3 == l^2 - x1 - x2
    lemma_eqv_sub(t as int, l * l, x1i, x1i, pi);
    lemma_eqv_sub(xs as int, l * l - x1i, x2i, x2i, pi);
    assert(eqv(x3 as int, e3, pi));
    // y3 == -(line at x3)
    lemma_eqv_sub(x1i, x1i, x3 as int, e3, pi);
    lemma_eqv_mul(l, l, d as int, x1i - e3, pi);
    lemma_eqv_sub(m as int, l * (x1i - e3), y1i, y1i, pi);
    lemma_eqv_sub(x1i, x1i, x3 as int, e3, pi);
    assert(l * (x1i - e3) - y1i == -line_at(l, x1i, y1i, e3)) by (nonlinear_arith);
    lemma_eqv_mul(l, l, x1i - (x3 as int), x1i - e3, pi);
    lemma_eqv_sub(l * (x1i - (x3 as int)), l * (x1i - e3), y1i, y1i, pi);
    assert(-line_at(l, x1i, y1i, x3 as int) == l * (x1i - (x3 as int)) - y1i) by (nonlinear_arith);
    assert(eqv(y3 as int, -line_at(l, x1i, y1i, x3 as int), pi));
    // the gap minus (x - x1)(x - x2)(x - e3) is alpha * x + beta
    let sq = l * l;
    let alpha = chord_alpha(ai, l, sq, x1i, y1i, x2i);
    let beta = chord_beta(bi, l, sq, x1i, y1i, x2i);
    lemma_line_square(l, sq, x1i, y1i, x1i);
    lemma_line_square(l, sq, x1i, y1i, x2i);
    lemma_line_square(l, sq, x1i, y1i, e3);
    lemma_chord_at_x1(ai, bi, l, sq, x1i, y1i, x2i);
    lemma_chord_at_x2(ai, bi, l, sq, x1i, y1i, x2i);
    lemma_chord_at_x3(ai, bi, l, sq, x1i, y1i, x2i, e3);
    assert((x1i - x1i) * (x1i - x1i) == 0);
    assert(cubic_gap(ai, bi, l, x1i, y1i, x1i) == alpha * x1i + beta);
    assert(cubic_gap(ai, bi, l, x1i, y1i, x2i) == alpha * x2i + beta);
    assert(cubic_gap(ai, bi, l, x1i, y1i, e3) == alpha * e3 + beta);
    // the gap vanishes at x1 (P is on the curve) ...
    assert(eqv(cubic_gap(ai, bi, l, x1i, y1i, x1i), 0, pi)) by {
        assert(line_at(l, x1i, y1i, x1i) == y1i) by (nonlinear_arith);
        lemma_eqv_sub(x1i * x1i * x1i + ai * x1i + bi, y1i * y1i, y1i * y1i, y1i * y1i, pi);
        assert((x1 * x1 * x1 + a * x1 + b) as int == x1i * x1i * x1i + ai * x1i + bi);
    }
    // ... and at x2, where the line passes through y2 (Q is on the curve)
    assert(eqv(cubic_gap(ai, bi, l, x1i, y1i, x2i), 0, pi)) by {
        lemma_eqv_mul(l, l, v as int, x2i - x1i, pi);
        lemma_eqv_add(l * (x2i - x1i), (u as int), y1i, y1i, pi);
        lemma_eqv_add(u as int, y2i - y1i, y1i, y1i, pi);
        let h2 = line_at(l, x1i, y1i, x2i);
        assert(eqv(h2, y2i, pi));
        lemma_eqv_mul(h2, y2i, h2, y2i, pi);
        lemma_eqv_sub(x2i * x2i * x2i + ai * x2i + bi, y2i * y2i, h2 * h2, y2i * y2i, pi);
        assert((x2 * x2 * x2 + a * x2 + b) as int == x2i * x2i * x2i + ai * x2i + bi);
    }
    // so alpha * (x2 - x1) == 0, alpha == 0 (x2 - x1 is invertible), beta == 0
    lemma_eqv_sub(alpha * x2i + beta, 0, alpha * x1i + beta, 0, pi);
    assert(alpha * x2i + beta - (alpha * x1i + beta) == alpha * (x2i - x1i)) by (nonlinear_arith);
    let iv = inverse_of(v, p);
    assert(is_inverse(v, iv, p));
    lemma_small_mod(1, p);
    lemma_eqv_mul(alpha, alpha, v as int, x2i - x1i, pi);
    lemma_eqv_mul(alpha * (v as int), 0, iv as int, iv as int, pi);
    lemma_eqv_mul(alpha, alpha, (v as int) * (iv as int), 1, pi);
    assert(alpha * (v as int) * (iv as int) == alpha * ((v as int) * (iv as int))) by (nonlinear_arith);
    assert(eqv(alpha, 0, pi));
    lemma_eqv_mul(alpha, 0, x1i, x1i, pi);
    lemma_eqv_sub(alpha * x1i + beta, 0, alpha * x1i, 0, pi);
    assert(eqv(beta, 0, pi));
    lemma_eqv_mul(alpha, 0, e3, e3, pi);
    lemma_eqv_add(alpha * e3, 0, beta, 0, pi);
    // the gap vanishes at x3
    lemma_cubic_gap_eqv(ai, bi, l, x1i, y1i, x3 as int, e3, pi);
    lemma_gap_on_curve(p, a, b, l, x1i, y1i, x3, y3);
}


/// The sum of two points of the curve is a point of the curve: for points of
/// the curve with coordinates below `p` (the point at infinity as `(0, 0)`),
/// affine addition, and so `add_points`, is defined wherever the slope's
/// denominator is invertible (for a prime `p`: always), and gives again such a
/// point of the curve.
pub proof fn lemma_affine_add_defined(p: nat, a: nat, b: nat, pt: (nat, nat, bool), q: (nat, nat, bool))
    requires
        p > 8,
        is_reduced_affine(p, pt),
        is_reduced_affine(p, q),
        pt.2 || on_curve(p, a, b, pt.0, pt.1),
        q.2 || on_curve(p, a, b, q.0, q.1),
        (!pt.2 && !q.2 && !(pt.0 == q.0 && pt.1 != q.1) && !(pt == q && pt.1 == 0)) ==> invertible(
            slope_parts(p, a, pt, q).1,
            p,
        ),
    ensures
        affine_add_spec(p, a, b, pt, q) is Some,
        is_reduced_affine(p, affine_add_spec(p, a, b, pt, q).unwrap()),
        affine_add_spec(p, a, b, pt, q).unwrap().2 || on_curve(
            p,
            a,
            b,
            affine_add_spec(p, a, b, pt, q).unwrap().0,
            affine_add_spec(p, a, b, pt, q).unwrap().1,
        ),
{
    if !pt.2 && !q.2 && !(pt.0 == q.0 && pt.1 != q.1) && !(pt == q && pt.1 == 0) {
        if pt == q {
            lemma_double_on_curve(p, a, b, pt.0, pt.1);
        } else {
            assert(pt.0 != q.0);
            lemma_add_distinct_on_curve(p, a, b, pt.0, pt.1, q.0, q.1);
        }
    }
}


// ---------------------------------------------------------------------------
// On a prime field every operation on curve points is defined
// ---------------------------------------------------------------------------

/// Modulo a prime, the slope's denominator of two curve points that are not
/// each other's negatives is invertible.
proof fn lemma_slope_invertible(p: nat, a: nat, pt: (nat, nat, bool), q: (nat, nat, bool))
    requires
        is_prime(p),
        p > 8,
        is_reduced_affine(p, pt),
        is_reduced_affine(p, q),
        !pt.2 && !q.2,
        !(pt.0 == q.0 && pt.1 != q.1),
        !(pt == q && pt.1 == 0),
    ensures
        invertible(slope_parts(p, a, pt, q).1, p),
{
    let den = slope_parts(p, a, pt, q).1;
    lemma_mod_bound(den as int, p as int);
    if pt == q {
        lemma_small_mod(2, p);
        lemma_small_mod(pt.1, p);
        lemma_prime_product(2, pt.1, p);
        lemma_mod_twice((2 * pt.1) as int, p as int);
    } else {
        assert(pt.0 != q.0);
        let v = (q.0 + p - pt.0) as nat;
        if v < p {
            lemma_small_mod(v, p);
        } else {
            lemma_mod_add_multiples_vanish((v - p) as int, p as int);
            lemma_small_mod((v - p) as nat, p);
        }
        lemma_small_mod(den, p);
    }
    lemma_small_mod(den, p);
    lemma_prime_invertible(den, p);
}

/// On a prime field, adding two points of the curve (coordinates below `p`,
/// the point at infinity as `(0, 0)`) is always defined, so `add_points` never
/// panics on them, and the sum is again such a point of the curve.
pub proof fn lemma_affine_add_total(p: nat, a: nat, b: nat, pt: (nat, nat, bool), q: (nat, nat, bool))
    requires
        is_prime(p),
        p > 8,
        is_reduced_affine(p, pt),
        is_reduced_affine(p, q),
        pt.2 || on_curve(p, a, b, pt.0, pt.1),
        q.2 || on_curve(p, a, b, q.0, q.1),
    ensures
        affine_add_spec(p, a, b, pt, q) is Some,
        is_reduced_affine(p, affine_add_spec(p, a, b, pt, q).unwrap()),
        affine_add_spec(p, a, b, pt, q).unwrap().2 || on_curve(
            p,
            a,
            b,
            affine_add_spec(p, a, b, pt, q).unwrap().0,
            affine_add_spec(p, a, b, pt, q).unwrap().1,
        ),
{
    if !pt.2 && !q.2 && !(pt.0 == q.0 && pt.1 != q.1) && !(pt == q && pt.1 == 0) {
        lemma_slope_invertible(p, a, pt, q);
    }
    lemma_affine_add_defined(p, a, b, pt, q);
}

/// A reduced point of curve `M`: the point at infinity as `(0, 0)`, or a point
/// of the curve with coordinates below the modulus.
pub open spec fn is_reduced_curve_point<M: EllipticCurve>(pt: (nat, nat, bool)) -> bool {
    is_reduced_affine(M::spec_modulo(), pt) && is_curve_point::<M>(pt)
}

/// On a prime field, each step of double-and-add keeps both points reduced
/// points of the curve.
proof fn lemma_affine_mul_from_total<M: EllipticCurve>(
    result: (nat, nat, bool),
    add: (nat, nat, bool),
    k: nat,
    i: nat,
    n: nat,
)
    requires
        is_prime(M::spec_modulo()),
        M::spec_modulo() > 8,
        is_reduced_curve_point::<M>(result),
        is_reduced_curve_point::<M>(add),
    ensures
        affine_mul_from::<M>(result, add, k, i, n) is Some,
        is_reduced_curve_point::<M>(affine_mul_from::<M>(result, add, k, i, n).unwrap()),
    decreases n - i,
{
    let (p, a, b) = (M::spec_modulo(), M::spec_a(), M::spec_b());
    if i < n {
        lemma_affine_add_total(p, a, b, result, add);
        lemma_affine_add_total(p, a, b, add, add);
        let r1 = if bit_of(k, i) {
            affine_add_of::<M>(result, add).unwrap()
        } else {
            result
        };
        lemma_affine_mul_from_total::<M>(r1, affine_add_of::<M>(add, add).unwrap(), k, i + 1, n);
    }
}

/// On a prime field, `k * pt` by double-and-add (the `*` operator of affine
/// points) is defined for every reduced point of the curve and every `k`, so
/// it never panics, and gives again a reduced point of the curve.
pub proof fn lemma_affine_mul_total<M: EllipticCurve>(pt: (nat, nat, bool), k: nat)
    requires
        is_prime(M::spec_modulo()),
        is_reduced_curve_point::<M>(pt),
    ensures
        affine_mul_of::<M>(pt, k) is Some,
        is_reduced_curve_point::<M>(affine_mul_of::<M>(pt, k).unwrap()),
{
    M::lemma_curve_bounds();
    lemma_affine_mul_from_total::<M>(affine_infinity(), pt, k, 0, bit_len(k));
}

/// On a prime field, each rung of the affine ladder keeps both points reduced
/// points of the curve.
proof fn lemma_affine_ladder_from_total<M: EllipticCurve>(
    r0: (nat, nat, bool),
    r1: (nat, nat, bool),
    k: nat,
    i: nat,
)
    requires
        is_prime(M::spec_modulo()),
        M::spec_modulo() > 8,
        is_reduced_curve_point::<M>(r0),
        is_reduced_curve_point::<M>(r1),
    ensures
        affine_ladder_from::<M>(r0, r1, k, i) is Some,
        is_reduced_curve_point::<M>(affine_ladder_from::<M>(r0, r1, k, i).unwrap().0),
    decreases i,
{
    let (p, a, b) = (M::spec_modulo(), M::spec_a(), M::spec_b());
    if i > 0 {
        lemma_affine_add_total(p, a, b, r0, r1);
        lemma_affine_add_total(p, a, b, r0, r0);
        lemma_affine_add_total(p, a, b, r1, r1);
        if bit_of(k, (i - 1) as nat) {
            lemma_affine_ladder_from_total::<M>(
                affine_add_of::<M>(r0, r1).unwrap(),
                affine_add_of::<M>(r1, r1).unwrap(),
                k,
                (i - 1) as nat,
            );
        } else {
            lemma_affine_ladder_from_total::<M>(
                affine_add_of::<M>(r0, r0).unwrap(),
                affine_add_of::<M>(r0, r1).unwrap(),
                k,
                (i - 1) as nat,
            );
        }
    }
}

/// On a prime field, scalar multiplication in projective coordinates never
/// fails: for a projective point that stands for a point of the curve, `k * pt`
/// as `mul_scalar` computes it converts to affine coordinates (so converting it
/// never panics), and is the affine ladder's `k * pt`, a point of the curve.
pub proof fn lemma_proj_mul_total<M: EllipticCurve>(pt: (nat, nat, nat), k: nat)
    requires
        is_prime(M::spec_modulo()),
        is_reduced_proj(M::spec_modulo(), pt),
        proj_has_affine(M::spec_modulo(), pt),
        is_curve_point::<M>(proj_to_affine_spec(M::spec_modulo(), pt)),
    ensures
        is_reduced_proj(M::spec_modulo(), proj_mul_of::<M>(pt, k)),
        proj_has_affine(M::spec_modulo(), proj_mul_of::<M>(pt, k)),
        affine_ladder_mul_of::<M>(proj_to_affine_spec(M::spec_modulo(), pt), k) is Some,
        proj_to_affine_spec(M::spec_modulo(), proj_mul_of::<M>(pt, k)) == affine_ladder_mul_of::<M>(
            proj_to_affine_spec(M::spec_modulo(), pt),
            k,
        ).unwrap(),
        is_reduced_curve_point::<M>(
            proj_to_affine_spec(M::spec_modulo(), proj_mul_of::<M>(pt, k)),
        ),
{
    let p = M::spec_modulo();
    M::lemma_curve_bounds();
    lemma_mod_bound(0, p as int);
    let ap = proj_to_affine_spec(p, pt);
    assert(is_reduced_affine(p, ap));
    lemma_affine_ladder_from_total::<M>(affine_infinity(), ap, k, bit_len(k));
    lemma_proj_mul_agrees::<M>(pt, k);
}


/// On a prime field, projective addition and doubling keep points that stand
/// for points of the curve: the sum and the double convert to affine
/// coordinates, and stand for reduced points of the curve.
pub proof fn lemma_proj_ops_closed(p: nat, a: nat, b: nat, pt: (nat, nat, nat), q: (nat, nat, nat))
    requires
        is_prime(p),
        p > 8,
        is_reduced_proj(p, pt),
        is_reduced_proj(p, q),
        proj_has_affine(p, pt),
        proj_has_affine(p, q),
        ({
            let ap = proj_to_affine_spec(p, pt);
            ap.2 || on_curve(p, a, b, ap.0, ap.1)
        }),
        ({
            let aq = proj_to_affine_spec(p, q);
            aq.2 || on_curve(p, a, b, aq.0, aq.1)
        }),
    ensures
        is_reduced_proj(p, proj_add_spec(p, a, pt, q)),
        proj_has_affine(p, proj_add_spec(p, a, pt, q)),
        is_reduced_affine(p, proj_to_affine_spec(p, proj_add_spec(p, a, pt, q))),
        ({
            let s = proj_to_affine_spec(p, proj_add_spec(p, a, pt, q));
            s.2 || on_curve(p, a, b, s.0, s.1)
        }),
        is_reduced_proj(p, proj_double_spec(p, a, pt)),
        proj_has_affine(p, proj_double_spec(p, a, pt)),
        is_reduced_affine(p, proj_to_affine_spec(p, proj_double_spec(p, a, pt))),
        ({
            let s = proj_to_affine_spec(p, proj_double_spec(p, a, pt));
            s.2 || on_curve(p, a, b, s.0, s.1)
        }),
{
    let (ap, aq) = (proj_to_affine_spec(p, pt), proj_to_affine_spec(p, q));
    lemma_mod_bound(0, p as int);
    assert(is_reduced_affine(p, ap));
    assert(is_reduced_affine(p, aq));
    lemma_proj_ops_reduced(p, a, pt, q);
    lemma_affine_add_total(p, a, b, ap, aq);
    lemma_affine_add_total(p, a, b, ap, ap);
    lemma_proj_add_agrees(p, a, b, pt, q);
    lemma_proj_double_agrees(p, a, b, pt);
}

/// A projective point plus its negative `(X : p - Y : Z)` is the point at
/// infinity, on a prime field, for a point with invertible `Z`.
pub proof fn lemma_proj_add_negative(p: nat, a: nat, pt: (nat, nat, nat))
    requires
        is_prime(p),
        p > 8,
        is_reduced_proj(p, pt),
        invertible(pt.2, p),
    ensures
        proj_add_spec(p, a, pt, (pt.0, (p - pt.1) as nat % p, pt.2)) == proj_infinity(),
{
    let (x, y, z) = pt;
    let ny = (p - y) as nat % p;
    let q = (x, ny, z);
    lemma_zero_not_invertible(p);
    assert(z != 0);
    if y == 0 {
        lemma_mod_self_0(p as int);
        assert(q == pt);
        assert(proj_add_spec(p, a, pt, q) == proj_double_spec(p, a, pt));
    } else {
        lemma_small_mod((p - y) as nat, p);
        // U1 - U2 == (p - y) z - y z == -2 y z, which p does not divide
        let u1 = fmul(ny, z, p);
        let u2 = fmul(y, z, p);
        if u1 == u2 {
            let pi = p as int;
            lemma_fmul_eqv(ny, z, p);
            lemma_fmul_eqv(y, z, p);
            lemma_mul_is_commutative(ny as int, z as int);
            lemma_mul_is_commutative(y as int, z as int);
            assert(eqv(z as int * ny as int, z as int * y as int, pi));
            lemma_eqv_cancel(ny as int, y as int, z, p);
            // p - y == -y modulo p, so -y == y and p divides 2y
            lemma_mod_add_multiples_vanish(-(y as int), pi);
            lemma_small_mod(ny, p);
            assert(eqv(ny as int, -(y as int), pi));
            assert(eqv(-(y as int), y as int, pi));
            lemma_eqv_add(-(y as int), y as int, y as int, y as int, pi);
            lemma_small_mod(0, p);
            lemma_small_mod(2, p);
            lemma_small_mod(y, p);
            lemma_prime_product(2, y, p);
            assert(false);
        }
        assert(fmul(x, z, p) == fmul(x, z, p));
    }
}


/// All representatives of a projective point convert alike: on a prime field,
/// multiplying every coordinate of a point with nonzero `Z` by a nonzero `l`
/// gives a point that converts to the same affine point.
pub proof fn lemma_proj_to_affine_scaled(p: nat, pt: (nat, nat, nat), l: nat)
    requires
        is_prime(p),
        pt.2 % p != 0,
        l % p != 0,
    ensures
        ({
            let q = (fmul(pt.0, l, p), fmul(pt.1, l, p), fmul(pt.2, l, p));
            &&& proj_has_affine(p, q)
            &&& proj_has_affine(p, pt)
            &&& proj_to_affine_spec(p, q) == proj_to_affine_spec(p, pt)
        }),
{
    let pi = p as int;
    lemma_prime_invertible(pt.2, p);
    lemma_prime_invertible(l, p);
    lemma_zero_not_invertible(p);
    lemma_fmul_eqv(pt.0, l, p);
    lemma_fmul_eqv(pt.1, l, p);
    lemma_fmul_eqv(pt.2, l, p);
    lemma_mul_is_commutative(pt.0 as int, l as int);
    lemma_mul_is_commutative(pt.1 as int, l as int);
    lemma_mul_is_commutative(pt.2 as int, l as int);
    let q = (fmul(pt.0, l, p), fmul(pt.1, l, p), fmul(pt.2, l, p));
    lemma_scaled_to_affine(p, q, pt, l);
}

} // verus!
