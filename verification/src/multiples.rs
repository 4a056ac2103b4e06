//! Multiples of a point as repeated sums: `k * pt` is `pt` added to itself `k`
//! times. Double-and-add, the Montgomery ladder on affine points, and the
//! ladder in projective coordinates all compute it, on a prime field where
//! addition of curve points is associative.
//!
//! Associativity of the chord-and-tangent addition is the group law of the
//! curve; it is taken here as a stated hypothesis ([`addition_associative`]),
//! and everything below is proved from it, from commutativity, from the
//! neutral element and from closure, which `consistency` proves.
use crate::affine::{
    affine_add_of, affine_infinity, affine_mul_from, affine_mul_of, is_curve_point,
};
use crate::bignum::{bit_len, bit_of};
use crate::consistency::{
    affine_ladder_from, affine_ladder_mul_of, is_reduced_affine, is_reduced_curve_point,
    is_reduced_proj, lemma_affine_add_commutative, lemma_affine_add_identity,
    lemma_affine_add_total, lemma_affine_proj_roundtrip, lemma_proj_mul_total,
};
use crate::modulus::EllipticCurve;
use crate::prime::is_prime;
use crate::projective::{affine_to_proj_spec, proj_has_affine, proj_mul_of, proj_to_affine_spec};
use vstd::arithmetic::div_mod::{
    lemma_basic_div, lemma_div_denominator, lemma_fundamental_div_mod, lemma_mod_breakdown,
    lemma_mod_bound, lemma_small_mod,
};
use vstd::arithmetic::power2::{lemma_pow2_pos, lemma_pow2_unfold, pow2};
use vstd::prelude::*;

verus! {

/// The affine sum `pt + q` on curve `M` (meaningful where it is defined).
pub open spec fn padd<M: EllipticCurve>(pt: (nat, nat, bool), q: (nat, nat, bool)) -> (
    nat,
    nat,
    bool,
) {
    affine_add_of::<M>(pt, q).unwrap()
}

/// `pt` added to itself `k` times: the point at infinity for `k == 0`, and
/// `(k - 1) * pt + pt` after that.
pub open spec fn repeated_sum<M: EllipticCurve>(pt: (nat, nat, bool), k: nat) -> (nat, nat, bool)
    decreases k,
{
    if k == 0 {
        affine_infinity()
    } else {
        padd::<M>(repeated_sum::<M>(pt, (k - 1) as nat), pt)
    }
}

/// The group law's associativity for curve `M`: for any three reduced points of
/// the curve, `(a + b) + c == a + (b + c)`.
#[verifier::opaque]
pub open spec fn addition_associative<M: EllipticCurve>() -> bool {
    forall|a: (nat, nat, bool), b: (nat, nat, bool), c: (nat, nat, bool)|
        is_reduced_curve_point::<M>(a) && is_reduced_curve_point::<M>(b)
            && is_reduced_curve_point::<M>(c) ==> #[trigger] padd::<M>(padd::<M>(a, b), c)
            == padd::<M>(a, padd::<M>(b, c))
}

/// The hypotheses the laws below rest on: a prime modulus, and associative
/// addition of curve points.
pub open spec fn group_law<M: EllipticCurve>() -> bool {
    is_prime(M::spec_modulo()) && addition_associative::<M>()
}

proof fn lemma_assoc<M: EllipticCurve>(a: (nat, nat, bool), b: (nat, nat, bool), c: (nat, nat, bool))
    requires
        addition_associative::<M>(),
        is_reduced_curve_point::<M>(a),
        is_reduced_curve_point::<M>(b),
        is_reduced_curve_point::<M>(c),
    ensures
        padd::<M>(padd::<M>(a, b), c) == padd::<M>(a, padd::<M>(b, c)),
{
    reveal(addition_associative);
    assert(padd::<M>(padd::<M>(a, b), c) == padd::<M>(a, padd::<M>(b, c)));
}

/// On a prime field the sum of two reduced curve points is defined and again
/// one.
proof fn lemma_padd_closed<M: EllipticCurve>(a: (nat, nat, bool), b: (nat, nat, bool))
    requires
        is_prime(M::spec_modulo()),
        is_reduced_curve_point::<M>(a),
        is_reduced_curve_point::<M>(b),
    ensures
        affine_add_of::<M>(a, b) is Some,
        is_reduced_curve_point::<M>(padd::<M>(a, b)),
        padd::<M>(a, b) == padd::<M>(b, a),
        padd::<M>(a, affine_infinity()) == a,
        padd::<M>(affine_infinity(), a) == a,
{
    M::lemma_curve_bounds();
    lemma_affine_add_total(M::spec_modulo(), M::spec_a(), M::spec_b(), a, b);
    lemma_affine_add_commutative(M::spec_modulo(), M::spec_a(), M::spec_b(), a, b);
    lemma_affine_add_identity(M::spec_modulo(), M::spec_a(), M::spec_b(), a);
}

/// Every repeated sum of a reduced curve point is one, on a prime field.
pub proof fn lemma_repeated_sum_closed<M: EllipticCurve>(pt: (nat, nat, bool), k: nat)
    requires
        is_prime(M::spec_modulo()),
        is_reduced_curve_point::<M>(pt),
    ensures
        is_reduced_curve_point::<M>(repeated_sum::<M>(pt, k)),
    decreases k,
{
    M::lemma_curve_bounds();
    if k == 0 {
        lemma_small_mod(0, M::spec_modulo());
    } else {
        lemma_repeated_sum_closed::<M>(pt, (k - 1) as nat);
        lemma_padd_closed::<M>(repeated_sum::<M>(pt, (k - 1) as nat), pt);
    }
}

/// `(m + n) * pt == m * pt + n * pt`.
pub proof fn lemma_repeated_sum_add<M: EllipticCurve>(pt: (nat, nat, bool), m: nat, n: nat)
    requires
        group_law::<M>(),
        is_reduced_curve_point::<M>(pt),
    ensures
        repeated_sum::<M>(pt, m + n) == padd::<M>(
            repeated_sum::<M>(pt, m),
            repeated_sum::<M>(pt, n),
        ),
    decreases n,
{
    lemma_repeated_sum_closed::<M>(pt, m);
    if n == 0 {
        lemma_padd_closed::<M>(repeated_sum::<M>(pt, m), repeated_sum::<M>(pt, m));
    } else {
        let n1 = (n - 1) as nat;
        lemma_repeated_sum_add::<M>(pt, m, n1);
        lemma_repeated_sum_closed::<M>(pt, n1);
        assert(repeated_sum::<M>(pt, m + n) == padd::<M>(repeated_sum::<M>(pt, m + n1), pt));
        lemma_assoc::<M>(repeated_sum::<M>(pt, m), repeated_sum::<M>(pt, n1), pt);
    }
}

/// `n * (m * pt) == (m * n) * pt`.
pub proof fn lemma_repeated_sum_mul<M: EllipticCurve>(pt: (nat, nat, bool), m: nat, n: nat)
    requires
        group_law::<M>(),
        is_reduced_curve_point::<M>(pt),
    ensures
        repeated_sum::<M>(repeated_sum::<M>(pt, m), n) == repeated_sum::<M>(pt, m * n),
    decreases n,
{
    if n > 0 {
        let n1 = (n - 1) as nat;
        lemma_repeated_sum_mul::<M>(pt, m, n1);
        assert(m * n == m * n1 + m) by (nonlinear_arith)
            requires
                n1 == n - 1,
        ;
        lemma_repeated_sum_add::<M>(pt, m * n1, m);
    } else {
        assert(m * n == 0) by (nonlinear_arith)
            requires
                n == 0,
        ;
    }
}

/// Every multiple of the point at infinity is the point at infinity.
proof fn lemma_repeated_sum_infinity<M: EllipticCurve>(k: nat)
    requires
        is_prime(M::spec_modulo()),
    ensures
        repeated_sum::<M>(affine_infinity(), k) == affine_infinity(),
    decreases k,
{
    M::lemma_curve_bounds();
    lemma_small_mod(0, M::spec_modulo());
    if k > 0 {
        lemma_repeated_sum_infinity::<M>((k - 1) as nat);
        lemma_padd_closed::<M>(affine_infinity(), affine_infinity());
    }
}

/// Where `n * pt` is the point at infinity, multiples of `pt` depend on the
/// scalar modulo `n` only.
pub proof fn lemma_repeated_sum_mod<M: EllipticCurve>(pt: (nat, nat, bool), x: nat, n: nat)
    requires
        group_law::<M>(),
        is_reduced_curve_point::<M>(pt),
        n > 0,
        repeated_sum::<M>(pt, n) == affine_infinity(),
    ensures
        repeated_sum::<M>(pt, x) == repeated_sum::<M>(pt, x % n),
{
    let q = x / n;
    let r = x % n;
    lemma_fundamental_div_mod(x as int, n as int);
    lemma_mod_bound(x as int, n as int);
    assert(x == n * q + r);
    lemma_repeated_sum_add::<M>(pt, n * q, r);
    lemma_repeated_sum_mul::<M>(pt, n, q);
    lemma_repeated_sum_infinity::<M>(q);
    lemma_repeated_sum_closed::<M>(pt, r);
    lemma_padd_closed::<M>(repeated_sum::<M>(pt, r), repeated_sum::<M>(pt, r));
}


/// `1 * pt == pt`.
proof fn lemma_repeated_sum_one<M: EllipticCurve>(pt: (nat, nat, bool))
    requires
        is_prime(M::spec_modulo()),
        is_reduced_curve_point::<M>(pt),
    ensures
        repeated_sum::<M>(pt, 1) == pt,
{
    assert(repeated_sum::<M>(pt, 0) == affine_infinity());
    assert(repeated_sum::<M>(pt, 1) == padd::<M>(repeated_sum::<M>(pt, 0), pt));
    lemma_padd_closed::<M>(pt, pt);
}

/// The three sums a rung of the ladder forms from `(j * pt, (j + 1) * pt)`.
proof fn lemma_ladder_sums<M: EllipticCurve>(pt: (nat, nat, bool), j: nat)
    requires
        group_law::<M>(),
        is_reduced_curve_point::<M>(pt),
    ensures
        affine_add_of::<M>(repeated_sum::<M>(pt, j), repeated_sum::<M>(pt, j + 1)) is Some,
        affine_add_of::<M>(repeated_sum::<M>(pt, j), repeated_sum::<M>(pt, j)) is Some,
        affine_add_of::<M>(repeated_sum::<M>(pt, j + 1), repeated_sum::<M>(pt, j + 1)) is Some,
        padd::<M>(repeated_sum::<M>(pt, j), repeated_sum::<M>(pt, j + 1)) == repeated_sum::<M>(
            pt,
            j + j + 1,
        ),
        padd::<M>(repeated_sum::<M>(pt, j), repeated_sum::<M>(pt, j)) == repeated_sum::<M>(
            pt,
            j + j,
        ),
        padd::<M>(repeated_sum::<M>(pt, j + 1), repeated_sum::<M>(pt, j + 1))
            == repeated_sum::<M>(pt, j + j + 2),
{
    let r0 = repeated_sum::<M>(pt, j);
    let r1 = repeated_sum::<M>(pt, j + 1);
    lemma_repeated_sum_closed::<M>(pt, j);
    lemma_repeated_sum_closed::<M>(pt, j + 1);
    lemma_padd_closed::<M>(r0, r1);
    lemma_padd_closed::<M>(r0, r0);
    lemma_padd_closed::<M>(r1, r1);
    lemma_repeated_sum_add::<M>(pt, j, j + 1);
    lemma_repeated_sum_add::<M>(pt, j, j);
    lemma_repeated_sum_add::<M>(pt, j + 1, j + 1);
}

/// `k / 2^(i-1)` is twice `k / 2^i`, plus bit `i - 1` of `k`.
proof fn lemma_halving(k: nat, i: nat)
    requires
        i > 0,
    ensures
        k / pow2((i - 1) as nat) == 2 * (k / pow2(i)) + (if bit_of(k, (i - 1) as nat) {
            1int
        } else {
            0int
        }),
{
    let i1 = (i - 1) as nat;
    let j1 = k / pow2(i1);
    lemma_pow2_pos(i1);
    lemma_pow2_unfold(i);
    lemma_div_denominator(k as int, pow2(i1) as int, 2);
    assert(pow2(i) == pow2(i1) * 2);
    assert(j1 / 2 == k / pow2(i));
    lemma_fundamental_div_mod(j1 as int, 2);
    lemma_mod_bound(j1 as int, 2);
}

/// One rung of the affine ladder, given the sums it forms.
proof fn lemma_ladder_unfold<M: EllipticCurve>(
    r0: (nat, nat, bool),
    r1: (nat, nat, bool),
    s0: (nat, nat, bool),
    s1: (nat, nat, bool),
    k: nat,
    i: nat,
)
    requires
        i > 0,
        bit_of(k, (i - 1) as nat) ==> affine_add_of::<M>(r0, r1) == Some(s0)
            && affine_add_of::<M>(r1, r1) == Some(s1),
        !bit_of(k, (i - 1) as nat) ==> affine_add_of::<M>(r0, r0) == Some(s0)
            && affine_add_of::<M>(r0, r1) == Some(s1),
    ensures
        affine_ladder_from::<M>(r0, r1, k, i) == affine_ladder_from::<M>(s0, s1, k, (i - 1) as nat),
{
}

/// Double-and-add past its last bit returns the running result.
proof fn lemma_mul_from_done<M: EllipticCurve>(
    res: (nat, nat, bool),
    add: (nat, nat, bool),
    k: nat,
    n: nat,
)
    ensures
        affine_mul_from::<M>(res, add, k, n, n) == Some(res),
{
    reveal_with_fuel(affine_mul_from, 1);
}

/// One step of double-and-add, given the sums it forms.
proof fn lemma_mul_from_unfold<M: EllipticCurve>(
    res: (nat, nat, bool),
    add: (nat, nat, bool),
    res1: (nat, nat, bool),
    add1: (nat, nat, bool),
    k: nat,
    i: nat,
    n: nat,
)
    requires
        i < n,
        bit_of(k, i) ==> affine_add_of::<M>(res, add) == Some(res1),
        !bit_of(k, i) ==> res1 == res,
        affine_add_of::<M>(add, add) == Some(add1),
    ensures
        affine_mul_from::<M>(res, add, k, i, n) == affine_mul_from::<M>(res1, add1, k, i + 1, n),
{
}

/// A number is below 2 to the power of its bit length.
proof fn lemma_bit_len_bound(k: nat)
    ensures
        k < pow2(bit_len(k)),
    decreases k,
{
    if k == 0 {
        lemma_pow2_pos(0);
    } else {
        lemma_bit_len_bound(k / 2);
        lemma_pow2_unfold(bit_len(k));
    }
}

/// Double-and-add from bit `i`, with the running result `(k mod 2^i) * pt` and
/// the addend `2^i * pt`, ends in `(k mod 2^n) * pt`.
proof fn lemma_mul_from_repeated_sum<M: EllipticCurve>(
    pt: (nat, nat, bool),
    k: nat,
    i: nat,
    n: nat,
)
    requires
        group_law::<M>(),
        is_reduced_curve_point::<M>(pt),
        i <= n,
    ensures
        affine_mul_from::<M>(
            repeated_sum::<M>(pt, k % pow2(i)),
            repeated_sum::<M>(pt, pow2(i)),
            k,
            i,
            n,
        ) == Some(repeated_sum::<M>(pt, k % pow2(n))),
    decreases n - i,
{
    if i < n {
        let e = pow2(i);
        lemma_pow2_pos(i);
        lemma_pow2_unfold(i + 1);
        let low = k % e;
        lemma_mod_breakdown(k as int, e as int, 2);
        assert(k % pow2(i + 1) == e * ((k / e) % 2) + low);
        let res = repeated_sum::<M>(pt, low);
        let add = repeated_sum::<M>(pt, e);
        lemma_repeated_sum_closed::<M>(pt, low);
        lemma_repeated_sum_closed::<M>(pt, e);
        lemma_padd_closed::<M>(res, add);
        lemma_padd_closed::<M>(add, add);
        lemma_repeated_sum_add::<M>(pt, e, e);
        assert(pow2(i + 1) == e + e);
        lemma_mod_bound((k / e) as int, 2);
        let t = (k / e) % 2;
        if bit_of(k, i) {
            assert(t == 1);
            assert(e * t == e) by (nonlinear_arith)
                requires
                    t == 1,
            ;
            lemma_repeated_sum_add::<M>(pt, low, e);
            assert(k % pow2(i + 1) == low + e);
        } else {
            assert(t == 0);
            assert(e * t == 0) by (nonlinear_arith)
                requires
                    t == 0,
            ;
            assert(k % pow2(i + 1) == low);
        }
        lemma_mul_from_unfold::<M>(
            res,
            add,
            repeated_sum::<M>(pt, k % pow2(i + 1)),
            repeated_sum::<M>(pt, pow2(i + 1)),
            k,
            i,
            n,
        );
        lemma_mul_from_repeated_sum::<M>(pt, k, i + 1, n);
        assert(affine_mul_from::<M>(res, add, k, i, n) == Some(repeated_sum::<M>(pt, k % pow2(n))));
    } else {
        let res = repeated_sum::<M>(pt, k % pow2(i));
        let add = repeated_sum::<M>(pt, pow2(i));
        lemma_mul_from_done::<M>(res, add, k, n);
    }
}

/// Scalar multiplication by double-and-add (the `*` operator of affine points)
/// is repeated addition: on a prime field with associative addition, for a
/// reduced point of the curve, `k * pt` is `pt` added to itself `k` times.
pub proof fn lemma_affine_mul_is_repeated_sum<M: EllipticCurve>(pt: (nat, nat, bool), k: nat)
    requires
        group_law::<M>(),
        is_reduced_curve_point::<M>(pt),
    ensures
        affine_mul_of::<M>(pt, k) == Some(repeated_sum::<M>(pt, k)),
{
    M::lemma_curve_bounds();
    lemma_pow2_pos(0);
    vstd::arithmetic::power2::lemma2_to64();
    assert(k % pow2(0) == 0);
    lemma_repeated_sum_one::<M>(pt);
    lemma_mul_from_repeated_sum::<M>(pt, k, 0, bit_len(k));
    lemma_bit_len_bound(k);
    lemma_small_mod(k, pow2(bit_len(k)));
}

/// The affine ladder from bit `i`, with the pair `(j * pt, (j + 1) * pt)` for
/// `j = k / 2^i`, ends in `(k * pt, (k + 1) * pt)`.
proof fn lemma_ladder_from_repeated_sum<M: EllipticCurve>(pt: (nat, nat, bool), k: nat, i: nat)
    requires
        group_law::<M>(),
        is_reduced_curve_point::<M>(pt),
    ensures
        affine_ladder_from::<M>(
            repeated_sum::<M>(pt, k / pow2(i)),
            repeated_sum::<M>(pt, k / pow2(i) + 1),
            k,
            i,
        ) == Some((repeated_sum::<M>(pt, k), repeated_sum::<M>(pt, k + 1))),
    decreases i,
{
    if i == 0 {
        vstd::arithmetic::power2::lemma2_to64();
        vstd::arithmetic::div_mod::lemma_div_basics(k as int);
        assert(k / pow2(0) == k);
    } else {
        let i1 = (i - 1) as nat;
        let j = k / pow2(i);
        let j1 = k / pow2(i1);
        let r0 = repeated_sum::<M>(pt, j);
        let r1 = repeated_sum::<M>(pt, j + 1);
        lemma_halving(k, i);
        lemma_ladder_sums::<M>(pt, j);
        if bit_of(k, i1) {
            assert(j1 == j + j + 1);
        } else {
            assert(j1 == j + j);
        }
        lemma_ladder_unfold::<M>(r0, r1, repeated_sum::<M>(pt, j1), repeated_sum::<M>(pt, j1 + 1), k, i);
        lemma_ladder_from_repeated_sum::<M>(pt, k, i1);
    }
}

/// The Montgomery ladder on affine points computes repeated addition: on a
/// prime field with associative addition, for a reduced point of the curve,
/// the ladder's `k * pt` is `pt` added to itself `k` times.
pub proof fn lemma_affine_ladder_is_repeated_sum<M: EllipticCurve>(pt: (nat, nat, bool), k: nat)
    requires
        group_law::<M>(),
        is_reduced_curve_point::<M>(pt),
    ensures
        affine_ladder_mul_of::<M>(pt, k) == Some(repeated_sum::<M>(pt, k)),
{
    M::lemma_curve_bounds();
    lemma_bit_len_bound(k);
    lemma_basic_div(k as int, pow2(bit_len(k)) as int);
    lemma_repeated_sum_one::<M>(pt);
    lemma_ladder_from_repeated_sum::<M>(pt, k, bit_len(k));
}

/// Scalar multiplication in projective coordinates is repeated addition: on a
/// prime field with associative addition, for a projective point that stands
/// for a point of the curve, `k * pt` as `mul_scalar` computes it converts to
/// affine coordinates, and is the affine point added to itself `k` times.
pub proof fn lemma_proj_mul_is_repeated_sum<M: EllipticCurve>(pt: (nat, nat, nat), k: nat)
    requires
        group_law::<M>(),
        is_reduced_proj(M::spec_modulo(), pt),
        proj_has_affine(M::spec_modulo(), pt),
        is_curve_point::<M>(proj_to_affine_spec(M::spec_modulo(), pt)),
    ensures
        is_reduced_proj(M::spec_modulo(), proj_mul_of::<M>(pt, k)),
        proj_has_affine(M::spec_modulo(), proj_mul_of::<M>(pt, k)),
        proj_to_affine_spec(M::spec_modulo(), proj_mul_of::<M>(pt, k)) == repeated_sum::<M>(
            proj_to_affine_spec(M::spec_modulo(), pt),
            k,
        ),
{
    let p = M::spec_modulo();
    lemma_proj_mul_total::<M>(pt, k);
    lemma_mod_bound(0, p as int);
    let ap = proj_to_affine_spec(p, pt);
    assert(is_reduced_affine(p, ap));
    lemma_affine_ladder_is_repeated_sum::<M>(ap, k);
}

/// Projective and affine scalar multiplication agree: on a prime field with
/// associative addition, for a reduced point of the curve, converting it to
/// projective coordinates, multiplying by `k` with the ladder and converting
/// back gives what double-and-add gives on the affine point.
pub proof fn lemma_proj_mul_matches_affine_mul<M: EllipticCurve>(pt: (nat, nat, bool), k: nat)
    requires
        group_law::<M>(),
        is_reduced_curve_point::<M>(pt),
    ensures
        proj_has_affine(M::spec_modulo(), proj_mul_of::<M>(affine_to_proj_spec(pt), k)),
        affine_mul_of::<M>(pt, k) is Some,
        proj_to_affine_spec(M::spec_modulo(), proj_mul_of::<M>(affine_to_proj_spec(pt), k))
            == affine_mul_of::<M>(pt, k).unwrap(),
{
    let p = M::spec_modulo();
    M::lemma_curve_bounds();
    lemma_affine_proj_roundtrip(p, pt);
    lemma_small_mod(1, p);
    lemma_proj_mul_is_repeated_sum::<M>(affine_to_proj_spec(pt), k);
    lemma_affine_mul_is_repeated_sum::<M>(pt, k);
}

} // verus!
