//! Inverses modulo a prime: every number that the prime does not divide has
//! one, by Bezout's identity.
use crate::bignum::{invertible, is_inverse};
use vstd::arithmetic::div_mod::{
    lemma_fundamental_div_mod, lemma_mod_bound, lemma_mod_multiples_basic,
    lemma_mod_multiples_vanish, lemma_mul_mod_noop_left, lemma_mul_mod_noop_right,
    lemma_small_mod,
};
use vstd::prelude::*;

verus! {

/// Whether `p` is a prime: above 1, and no number strictly between 1 and `p`
/// divides it.
pub open spec fn is_prime(p: nat) -> bool {
    p > 1 && forall|d: nat| 1 < d < p ==> #[trigger] (p % d) != 0
}

/// Bezout's identity with witnesses: for `a` and `b` not both zero, a common
/// divisor `g > 0` of both (`a == g * ka`, `b == g * kb`) that is `s * a + t * b`.
proof fn lemma_bezout(a: nat, b: nat) -> (r: (int, int, nat, nat, nat))
    requires
        a > 0 || b > 0,
    ensures
        r.2 > 0,
        r.0 * a + r.1 * b == r.2,
        a == r.2 * r.3,
        b == r.2 * r.4,
    decreases b,
{
    if b == 0 {
        (1, 0, a, 1, 0)
    } else {
        let q = a / b;
        let rm = a % b;
        lemma_fundamental_div_mod(a as int, b as int);
        lemma_mod_bound(a as int, b as int);
        let (s1, t1, g, kb, kr) = lemma_bezout(b, rm);
        let s = t1;
        let t = s1 - t1 * q;
        assert(s * a + t * b == g) by (nonlinear_arith)
            requires
                a == b * q + rm,
                g == s1 * b + t1 * rm,
                s == t1,
                t == s1 - t1 * q,
        ;
        let ka: nat = kb * q + kr;
        assert(a == g * ka) by (nonlinear_arith)
            requires
                a == b * q + rm,
                b == g * kb,
                rm == g * kr,
                ka == kb * q + kr,
        ;
        (s, t, g, ka, kb)
    }
}

/// Modulo a prime `p`, every number that `p` does not divide is invertible.
pub proof fn lemma_prime_invertible(a: nat, p: nat)
    requires
        is_prime(p),
        a % p != 0,
    ensures
        invertible(a, p),
{
    let a1 = a % p;
    lemma_mod_bound(a as int, p as int);
    let (s, t, g, ka, kp) = lemma_bezout(a1, p);
    // g divides a1, which is below p, so g is below p and divides p: g == 1
    assert(g <= a1) by (nonlinear_arith)
        requires
            a1 == g * ka,
            a1 > 0,
            g > 0,
    ;
    if g > 1 {
        lemma_mod_multiples_basic(kp as int, g as int);
        assert(kp * g == p) by (nonlinear_arith)
            requires
                p == g * kp,
        ;
        assert(p % g == 0);
        assert(false);
    }
    assert(g == 1);
    // s * a1 == 1 - t * p, so (s mod p) is an inverse of a1, and of a
    let x = (s % (p as int)) as nat;
    lemma_mod_bound(s, p as int);
    lemma_mul_mod_noop_right(a1 as int, s, p as int);
    assert(a1 * s == (p as int) * (-t) + 1) by (nonlinear_arith)
        requires
            s * a1 + t * p == 1,
    ;
    lemma_mod_multiples_vanish(-t, 1, p as int);
    lemma_small_mod(1, p);
    lemma_mul_mod_noop_left(a as int, x as int, p as int);
    assert(is_inverse(a, x, p));
}

/// A product of two numbers that a prime does not divide is not divisible by
/// it either.
pub proof fn lemma_prime_product(a: nat, b: nat, p: nat)
    requires
        is_prime(p),
        a % p != 0,
        b % p != 0,
    ensures
        (a * b) % p != 0,
{
    lemma_prime_invertible(a, p);
    lemma_prime_invertible(b, p);
    let x = choose|x: nat| is_inverse(a, x, p);
    let y = choose|y: nat| is_inverse(b, y, p);
    lemma_small_mod(1, p);
    if (a * b) % p == 0 {
        // (a * b) * (x * y) == (a * x) * (b * y), which is 1 modulo p
        lemma_mul_mod_noop_left((a * b) as int, (x * y) as int, p as int);
        assert((a * b) * (x * y) == (a * x) * (b * y)) by (nonlinear_arith);
        lemma_mul_mod_noop_left((a * x) as int, (b * y) as int, p as int);
        lemma_mul_mod_noop_right(1, (b * y) as int, p as int);
        assert(false);
    }
}

} // verus!
