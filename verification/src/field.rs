//! Elements of the ring of integers modulo `M::get_modulo()`.
use crate::bignum::{
    big_add, big_eq, big_from_decimal, big_to_decimal, decimal_string, big_from_hex, big_modinv, big_modpow, big_mul,
    big_random_below, big_rem, big_sub, big_to_hex, char_digit_value, digits_are_zero,
    digits_from_u64, hex_char, hex_string, inverse_of, invertible, is_inverse, is_radix_digit,
    nat_of, parse_radix, radix_chars_ok, radix_digits_value, strip_one_plus,
};
use crate::modulus::Modulus;
use core::marker::PhantomData;
use num_bigint::ParseBigIntError;
use rand::rngs::StdRng;
use vstd::arithmetic::div_mod::{
    lemma_add_mod_noop, lemma_mod_add_multiples_vanish, lemma_mod_self_0, lemma_mod_twice,
    lemma_mul_mod_noop_left, lemma_mul_mod_noop_right, lemma_small_mod,
};
use vstd::arithmetic::mul::{lemma_mul_is_associative, lemma_mul_is_commutative};
use vstd::arithmetic::power::pow;
use vstd::prelude::*;

verus! {

/// An element of the integers modulo `M`'s modulus.
///
/// The operations all return a reduced element (below the modulus); `number`
/// is public, so an element built or changed by hand may exceed it, and the
/// contracts below hold for such elements too.
#[derive(Debug)]
pub struct Field<M: Modulus> {
    /// The number, as little-endian base-2^32 digits.
    pub number: Vec<u32>,
    pub modulo: PhantomData<M>,
}

impl<M: Modulus> View for Field<M> {
    type V = nat;

    /// The number an element holds.
    open spec fn view(&self) -> nat {
        nat_of(self.number@)
    }
}

/// `(a + b) mod p`.
pub open spec fn fadd(a: nat, b: nat, p: nat) -> nat {
    (a + b) % p
}

/// `(a + p - b) mod p`, for `b <= a + p`.
pub open spec fn fsub(a: nat, b: nat, p: nat) -> nat {
    (a + p - b) as nat % p
}

/// `(a * b) mod p`.
pub open spec fn fmul(a: nat, b: nat, p: nat) -> nat {
    (a * b) % p
}

/// `(a * b^-1) mod p`, for an invertible `b`.
pub open spec fn fdiv(a: nat, b: nat, p: nat) -> nat {
    (a * inverse_of(b, p)) % p
}

/// `0x` and then `0X` prefixes, as many as there are, taken off.
pub open spec fn trim_hex_prefix(s: Seq<char>) -> Seq<char> {
    trim_repeated(trim_repeated(s, 'x'), 'X')
}

/// Every leading `"0" + c` taken off.
pub open spec fn trim_repeated(s: Seq<char>, c: char) -> Seq<char>
    decreases s.len(),
{
    if s.len() >= 2 && s[0] == '0' && s[1] == c {
        trim_repeated(s.subrange(2, s.len() as int), c)
    } else {
        s
    }
}

/// The inverse modulo `m` is unique.
pub proof fn lemma_inverse_unique(a: nat, x: nat, y: nat, m: nat)
    requires
        m > 1,
        is_inverse(a, x, m),
        is_inverse(a, y, m),
    ensures
        x == y,
{
    let (ai, xi, yi, mi) = (a as int, x as int, y as int, m as int);
    lemma_small_mod(1, m);
    lemma_small_mod(x, m);
    lemma_small_mod(y, m);
    // x = x * ((a * y) % m) % m = (x * (a * y)) % m
    lemma_mul_mod_noop_right(xi, ai * yi, mi);
    // (x * (a * y)) = ((a * x) * y)
    lemma_mul_is_associative(xi, ai, yi);
    lemma_mul_is_commutative(xi, ai);
    // ((a * x) * y) % m = (((a * x) % m) * y) % m = y
    lemma_mul_mod_noop_left(ai * xi, yi, mi);
    assert(xi * (ai * yi) == (ai * xi) * yi);
}

/// Where an inverse modulo `m > 1` exists, [`inverse_of`] is one, and the only one.
pub proof fn lemma_inverse_of(a: nat, x: nat, m: nat)
    requires
        m > 1,
        is_inverse(a, x, m),
    ensures
        invertible(a, m),
        is_inverse(a, inverse_of(a, m), m),
        inverse_of(a, m) == x,
{
    assert(invertible(a, m));
    lemma_inverse_unique(a, x, inverse_of(a, m), m);
}


// ---------------------------------------------------------------------------
// Laws of the field operations
// ---------------------------------------------------------------------------

/// Subtracting and then adding back the same element gives the reduced start:
/// `(a - b) + b == a`.
pub proof fn lemma_sub_then_add(a: nat, b: nat, p: nat)
    requires
        p > 1,
        a < p,
        b < p,
    ensures
        fadd(fsub(a, b, p), b, p) == a,
{
    let s = (a + p - b) as nat;
    lemma_add_mod_noop(s as int, b as int, p as int);
    lemma_small_mod(b, p);
    lemma_mod_add_multiples_vanish(a as int, p as int);
    lemma_small_mod(a, p);
}

/// Adding and then subtracting the same element gives the reduced start:
/// `(a + b) - b == a`.
pub proof fn lemma_add_then_sub(a: nat, b: nat, p: nat)
    requires
        p > 1,
        a < p,
        b < p,
    ensures
        fsub(fadd(a, b, p), b, p) == a,
{
    lemma_small_mod(a, p);
    if a + b < p {
        lemma_small_mod(a + b, p);
        lemma_mod_add_multiples_vanish(a as int, p as int);
    } else {
        let d = (a + b - p) as nat;
        lemma_small_mod(d, p);
        lemma_mod_add_multiples_vanish(d as int, p as int);
        assert((a + b) % p == d);
        assert((d + p - b) as nat == a);
    }
}

/// An element plus its additive inverse is zero: `a + (p - a) == 0`.
pub proof fn lemma_add_inv_additive(a: nat, p: nat)
    requires
        p > 1,
        a <= p,
    ensures
        fadd(a, (p - a) as nat % p, p) == 0,
{
    lemma_mod_self_0(p as int);
    lemma_small_mod(0, p);
    if a == 0 {
        assert((p - a) as nat % p == 0);
    } else if a == p {
        assert((p - a) as nat % p == 0);
    } else {
        lemma_small_mod((p - a) as nat, p);
        assert(a + (p - a) as nat == p);
    }
}

/// An element times its inverse is one.
pub proof fn lemma_mul_inverse(a: nat, p: nat)
    requires
        p > 1,
        invertible(a, p),
    ensures
        fmul(a, inverse_of(a, p), p) == 1,
{
    lemma_small_mod(1, p);
}

/// Dividing and then multiplying back by the same invertible element gives
/// the reduced start: `(a / b) * b == a`.
pub proof fn lemma_div_then_mul(a: nat, b: nat, p: nat)
    requires
        p > 1,
        a < p,
        invertible(b, p),
    ensures
        fmul(fdiv(a, b, p), b, p) == a,
{
    let x = inverse_of(b, p);
    let (ai, bi, pi, xi) = (a as int, b as int, p as int, x as int);
    assert(is_inverse(b, x, p));
    lemma_small_mod(1, p);
    lemma_small_mod(a, p);
    assert(((ai * xi) % pi * bi) % pi == (ai * xi * bi) % pi) by {
        lemma_mul_mod_noop_left(ai * xi, bi, pi);
    }
    assert(ai * xi * bi == ai * (bi * xi)) by {
        lemma_mul_is_associative(ai, xi, bi);
        lemma_mul_is_commutative(xi, bi);
    }
    assert((ai * ((bi * xi) % pi)) % pi == (ai * (bi * xi)) % pi) by {
        lemma_mul_mod_noop_right(ai, bi * xi, pi);
    }
    assert((bi * xi) % pi == 1);
}

/// Hexadecimal text of a number reads back as that number: what `to_hex`
/// writes, `from_hex` parses to the same element.
pub proof fn lemma_hex_roundtrip(v: nat)
    ensures
        parse_radix(trim_hex_prefix(hex_string(v)), 16) == Some(v),
{
    lemma_hex_string_digits(v);
    let s = hex_string(v);
    if s.len() >= 2 {
        assert(is_radix_digit(s[1], 16));
    }
    assert(is_radix_digit(s[0], 16));
    assert(trim_repeated(s, 'x') == s);
    assert(trim_repeated(s, 'X') == s);
    assert(strip_one_plus(s) == s);
}

/// A hexadecimal digit character reads back as its value.
proof fn lemma_hex_char(d: nat)
    requires
        d < 16,
    ensures
        char_digit_value(hex_char(d)) == Some(d),
        is_radix_digit(hex_char(d), 16),
        hex_char(d) != 'x' && hex_char(d) != 'X' && hex_char(d) != '+' && hex_char(d) != '_',
{
}

/// The text of `hex_string(v)`: non-empty, made of `0-9a-f`, and worth `v`.
proof fn lemma_hex_string_digits(v: nat)
    ensures
        hex_string(v).len() > 0,
        forall|i: int|
            0 <= i < hex_string(v).len() ==> #[trigger] is_radix_digit(hex_string(v)[i], 16)
                && hex_string(v)[i] != 'x' && hex_string(v)[i] != 'X' && hex_string(v)[i] != '+'
                && hex_string(v)[i] != '_',
        radix_chars_ok(hex_string(v), 16),
        radix_digits_value(hex_string(v), 16) == v,
    decreases v,
{
    lemma_hex_char(v % 16);
    if v < 16 {
        let s = hex_string(v);
        assert(s.drop_last().len() == 0);
        assert(s.last() == hex_char(v));
        assert(radix_digits_value(s.drop_last(), 16) == 0);
        assert(radix_digits_value(s, 16) == radix_digits_value(s.drop_last(), 16) * 16 + v);
    } else {
        lemma_hex_string_digits(v / 16);
        let s = hex_string(v);
        let prev = hex_string(v / 16);
        assert(s.drop_last() =~= prev);
        assert(s.last() == hex_char(v % 16));
        assert(radix_digits_value(s, 16) == radix_digits_value(prev, 16) * 16 + v % 16);
        assert(v == (v / 16) * 16 + v % 16);
        assert forall|i: int| 0 <= i < s.len() implies #[trigger] is_radix_digit(s[i], 16)
            && s[i] != 'x' && s[i] != 'X' && s[i] != '+' && s[i] != '_' by {
            if i < prev.len() {
                assert(s[i] == prev[i]);
            }
        }
    }
}

impl<M: Modulus> Field<M> {
    /// The element `number mod p`.
    pub fn new(number: Vec<u32>) -> (r: Self)
        ensures
            r@ == nat_of(number@) % M::spec_modulo(),
    {
        proof {
            M::lemma_modulo_gt_one();
        }
        Field { number: big_rem(&number, &M::get_modulo()), modulo: PhantomData }
    }

    /// `self ^ power mod p`.
    pub fn pow_field(&self, power: &Self) -> (r: Self)
        ensures
            r@ == pow(self@ as int, power@) % (M::spec_modulo() as int),
    {
        proof {
            M::lemma_modulo_gt_one();
        }
        Field { number: big_modpow(&self.number, &power.number, &M::get_modulo()), modulo: PhantomData }
    }

    /// `self ^ power mod p`, for a machine-word exponent.
    pub fn pow(&self, power: u64) -> (r: Self)
        ensures
            r@ == pow(self@ as int, power as nat) % (M::spec_modulo() as int),
    {
        proof {
            M::lemma_modulo_gt_one();
        }
        let e = digits_from_u64(power);
        let x = big_modpow(&self.number, &e, &M::get_modulo());
        let r = Self::new(x);
        proof {
            let v = pow(self@ as int, power as nat) % (M::spec_modulo() as int);
            lemma_small_mod(v as nat, M::spec_modulo());
        }
        r
    }

    /// A random element, drawn below the modulus.
    pub fn get_random(rng: &mut StdRng) -> (r: Self)
        ensures
            r@ < M::spec_modulo(),
    {
        proof {
            M::lemma_modulo_gt_one();
        }
        Self::new(big_random_below(rng, &M::get_modulo()))
    }

    /// The multiplicative inverse, where there is one.
    pub fn inv(&self) -> (r: Option<Self>)
        ensures
            r is Some <==> invertible(self@, M::spec_modulo()),
            r is Some ==> r->0@ == inverse_of(self@, M::spec_modulo()),
    {
        proof {
            M::lemma_modulo_gt_one();
        }
        match big_modinv(&self.number, &M::get_modulo()) {
            Some(x) => {
                proof {
                    lemma_inverse_of(self@, nat_of(x@), M::spec_modulo());
                    lemma_small_mod(nat_of(x@), M::spec_modulo());
                }
                Some(Self::new(x))
            },
            None => None,
        }
    }

    /// The element 1.
    pub fn one() -> (r: Self)
        ensures
            r@ == 1,
    {
        proof {
            M::lemma_modulo_gt_one();
            lemma_small_mod(1, M::spec_modulo());
        }
        Self::from_u64(1)
    }

    /// The additive inverse `p - self`, reduced. The subtraction underflows when
    /// the number exceeds the modulus, which `requires` rules out.
    pub fn inv_additive(&self) -> (r: Self)
        requires
            self@ <= M::spec_modulo(),
        ensures
            r@ == (M::spec_modulo() - self@) as nat % M::spec_modulo(),
    {
        Self::new(big_sub(&M::get_modulo(), &self.number))
    }

    /// Whether the element is zero.
    pub fn is_zero(&self) -> (r: bool)
        ensures
            r == (self@ == 0),
    {
        digits_are_zero(&self.number)
    }

    /// The element 0.
    pub fn zero() -> (r: Self)
        ensures
            r@ == 0,
    {
        Field { number: Vec::new(), modulo: PhantomData }
    }

    /// The element `p - 1`.
    pub fn minus_one() -> (r: Self)
        ensures
            r@ == M::spec_modulo() - 1,
    {
        proof {
            M::lemma_modulo_gt_one();
            lemma_small_mod((M::spec_modulo() - 1) as nat, M::spec_modulo());
        }
        Self::new(big_sub(&M::get_modulo(), &digits_from_u64(1)))
    }

    /// Parses hexadecimal text: leading `0x` and then `0X` prefixes are taken off,
    /// the rest is read as base-16 digits (underscores allowed after the first
    /// digit), and the number is reduced.
    pub fn from_hex(hex: &str) -> (r: Result<Self, ParseBigIntError>)
        ensures
            r is Ok <==> parse_radix(trim_hex_prefix(hex@), 16) is Some,
            r is Ok ==> r->Ok_0@ == parse_radix(trim_hex_prefix(hex@), 16).unwrap()
                % M::spec_modulo(),
    {
        let chars = chars_of(hex);
        let t1 = trim_prefix_pairs(&chars, 'x');
        let t2 = trim_prefix_pairs(&t1, 'X');
        match big_from_hex(&t2) {
            Ok(n) => Ok(Self::new(n)),
            Err(e) => Err(e),
        }
    }

    /// Parses decimal text (the digits, underscores allowed after the first one,
    /// and an optional leading `+`), and reduces the number.
    pub fn from_decimal(s: &str) -> (r: Result<Self, ParseBigIntError>)
        ensures
            r is Ok <==> parse_radix(s@, 10) is Some,
            r is Ok ==> r->Ok_0@ == parse_radix(s@, 10).unwrap() % M::spec_modulo(),
    {
        let chars = chars_of(s);
        match big_from_decimal(&chars) {
            Ok(n) => Ok(Self::new(n)),
            Err(e) => Err(e),
        }
    }

    /// Lowercase hexadecimal text of the number, without leading zeros.
    pub fn to_hex(&self) -> (r: String)
        ensures
            r@ == hex_string(self@),
    {
        big_to_hex(&self.number)
    }

    /// Decimal text of the number, without leading zeros.
    pub fn to_decimal(&self) -> (r: String)
        ensures
            r@ == decimal_string(self@),
    {
        big_to_decimal(&self.number)
    }

    /// The element `v mod p`.
    pub fn from_u64(v: u64) -> (r: Self)
        ensures
            r@ == v as nat % M::spec_modulo(),
    {
        Self::new(digits_from_u64(v))
    }

    /// The element `v mod p` for a non-negative `v`. Converting a negative
    /// value to unsigned fails (and the conversion panics), which `requires`
    /// rules out.
    pub fn from_i32(value: i32) -> (r: Self)
        requires
            value >= 0,
        ensures
            r@ == value as nat % M::spec_modulo(),
    {
        Self::from_u64(value as u64)
    }

    /// The element `n mod p` for the number whose digits are given.
    pub fn from_digits(n: &Vec<u32>) -> (r: Self)
        ensures
            r@ == nat_of(n@) % M::spec_modulo(),
    {
        Self::new(n.clone())
    }

    /// A copy of the element.
    pub fn copy(&self) -> (r: Self)
        ensures
            r@ == self@,
            r.number@ == self.number@,
    {
        Field { number: self.number.clone(), modulo: PhantomData }
    }

    /// `(self + rhs) mod p`.
    pub fn add_field(&self, rhs: &Self) -> (r: Self)
        ensures
            r@ == fadd(self@, rhs@, M::spec_modulo()),
    {
        Self::new(big_add(&self.number, &rhs.number))
    }

    /// `(self + p - rhs) mod p`. The subtraction underflows when `rhs` exceeds
    /// `self + p`, which `requires` rules out.
    pub fn sub_field(&self, rhs: &Self) -> (r: Self)
        requires
            rhs@ <= self@ + M::spec_modulo(),
        ensures
            r@ == fsub(self@, rhs@, M::spec_modulo()),
    {
        let s = big_add(&self.number, &M::get_modulo());
        Self::new(big_sub(&s, &rhs.number))
    }

    /// `(self * rhs) mod p`.
    pub fn mul_field(&self, rhs: &Self) -> (r: Self)
        ensures
            r@ == fmul(self@, rhs@, M::spec_modulo()),
    {
        Self::new(big_mul(&self.number, &rhs.number))
    }

    /// `(self * rhs^-1) mod p`. Taking the inverse fails (and the division
    /// panics) when `rhs` has none, which `requires` rules out.
    pub fn div_field(&self, rhs: &Self) -> (r: Self)
        requires
            invertible(rhs@, M::spec_modulo()),
        ensures
            r@ == fdiv(self@, rhs@, M::spec_modulo()),
    {
        proof {
            M::lemma_modulo_gt_one();
        }
        let inv = big_modinv(&rhs.number, &M::get_modulo());
        match inv {
            Some(x) => {
                proof {
                    lemma_inverse_of(rhs@, nat_of(x@), M::spec_modulo());
                }
                Self::new(big_mul(&self.number, &x))
            },
            None => {
                proof {
                    assert(false);
                }
                Self::zero()
            },
        }
    }

    /// `self = (self + rhs) mod p`.
    pub fn add_assign_field(&mut self, rhs: Self)
        ensures
            final(self)@ == fadd(old(self)@, rhs@, M::spec_modulo()),
    {
        proof {
            M::lemma_modulo_gt_one();
        }
        let sum = big_add(&self.number, &rhs.number);
        self.number = big_rem(&sum, &M::get_modulo());
    }
}

/// The characters of a string.
pub(crate) fn chars_of(s: &str) -> (r: Vec<char>)
    ensures
        r@ == s@,
{
    let mut v: Vec<char> = Vec::new();
    for c in it: s.chars()
        invariant
            v@ == it.seq().take(it.index() as int),
    {
        v.push(c);
    }
    v
}

/// Takes off every leading `'0', c` pair.
fn trim_prefix_pairs(s: &Vec<char>, c: char) -> (r: Vec<char>)
    ensures
        r@ == trim_repeated(s@, c),
{
    let mut start: usize = 0;
    assert(s@.subrange(0, s@.len() as int) =~= s@);
    while s.len() - start >= 2 && s[start] == '0' && s[start + 1] == c
        invariant
            start <= s.len(),
            trim_repeated(s@.subrange(start as int, s@.len() as int), c) == trim_repeated(s@, c),
        decreases s.len() - start,
    {
        assert(s@.subrange(start as int, s@.len() as int).subrange(2, (s@.len() - start) as int)
            =~= s@.subrange(start + 2, s@.len() as int));
        start = start + 2;
    }
    assert(trim_repeated(s@.subrange(start as int, s@.len() as int), c) == s@.subrange(
        start as int,
        s@.len() as int,
    ));
    let mut r: Vec<char> = Vec::new();
    let mut i: usize = start;
    while i < s.len()
        invariant
            start <= i <= s.len(),
            r@ =~= s@.subrange(start as int, i as int),
        decreases s.len() - i,
    {
        r.push(s[i]);
        i = i + 1;
    }
    r
}


// ---------------------------------------------------------------------------
// Operators: each one calls the method of the same name above.
// ---------------------------------------------------------------------------

impl<M: Modulus> core::ops::Add for Field<M> {
    type Output = Field<M>;

    fn add(self, rhs: Field<M>) -> (r: Field<M>)
        ensures
            r@ == fadd(self@, rhs@, M::spec_modulo()),
    {
        Field::add_field(&self, &rhs)
    }
}

impl<M: Modulus> vstd::std_specs::ops::AddSpecImpl for Field<M> {
    open spec fn obeys_add_spec() -> bool {
        false
    }

    open spec fn add_req(self, rhs: Field<M>) -> bool {
        true
    }

    open spec fn add_spec(self, rhs: Field<M>) -> Field<M> {
        arbitrary()
    }
}

impl<'a, M: Modulus> core::ops::Add for &'a Field<M> {
    type Output = Field<M>;

    fn add(self, rhs: &'a Field<M>) -> (r: Field<M>)
        ensures
            r@ == fadd(self@, rhs@, M::spec_modulo()),
    {
        Field::add_field(self, rhs)
    }
}

impl<'a, M: Modulus> vstd::std_specs::ops::AddSpecImpl for &'a Field<M> {
    open spec fn obeys_add_spec() -> bool {
        false
    }

    open spec fn add_req(self, rhs: &'a Field<M>) -> bool {
        true
    }

    open spec fn add_spec(self, rhs: &'a Field<M>) -> Field<M> {
        arbitrary()
    }
}

impl<'a, M: Modulus> core::ops::Add<&'a Field<M>> for Field<M> {
    type Output = Field<M>;

    fn add(self, rhs: &'a Field<M>) -> (r: Field<M>)
        ensures
            r@ == fadd(self@, rhs@, M::spec_modulo()),
    {
        Field::add_field(&self, rhs)
    }
}

impl<'a, M: Modulus> vstd::std_specs::ops::AddSpecImpl<&'a Field<M>> for Field<M> {
    open spec fn obeys_add_spec() -> bool {
        false
    }

    open spec fn add_req(self, rhs: &'a Field<M>) -> bool {
        true
    }

    open spec fn add_spec(self, rhs: &'a Field<M>) -> Field<M> {
        arbitrary()
    }
}

impl<'a, M: Modulus> core::ops::Add<Field<M>> for &'a Field<M> {
    type Output = Field<M>;

    fn add(self, rhs: Field<M>) -> (r: Field<M>)
        ensures
            r@ == fadd(self@, rhs@, M::spec_modulo()),
    {
        Field::add_field(self, &rhs)
    }
}

impl<'a, M: Modulus> vstd::std_specs::ops::AddSpecImpl<Field<M>> for &'a Field<M> {
    open spec fn obeys_add_spec() -> bool {
        false
    }

    open spec fn add_req(self, rhs: Field<M>) -> bool {
        true
    }

    open spec fn add_spec(self, rhs: Field<M>) -> Field<M> {
        arbitrary()
    }
}

impl<M: Modulus> core::ops::Sub for Field<M> {
    type Output = Field<M>;

    fn sub(self, rhs: Field<M>) -> (r: Field<M>)
        ensures
            r@ == fsub(self@, rhs@, M::spec_modulo()),
    {
        Field::sub_field(&self, &rhs)
    }
}

impl<M: Modulus> vstd::std_specs::ops::SubSpecImpl for Field<M> {
    open spec fn obeys_sub_spec() -> bool {
        false
    }

    open spec fn sub_req(self, rhs: Field<M>) -> bool {
        rhs@ <= self@ + M::spec_modulo()
    }

    open spec fn sub_spec(self, rhs: Field<M>) -> Field<M> {
        arbitrary()
    }
}

impl<'a, M: Modulus> core::ops::Sub for &'a Field<M> {
    type Output = Field<M>;

    fn sub(self, rhs: &'a Field<M>) -> (r: Field<M>)
        ensures
            r@ == fsub(self@, rhs@, M::spec_modulo()),
    {
        Field::sub_field(self, rhs)
    }
}

impl<'a, M: Modulus> vstd::std_specs::ops::SubSpecImpl for &'a Field<M> {
    open spec fn obeys_sub_spec() -> bool {
        false
    }

    open spec fn sub_req(self, rhs: &'a Field<M>) -> bool {
        rhs@ <= self@ + M::spec_modulo()
    }

    open spec fn sub_spec(self, rhs: &'a Field<M>) -> Field<M> {
        arbitrary()
    }
}

impl<'a, M: Modulus> core::ops::Sub<&'a Field<M>> for Field<M> {
    type Output = Field<M>;

    fn sub(self, rhs: &'a Field<M>) -> (r: Field<M>)
        ensures
            r@ == fsub(self@, rhs@, M::spec_modulo()),
    {
        Field::sub_field(&self, rhs)
    }
}

impl<'a, M: Modulus> vstd::std_specs::ops::SubSpecImpl<&'a Field<M>> for Field<M> {
    open spec fn obeys_sub_spec() -> bool {
        false
    }

    open spec fn sub_req(self, rhs: &'a Field<M>) -> bool {
        rhs@ <= self@ + M::spec_modulo()
    }

    open spec fn sub_spec(self, rhs: &'a Field<M>) -> Field<M> {
        arbitrary()
    }
}

impl<'a, M: Modulus> core::ops::Sub<Field<M>> for &'a Field<M> {
    type Output = Field<M>;

    fn sub(self, rhs: Field<M>) -> (r: Field<M>)
        ensures
            r@ == fsub(self@, rhs@, M::spec_modulo()),
    {
        Field::sub_field(self, &rhs)
    }
}

impl<'a, M: Modulus> vstd::std_specs::ops::SubSpecImpl<Field<M>> for &'a Field<M> {
    open spec fn obeys_sub_spec() -> bool {
        false
    }

    open spec fn sub_req(self, rhs: Field<M>) -> bool {
        rhs@ <= self@ + M::spec_modulo()
    }

    open spec fn sub_spec(self, rhs: Field<M>) -> Field<M> {
        arbitrary()
    }
}

impl<M: Modulus> core::ops::Mul for Field<M> {
    type Output = Field<M>;

    fn mul(self, rhs: Field<M>) -> (r: Field<M>)
        ensures
            r@ == fmul(self@, rhs@, M::spec_modulo()),
    {
        Field::mul_field(&self, &rhs)
    }
}

impl<M: Modulus> vstd::std_specs::ops::MulSpecImpl for Field<M> {
    open spec fn obeys_mul_spec() -> bool {
        false
    }

    open spec fn mul_req(self, rhs: Field<M>) -> bool {
        true
    }

    open spec fn mul_spec(self, rhs: Field<M>) -> Field<M> {
        arbitrary()
    }
}

impl<'a, M: Modulus> core::ops::Mul for &'a Field<M> {
    type Output = Field<M>;

    fn mul(self, rhs: &'a Field<M>) -> (r: Field<M>)
        ensures
            r@ == fmul(self@, rhs@, M::spec_modulo()),
    {
        Field::mul_field(self, rhs)
    }
}

impl<'a, M: Modulus> vstd::std_specs::ops::MulSpecImpl for &'a Field<M> {
    open spec fn obeys_mul_spec() -> bool {
        false
    }

    open spec fn mul_req(self, rhs: &'a Field<M>) -> bool {
        true
    }

    open spec fn mul_spec(self, rhs: &'a Field<M>) -> Field<M> {
        arbitrary()
    }
}

impl<'a, M: Modulus> core::ops::Mul<&'a Field<M>> for Field<M> {
    type Output = Field<M>;

    fn mul(self, rhs: &'a Field<M>) -> (r: Field<M>)
        ensures
            r@ == fmul(self@, rhs@, M::spec_modulo()),
    {
        Field::mul_field(&self, rhs)
    }
}

impl<'a, M: Modulus> vstd::std_specs::ops::MulSpecImpl<&'a Field<M>> for Field<M> {
    open spec fn obeys_mul_spec() -> bool {
        false
    }

    open spec fn mul_req(self, rhs: &'a Field<M>) -> bool {
        true
    }

    open spec fn mul_spec(self, rhs: &'a Field<M>) -> Field<M> {
        arbitrary()
    }
}

impl<'a, M: Modulus> core::ops::Mul<Field<M>> for &'a Field<M> {
    type Output = Field<M>;

    fn mul(self, rhs: Field<M>) -> (r: Field<M>)
        ensures
            r@ == fmul(self@, rhs@, M::spec_modulo()),
    {
        Field::mul_field(self, &rhs)
    }
}

impl<'a, M: Modulus> vstd::std_specs::ops::MulSpecImpl<Field<M>> for &'a Field<M> {
    open spec fn obeys_mul_spec() -> bool {
        false
    }

    open spec fn mul_req(self, rhs: Field<M>) -> bool {
        true
    }

    open spec fn mul_spec(self, rhs: Field<M>) -> Field<M> {
        arbitrary()
    }
}

impl<M: Modulus> core::ops::Div for Field<M> {
    type Output = Field<M>;

    fn div(self, rhs: Field<M>) -> (r: Field<M>)
        ensures
            r@ == fdiv(self@, rhs@, M::spec_modulo()),
    {
        Field::div_field(&self, &rhs)
    }
}

impl<M: Modulus> vstd::std_specs::ops::DivSpecImpl for Field<M> {
    open spec fn obeys_div_spec() -> bool {
        false
    }

    open spec fn div_req(self, rhs: Field<M>) -> bool {
        invertible(rhs@, M::spec_modulo())
    }

    open spec fn div_spec(self, rhs: Field<M>) -> Field<M> {
        arbitrary()
    }
}

impl<M: Modulus> core::ops::AddAssign for Field<M> {
    fn add_assign(&mut self, rhs: Field<M>)
        ensures
            final(self)@ == fadd(old(self)@, rhs@, M::spec_modulo()),
    {
        self.add_assign_field(rhs)
    }
}

impl<M: Modulus> PartialEq for Field<M> {
    fn eq(&self, other: &Self) -> (r: bool) {
        big_eq(&self.number, &other.number)
    }
}

impl<M: Modulus> vstd::std_specs::cmp::PartialEqSpecImpl for Field<M> {
    open spec fn obeys_eq_spec() -> bool {
        true
    }

    /// Two elements are equal when their numbers are.
    open spec fn eq_spec(&self, other: &Self) -> bool {
        self@ == other@
    }
}

impl<M: Modulus> Eq for Field<M> {

}

impl<M: Modulus> Clone for Field<M> {
    fn clone(&self) -> (r: Self)
        ensures
            r@ == self@,
            r.number@ == self.number@,
    {
        self.copy()
    }
}

impl<M: Modulus> Default for Field<M> {
    fn default() -> (r: Self)
        ensures
            r@ == 0,
    {
        Field::zero()
    }
}

impl<M: Modulus> From<u64> for Field<M> {
    fn from(value: u64) -> (r: Self)
        ensures
            r@ == value as nat % M::spec_modulo(),
    {
        Field::from_u64(value)
    }
}

impl<M: Modulus> vstd::std_specs::convert::FromSpecImpl<u64> for Field<M> {
    open spec fn obeys_from_spec() -> bool {
        false
    }

    open spec fn from_spec(v: u64) -> Field<M> {
        arbitrary()
    }
}

impl<'a, M: Modulus> From<&'a Vec<u32>> for Field<M> {
    fn from(value: &'a Vec<u32>) -> (r: Self)
        ensures
            r@ == nat_of(value@) % M::spec_modulo(),
    {
        Field::from_digits(value)
    }
}

impl<'a, M: Modulus> vstd::std_specs::convert::FromSpecImpl<&'a Vec<u32>> for Field<M> {
    open spec fn obeys_from_spec() -> bool {
        false
    }

    open spec fn from_spec(v: &'a Vec<u32>) -> Field<M> {
        arbitrary()
    }
}

impl<M: Modulus> core::str::FromStr for Field<M> {
    type Err = ParseBigIntError;

    fn from_str(s: &str) -> (r: Result<Self, ParseBigIntError>)
        ensures
            r is Ok <==> parse_radix(s@, 10) is Some,
            r is Ok ==> r->Ok_0@ == parse_radix(s@, 10).unwrap() % M::spec_modulo(),
    {
        Field::from_decimal(s)
    }
}

} // verus!
