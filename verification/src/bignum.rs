//! Arbitrary-precision natural numbers, held as little-endian base-2^32 digits.
//!
//! The arithmetic itself is done by `num_bigint::BigUint`; every call into it
//! goes through one of the small trusted functions below, whose contracts state
//! the result over [`nat_of`], the value of a digit sequence.
use num_bigint::{BigUint, ParseBigIntError, RandBigInt};
use num_traits::Num;
use rand::rngs::StdRng;
use rand::Rng;
use sha2::Digest;
use vstd::arithmetic::power::pow;
use vstd::arithmetic::power2::pow2;
use vstd::prelude::*;

verus! {

/// The error `num_bigint` reports for a string that is not a number.
#[verifier::external_type_specification]
#[verifier::external_body]
pub struct ExParseBigIntError(ParseBigIntError);

/// The seedable, cryptographically strong generator of `rand`.
#[verifier::external_type_specification]
#[verifier::external_body]
pub struct ExStdRng(StdRng);

// ---------------------------------------------------------------------------
// Mathematical model
// ---------------------------------------------------------------------------

/// The value of a little-endian sequence of base-2^32 digits.
pub open spec fn nat_of(digits: Seq<u32>) -> nat
    decreases digits.len(),
{
    if digits.len() == 0 {
        0
    } else {
        digits[0] as nat + 0x1_0000_0000 * nat_of(digits.drop_first())
    }
}

/// The value of a big-endian sequence of bytes.
pub open spec fn be_value(bytes: Seq<u8>) -> nat
    decreases bytes.len(),
{
    if bytes.len() == 0 {
        0
    } else {
        be_value(bytes.drop_last()) * 256 + bytes.last() as nat
    }
}

/// The shortest big-endian bytes of `v` (`[0]` for 0).
pub open spec fn be_bytes_of(v: nat) -> Seq<u8>
    decreases v,
{
    if v < 256 {
        seq![v as u8]
    } else {
        be_bytes_of(v / 256).push((v % 256) as u8)
    }
}

/// Number of binary digits of `v` (0 for 0).
pub open spec fn bit_len(v: nat) -> nat
    decreases v,
{
    if v == 0 {
        0
    } else {
        1 + bit_len(v / 2)
    }
}

/// Bit `i` of `v`, counted from the least significant one.
pub open spec fn bit_of(v: nat, i: nat) -> bool {
    (v / pow2(i)) % 2 == 1
}

/// Whether `x` is an inverse of `a` modulo `m` in `[0, m)`.
pub open spec fn is_inverse(a: nat, x: nat, m: nat) -> bool {
    x < m && (a * x) % m == 1nat % m
}

/// Whether `a` has an inverse modulo `m`.
pub open spec fn invertible(a: nat, m: nat) -> bool {
    exists|x: nat| is_inverse(a, x, m)
}

/// The inverse of `a` modulo `m` (meaningful where [`invertible`] holds).
pub open spec fn inverse_of(a: nat, m: nat) -> nat {
    choose|x: nat| is_inverse(a, x, m)
}

/// The lowercase hexadecimal digit for `d < 16`.
pub open spec fn hex_char(d: nat) -> char {
    if d < 10 {
        (48 + d) as char
    } else {
        (87 + d) as char
    }
}

/// Lowercase hexadecimal text of `v`, without leading zeros ("0" for 0).
pub open spec fn hex_string(v: nat) -> Seq<char>
    decreases v,
{
    if v < 16 {
        seq![hex_char(v)]
    } else {
        hex_string(v / 16).push(hex_char(v % 16))
    }
}

/// Decimal text of `v`, without leading zeros ("0" for 0).
pub open spec fn decimal_string(v: nat) -> Seq<char>
    decreases v,
{
    if v < 10 {
        seq![hex_char(v)]
    } else {
        decimal_string(v / 10).push(hex_char(v % 10))
    }
}

/// The value of a digit character (`0-9`, then `a-z` or `A-Z` for 10 to 35).
pub open spec fn char_digit_value(c: char) -> Option<nat> {
    if '0' <= c && c <= '9' {
        Some((c as nat - 48) as nat)
    } else if 'a' <= c && c <= 'z' {
        Some((c as nat - 87) as nat)
    } else if 'A' <= c && c <= 'Z' {
        Some((c as nat - 55) as nat)
    } else {
        None
    }
}

/// Whether `c` is a digit in base `radix`.
pub open spec fn is_radix_digit(c: char, radix: nat) -> bool {
    char_digit_value(c) is Some && char_digit_value(c).unwrap() < radix
}

/// Whether every character is a digit in base `radix` or an underscore.
pub open spec fn radix_chars_ok(s: Seq<char>, radix: nat) -> bool {
    forall|i: int| 0 <= i < s.len() ==> (s[i] == '_' || #[trigger] is_radix_digit(s[i], radix))
}

/// Value of digits in base `radix`, underscores skipped.
pub open spec fn radix_digits_value(s: Seq<char>, radix: nat) -> nat
    decreases s.len(),
{
    if s.len() == 0 {
        0
    } else if s.last() == '_' {
        radix_digits_value(s.drop_last(), radix)
    } else {
        radix_digits_value(s.drop_last(), radix) * radix + char_digit_value(s.last()).unwrap_or(0)
    }
}

/// A single leading `+` is dropped, unless a second one follows it.
pub open spec fn strip_one_plus(s: Seq<char>) -> Seq<char> {
    if s.len() > 0 && s[0] == '+' && !(s.len() > 1 && s[1] == '+') {
        s.drop_first()
    } else {
        s
    }
}

/// What `BigUint::from_str_radix(s, radix)` reads from `s`: `None` for an error.
pub open spec fn parse_radix(s: Seq<char>, radix: nat) -> Option<nat> {
    let t = strip_one_plus(s);
    if t.len() == 0 || t[0] == '_' || !radix_chars_ok(t, radix) {
        None
    } else {
        Some(radix_digits_value(t, radix))
    }
}

/// SHA-256 digest of a byte sequence.
pub uninterp spec fn sha256_of(data: Seq<u8>) -> Seq<u8>;

// ---------------------------------------------------------------------------
// Lemmas on the model
// ---------------------------------------------------------------------------

/// A digit sequence has value zero exactly when every digit is zero.
pub proof fn lemma_nat_of_zero(digits: Seq<u32>)
    ensures
        nat_of(digits) == 0 <==> forall|i: int| 0 <= i < digits.len() ==> digits[i] == 0,
    decreases digits.len(),
{
    if digits.len() > 0 {
        lemma_nat_of_zero(digits.drop_first());
        if nat_of(digits) == 0 {
            assert forall|i: int| 0 <= i < digits.len() implies digits[i] == 0 by {
                if i > 0 {
                    assert(digits.drop_first()[i - 1] == digits[i]);
                }
            }
        }
        if forall|i: int| 0 <= i < digits.len() ==> digits[i] == 0 {
            assert forall|i: int| 0 <= i < digits.drop_first().len() implies digits.drop_first()[i]
                == 0 by {
                assert(digits.drop_first()[i] == digits[i + 1]);
            }
        }
    }
}

/// A non-empty digit sequence is worth at least its lowest digit.
pub proof fn lemma_nat_of_ge_first(digits: Seq<u32>)
    requires
        digits.len() > 0,
    ensures
        nat_of(digits) >= digits[0],
{
}

// ---------------------------------------------------------------------------
// Verified helpers
// ---------------------------------------------------------------------------

/// The digits of a 64-bit number.
pub fn digits_from_u64(v: u64) -> (r: Vec<u32>)
    ensures
        nat_of(r@) == v,
{
    let lo = (v % 0x1_0000_0000) as u32;
    let hi = (v / 0x1_0000_0000) as u32;
    let mut r: Vec<u32> = Vec::new();
    r.push(lo);
    r.push(hi);
    let ghost rest = r@.drop_first();
    assert(rest.len() == 1 && rest[0] == hi);
    assert(rest.drop_first().len() == 0);
    assert(nat_of(rest.drop_first()) == 0);
    assert(nat_of(rest) == hi as nat);
    assert(v == lo as nat + 0x1_0000_0000 * (hi as nat));
    r
}

/// Whether the value of the digits is zero.
pub fn digits_are_zero(digits: &Vec<u32>) -> (r: bool)
    ensures
        r == (nat_of(digits@) == 0),
{
    proof {
        lemma_nat_of_zero(digits@);
    }
    let mut i: usize = 0;
    while i < digits.len()
        invariant
            i <= digits.len(),
            forall|j: int| 0 <= j < i ==> digits@[j] == 0,
        decreases digits.len() - i,
    {
        if digits[i] != 0 {
            proof {
                lemma_nat_of_zero(digits@);
                assert(digits@[i as int] != 0);
            }
            return false;
        }
        i = i + 1;
    }
    true
}

// ---------------------------------------------------------------------------
// Trusted calls into num_bigint, rand and sha2
// ---------------------------------------------------------------------------

/// `BigUint % BigUint`: the digits returned have the value `a mod m`.
/// `%` panics on a zero divisor, which `requires` rules out.
#[verifier::external_body]
pub(crate) fn big_rem(a: &Vec<u32>, m: &Vec<u32>) -> (r: Vec<u32>)
    requires
        nat_of(m@) > 0,
    ensures
        nat_of(r@) == nat_of(a@) % nat_of(m@),
{
    (BigUint::from_slice(a) % BigUint::from_slice(m)).to_u32_digits()
}

/// `BigUint + BigUint`: the digits returned have the value `a + b`.
#[verifier::external_body]
pub(crate) fn big_add(a: &Vec<u32>, b: &Vec<u32>) -> (r: Vec<u32>)
    ensures
        nat_of(r@) == nat_of(a@) + nat_of(b@),
{
    (BigUint::from_slice(a) + BigUint::from_slice(b)).to_u32_digits()
}

/// `BigUint - BigUint`: the digits returned have the value `a - b`.
/// The subtraction panics when `b > a`, which `requires` rules out.
#[verifier::external_body]
pub(crate) fn big_sub(a: &Vec<u32>, b: &Vec<u32>) -> (r: Vec<u32>)
    requires
        nat_of(b@) <= nat_of(a@),
    ensures
        nat_of(r@) == nat_of(a@) - nat_of(b@),
{
    (BigUint::from_slice(a) - BigUint::from_slice(b)).to_u32_digits()
}

/// `BigUint * BigUint`: the digits returned have the value `a * b`.
#[verifier::external_body]
pub(crate) fn big_mul(a: &Vec<u32>, b: &Vec<u32>) -> (r: Vec<u32>)
    ensures
        nat_of(r@) == nat_of(a@) * nat_of(b@),
{
    (BigUint::from_slice(a) * BigUint::from_slice(b)).to_u32_digits()
}

/// `BigUint::modpow`: the digits returned have the value `a^e mod m`.
/// It panics on a zero modulus, which `requires` rules out.
#[verifier::external_body]
pub(crate) fn big_modpow(a: &Vec<u32>, e: &Vec<u32>, m: &Vec<u32>) -> (r: Vec<u32>)
    requires
        nat_of(m@) > 0,
    ensures
        nat_of(r@) == pow(nat_of(a@) as int, nat_of(e@)) % (nat_of(m@) as int),
{
    BigUint::from_slice(a).modpow(&BigUint::from_slice(e), &BigUint::from_slice(m)).to_u32_digits()
}

/// `BigUint::modinv`: `Some` of the inverse of `a` modulo `m` in `[0, m)` where one
/// exists, `None` where none does. It panics on a zero modulus, which `requires`
/// rules out.
#[verifier::external_body]
pub(crate) fn big_modinv(a: &Vec<u32>, m: &Vec<u32>) -> (r: Option<Vec<u32>>)
    requires
        nat_of(m@) > 0,
    ensures
        r is Some <==> invertible(nat_of(a@), nat_of(m@)),
        r is Some ==> is_inverse(nat_of(a@), nat_of(r->0@), nat_of(m@)),
{
    match BigUint::from_slice(a).modinv(&BigUint::from_slice(m)) {
        Some(x) => Some(x.to_u32_digits()),
        None => None,
    }
}

/// `BigUint::bits`: the number of binary digits of the value.
#[verifier::external_body]
pub(crate) fn big_bits(a: &Vec<u32>) -> (r: u64)
    ensures
        r == bit_len(nat_of(a@)),
{
    BigUint::from_slice(a).bits()
}

/// `BigUint::bit`: bit `i` of the value.
#[verifier::external_body]
pub(crate) fn big_bit(a: &Vec<u32>, i: u64) -> (r: bool)
    ensures
        r == bit_of(nat_of(a@), i as nat),
{
    BigUint::from_slice(a).bit(i)
}

/// `BigUint == BigUint`: whether the values are equal.
#[verifier::external_body]
pub(crate) fn big_eq(a: &Vec<u32>, b: &Vec<u32>) -> (r: bool)
    ensures
        r == (nat_of(a@) == nat_of(b@)),
{
    BigUint::from_slice(a) == BigUint::from_slice(b)
}

/// `BigUint < BigUint`: whether the value of `a` is below that of `b`.
#[verifier::external_body]
pub(crate) fn big_lt(a: &Vec<u32>, b: &Vec<u32>) -> (r: bool)
    ensures
        r == (nat_of(a@) < nat_of(b@)),
{
    BigUint::from_slice(a) < BigUint::from_slice(b)
}

/// `BigUint::from_str_radix(s, 16)`, on the characters given: the number they
/// spell per [`parse_radix`] (an optional `+`, then base-16 digits and
/// underscores, not led by an underscore), or the parse error.
#[verifier::external_body]
pub(crate) fn big_from_hex(chars: &Vec<char>) -> (r: Result<Vec<u32>, ParseBigIntError>)
    ensures
        r is Ok <==> parse_radix(chars@, 16) is Some,
        r is Ok ==> nat_of(r->Ok_0@) == parse_radix(chars@, 16).unwrap(),
{
    let s: String = chars.iter().collect();
    match BigUint::from_str_radix(&s, 16) {
        Ok(n) => Ok(n.to_u32_digits()),
        Err(e) => Err(e),
    }
}

/// `BigUint::from_str` (base 10), on the characters given: the number they spell
/// per [`parse_radix`], or the parse error.
#[verifier::external_body]
pub(crate) fn big_from_decimal(chars: &Vec<char>) -> (r: Result<Vec<u32>, ParseBigIntError>)
    ensures
        r is Ok <==> parse_radix(chars@, 10) is Some,
        r is Ok ==> nat_of(r->Ok_0@) == parse_radix(chars@, 10).unwrap(),
{
    let s: String = chars.iter().collect();
    match s.parse::<BigUint>() {
        Ok(n) => Ok(n.to_u32_digits()),
        Err(e) => Err(e),
    }
}

/// `format!("{:0x}", BigUint)`: the lowercase hexadecimal text of the value,
/// without leading zeros.
#[verifier::external_body]
pub(crate) fn big_to_hex(a: &Vec<u32>) -> (r: String)
    ensures
        r@ == hex_string(nat_of(a@)),
{
    format!("{:0x}", BigUint::from_slice(a))
}

/// `format!("{}", BigUint)`: the decimal text of the value, without leading
/// zeros.
#[verifier::external_body]
pub(crate) fn big_to_decimal(a: &Vec<u32>) -> (r: String)
    ensures
        r@ == decimal_string(nat_of(a@)),
{
    format!("{}", BigUint::from_slice(a))
}

/// `String`'s `FromIterator<char>`: the string of the characters given.
#[verifier::external_body]
pub(crate) fn string_from_chars(chars: &Vec<char>) -> (r: String)
    ensures
        r@ == chars@,
{
    chars.iter().collect()
}

/// `ParseBigIntError::to_string`: one of the two messages `num_bigint` has.
#[verifier::external_body]
pub(crate) fn parse_error_text(e: &ParseBigIntError) -> (r: String)
    ensures
        r@ == "cannot parse integer from empty string"@ || r@
            == "invalid digit found in string"@,
{
    e.to_string()
}

/// `BigUint::from_bytes_be`: the number whose big-endian bytes are given.
#[verifier::external_body]
pub(crate) fn big_from_bytes_be(bytes: &[u8]) -> (r: Vec<u32>)
    ensures
        nat_of(r@) == be_value(bytes@),
{
    BigUint::from_bytes_be(bytes).to_u32_digits()
}

/// `BigUint::to_bytes_be`: the shortest big-endian bytes of the value
/// (`[0]` for zero).
#[verifier::external_body]
pub(crate) fn big_to_bytes_be(a: &Vec<u32>) -> (r: Vec<u8>)
    ensures
        r@ == be_bytes_of(nat_of(a@)),
{
    BigUint::from_slice(a).to_bytes_be()
}

/// `RandBigInt::gen_biguint_below`: a random number below `bound`. It panics on
/// a zero bound, which `requires` rules out. Which number comes is left open.
#[verifier::external_body]
pub(crate) fn big_random_below(rng: &mut StdRng, bound: &Vec<u32>) -> (r: Vec<u32>)
    requires
        nat_of(bound@) > 0,
    ensures
        nat_of(r@) < nat_of(bound@),
{
    rng.gen_biguint_below(&BigUint::from_slice(bound)).to_u32_digits()
}

/// `Rng::gen::<[u8; 32]>`: 32 random bytes; which ones is left open.
#[verifier::external_body]
pub(crate) fn random_bytes_32(rng: &mut StdRng) -> (r: [u8; 32]) {
    rng.gen()
}

/// `Sha256::digest`: the 32-byte SHA-256 digest of the data.
#[verifier::external_body]
pub(crate) fn sha256(data: &[u8]) -> (r: Vec<u8>)
    ensures
        r@ == sha256_of(data@),
        r@.len() == 32,
{
    let mut hasher = sha2::Sha256::new();
    hasher.update(data);
    hasher.finalize().to_vec()
}

} // verus!
