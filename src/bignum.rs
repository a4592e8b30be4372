//! Arbitrary-precision natural numbers, held as base 2^32 limbs.
//!
//! The arithmetic itself is done by `num_bigint`; this module converts to and
//! from its `BigUint` and states each operation over the number's value.

use num_bigint::BigUint;
use num_integer::Integer;
use vstd::arithmetic::div_mod::*;
use vstd::arithmetic::power::pow;
use vstd::prelude::*;

verus! {

/// 2^32, the radix of the limbs.
pub open spec fn limb_radix() -> nat {
    0x1_0000_0000
}

/// The value of little-endian base 2^32 limbs.
pub open spec fn limbs_value(s: Seq<u32>) -> nat
    decreases s.len(),
{
    if s.len() == 0 {
        0
    } else {
        s[0] as nat + limb_radix() * limbs_value(s.drop_first())
    }
}

/// Greatest common divisor, by Euclid's recurrence (`gcd(a, 0) == a`).
pub open spec fn gcd(a: nat, b: nat) -> nat
    decreases b,
{
    if b == 0 {
        a
    } else {
        gcd(b, a % b)
    }
}

/// The lowercase hexadecimal digit of `d < 16`.
pub open spec fn hex_digit(d: nat) -> char {
    if d < 10 {
        ((d + 48) as u8) as char
    } else {
        ((d + 87) as u8) as char
    }
}

/// Lowercase base-16 text of `n`, without leading zeros; `"0"` for zero.
pub open spec fn hex_text(n: nat) -> Seq<char>
    decreases n,
{
    if n < 16 {
        seq![hex_digit(n)]
    } else {
        hex_text(n / 16).push(hex_digit(n % 16))
    }
}

/// Whether `c` is a hexadecimal digit, in either case.
pub open spec fn is_hex_char(c: char) -> bool {
    ('0' <= c <= '9') || ('a' <= c <= 'f') || ('A' <= c <= 'F')
}

/// The value of a hexadecimal digit.
pub open spec fn hex_char_value(c: char) -> nat {
    if '0' <= c <= '9' {
        (c as nat - 48) as nat
    } else if 'a' <= c <= 'f' {
        (c as nat - 87) as nat
    } else {
        (c as nat - 55) as nat
    }
}

/// Non-empty and made of hexadecimal digits only.
pub open spec fn is_hex_string(s: Seq<char>) -> bool {
    s.len() > 0 && forall|i: int| 0 <= i < s.len() ==> is_hex_char(#[trigger] s[i])
}

/// The value of big-endian hexadecimal digits.
pub open spec fn hex_value(s: Seq<char>) -> nat
    decreases s.len(),
{
    if s.len() == 0 {
        0
    } else {
        hex_value(s.drop_last()) * 16 + hex_char_value(s.last())
    }
}

/// A lowercase hexadecimal digit.
pub open spec fn is_lower_hex_char(c: char) -> bool {
    ('0' <= c <= '9') || ('a' <= c <= 'f')
}

/// The hexadecimal text of a number is made of lowercase digits, has no
/// leading zero unless it is `"0"`, and reads back as the number.
pub proof fn lemma_hex_round_trip(n: nat)
    ensures
        is_hex_string(hex_text(n)),
        hex_value(hex_text(n)) == n,
        forall|i: int| 0 <= i < hex_text(n).len() ==> is_lower_hex_char(#[trigger] hex_text(n)[i]),
        hex_text(n)[0] == '0' ==> n == 0 && hex_text(n).len() == 1,
    decreases n,
{
    if n < 16 {
        let t = hex_text(n);
        assert(t.drop_last().len() == 0);
        assert(hex_value(t) == hex_value(t.drop_last()) * 16 + hex_char_value(t.last()));
    } else {
        lemma_hex_round_trip(n / 16);
        let t = hex_text(n);
        let h = hex_text(n / 16);
        assert(t.drop_last() == h);
        assert(t[0] == h[0]);
        assert forall|i: int| 0 <= i < t.len() implies is_lower_hex_char(#[trigger] t[i]) by {
            if i < h.len() {
                assert(t[i] == h[i]);
            }
        }
        assert forall|i: int| 0 <= i < t.len() implies is_hex_char(#[trigger] t[i]) by {
            if i < h.len() {
                assert(t[i] == h[i]);
            }
        }
    }
}

/// Whether `s` is a non-empty run of hexadecimal digits.
pub fn is_hex_chars(s: &[char]) -> (r: bool)
    ensures
        r == is_hex_string(s@),
{
    if s.len() == 0 {
        return false;
    }
    let mut i: usize = 0;
    while i < s.len()
        invariant
            i <= s@.len(),
            forall|k: int| 0 <= k < i ==> is_hex_char(#[trigger] s@[k]),
        decreases s@.len() - i,
    {
        let c = s[i];
        if !(('0' <= c && c <= '9') || ('a' <= c && c <= 'f') || ('A' <= c && c <= 'F')) {
            assert(!is_hex_char(s@[i as int]));
            return false;
        }
        i = i + 1;
    }
    true
}

/// A natural number of any size.
#[derive(Clone, Debug)]
pub struct BigNum {
    limbs: Vec<u32>,
}

impl View for BigNum {
    type V = nat;

    closed spec fn view(&self) -> nat {
        limbs_value(self.limbs@)
    }
}

/// A value is zero exactly when all of its limbs are.
proof fn lemma_value_zero(s: Seq<u32>)
    ensures
        limbs_value(s) == 0 <==> forall|k: int| 0 <= k < s.len() ==> s[k] == 0,
    decreases s.len(),
{
    if s.len() > 0 {
        lemma_value_zero(s.drop_first());
        if limbs_value(s) == 0 {
            assert forall|k: int| 0 <= k < s.len() implies s[k] == 0 by {
                if k > 0 {
                    assert(s[k] == s.drop_first()[k - 1]);
                }
            }
        }
        if forall|k: int| 0 <= k < s.len() ==> s[k] == 0 {
            assert forall|k: int| 0 <= k < s.drop_first().len() implies s.drop_first()[k] == 0 by {
                assert(s.drop_first()[k] == s[k + 1]);
            }
        }
    }
}

/// The value splits into its two lowest limbs and the rest.
proof fn lemma_value_low_limbs(s: Seq<u32>)
    requires
        s.len() >= 2,
    ensures
        limbs_value(s) == s[0] as nat + limb_radix() * s[1] as nat + limb_radix() * limb_radix()
            * limbs_value(s.skip(2)),
{
    assert(s.drop_first().drop_first() =~= s.skip(2));
    assert(limbs_value(s.drop_first()) == s[1] as nat + limb_radix() * limbs_value(s.skip(2)));
    assert(limb_radix() * (s[1] as nat + limb_radix() * limbs_value(s.skip(2))) == limb_radix()
        * s[1] as nat + limb_radix() * limb_radix() * limbs_value(s.skip(2))) by (nonlinear_arith);
}

impl BigNum {
    /// The number zero.
    pub fn zero() -> (r: BigNum)
        ensures
            r@ == 0,
    {
        BigNum { limbs: Vec::new() }
    }

    /// The number `x`.
    pub fn from_u128(x: u128) -> (r: BigNum)
        ensures
            r@ == x as nat,
    {
        let b: u128 = 0x1_0000_0000;
        let l0 = (x % b) as u32;
        let l1 = ((x / b) % b) as u32;
        let l2 = ((x / b / b) % b) as u32;
        let l3 = (x / b / b / b) as u32;
        let limbs = vec![l0, l1, l2, l3];
        proof {
            let s = limbs@;
            let t = s.drop_first().drop_first().drop_first();
            assert(t.len() == 1 && t[0] == l3);
            assert(limbs_value(t.drop_first()) == 0);
            assert(limbs_value(t) == l3 as nat);
            assert(limbs_value(s.drop_first().drop_first()) == l2 as nat + limb_radix() * l3);
            assert(limbs_value(s.drop_first()) == l1 as nat + limb_radix() * (l2 as nat
                + limb_radix() * l3));
        }
        BigNum { limbs }
    }

    /// The number `x`.
    pub fn from_u64(x: u64) -> (r: BigNum)
        ensures
            r@ == x as nat,
    {
        BigNum::from_u128(x as u128)
    }

    /// The value, when it is below 2^64.
    pub fn to_u64(&self) -> (r: Option<u64>)
        ensures
            r == (if self@ < 0x1_0000_0000_0000_0000 {
                Some(self@ as u64)
            } else {
                None
            }),
    {
        let n = self.limbs.len();
        let mut i: usize = 2;
        while i < n
            invariant
                n == self.limbs@.len(),
                2 <= i,
                forall|k: int| 2 <= k < i && k < n ==> self.limbs@[k] == 0,
            decreases n - i,
        {
            if self.limbs[i] != 0 {
                proof {
                    let s = self.limbs@;
                    lemma_value_low_limbs(s);
                    lemma_value_zero(s.skip(2));
                    assert(s.skip(2)[i - 2] == s[i as int]);
                    let v = limbs_value(s.skip(2));
                    assert(v >= 1);
                    assert(limb_radix() * limb_radix() * v >= limb_radix() * limb_radix())
                        by (nonlinear_arith)
                        requires
                            v >= 1,
                    ;
                }
                return None;
            }
            i = i + 1;
        }
        proof {
            let s = self.limbs@;
            if n >= 2 {
                lemma_value_low_limbs(s);
                lemma_value_zero(s.skip(2));
                assert forall|k: int| 0 <= k < s.skip(2).len() implies s.skip(2)[k] == 0 by {
                    assert(s.skip(2)[k] == s[k + 2]);
                }
                assert(limbs_value(s) == s[0] as nat + limb_radix() * s[1] as nat);
            } else if n == 1 {
                assert(limbs_value(s.drop_first()) == 0);
                assert(limbs_value(s) == s[0] as nat);
            } else {
                assert(limbs_value(s) == 0);
            }
        }
        if n == 0 {
            Some(0)
        } else if n == 1 {
            Some(self.limbs[0] as u64)
        } else {
            Some(self.limbs[0] as u64 + self.limbs[1] as u64 * 0x1_0000_0000)
        }
    }

    /// Whether the value is zero.
    pub fn is_zero(&self) -> (r: bool)
        ensures
            r == (self@ == 0),
    {
        match self.to_u64() {
            Some(v) => v == 0,
            None => false,
        }
    }

    /// Whether the value equals `x`.
    pub fn equals_u64(&self, x: u64) -> (r: bool)
        ensures
            r == (self@ == x as nat),
    {
        match self.to_u64() {
            Some(v) => v == x,
            None => false,
        }
    }

    /// A copy of this number.
    pub fn copy(&self) -> (r: BigNum)
        ensures
            r@ == self@,
    {
        BigNum { limbs: self.limbs.clone() }
    }
}

/// Relies on `BigUint::new`, the `*` of two `BigUint`s and
/// `BigUint::to_u32_digits`: the product is exact, and the digits come
/// least significant first.
#[verifier::external_body]
pub(crate) fn big_mul(a: &BigNum, b: &BigNum) -> (r: BigNum)
    ensures
        r@ == a@ * b@,
{
    let p = BigUint::new(a.limbs.clone()) * BigUint::new(b.limbs.clone());
    BigNum { limbs: p.to_u32_digits() }
}

/// Relies on the `+` of two `BigUint`s: the sum is exact.
#[verifier::external_body]
pub(crate) fn big_add(a: &BigNum, b: &BigNum) -> (r: BigNum)
    ensures
        r@ == a@ + b@,
{
    let s = BigUint::new(a.limbs.clone()) + BigUint::new(b.limbs.clone());
    BigNum { limbs: s.to_u32_digits() }
}

/// Relies on the `-` of two `BigUint`s, which panics when the result would
/// be negative.
#[verifier::external_body]
pub(crate) fn big_sub(a: &BigNum, b: &BigNum) -> (r: BigNum)
    requires
        a@ >= b@,
    ensures
        r@ == a@ - b@,
{
    let d = BigUint::new(a.limbs.clone()) - BigUint::new(b.limbs.clone());
    BigNum { limbs: d.to_u32_digits() }
}

/// Relies on `num_integer::Integer::div_rem` for `BigUint`: floored quotient
/// and remainder; it panics on a zero divisor.
#[verifier::external_body]
pub(crate) fn big_div_rem(a: &BigNum, d: &BigNum) -> (r: (BigNum, BigNum))
    requires
        d@ > 0,
    ensures
        r.0@ == a@ / d@,
        r.1@ == a@ % d@,
{
    let (q, m) = BigUint::new(a.limbs.clone()).div_rem(&BigUint::new(d.limbs.clone()));
    (BigNum { limbs: q.to_u32_digits() }, BigNum { limbs: m.to_u32_digits() })
}

/// Relies on `num_integer::Integer::gcd` for `BigUint`: the greatest common
/// divisor, with `gcd(a, 0) == a`.
#[verifier::external_body]
pub(crate) fn big_gcd(a: &BigNum, b: &BigNum) -> (r: BigNum)
    ensures
        r@ == gcd(a@, b@),
{
    let g = BigUint::new(a.limbs.clone()).gcd(&BigUint::new(b.limbs.clone()));
    BigNum { limbs: g.to_u32_digits() }
}

/// Relies on `BigUint::pow`: exact exponentiation.
#[verifier::external_body]
pub(crate) fn big_pow(a: &BigNum, e: u32) -> (r: BigNum)
    ensures
        r@ == pow(a@ as int, e as nat),
{
    let p = BigUint::new(a.limbs.clone()).pow(e);
    BigNum { limbs: p.to_u32_digits() }
}

/// Relies on `BigUint::to_str_radix` with radix 16: lowercase digits, most
/// significant first, no leading zeros, and `"0"` for zero.
#[verifier::external_body]
pub(crate) fn big_to_hex(a: &BigNum) -> (r: String)
    ensures
        r@ == hex_text(a@),
{
    BigUint::new(a.limbs.clone()).to_str_radix(16)
}

/// Relies on `BigUint::parse_bytes` with radix 16, which reads a non-empty
/// run of hexadecimal digits of either case as a big-endian number.
#[verifier::external_body]
pub(crate) fn big_from_hex(s: &str) -> (r: Option<BigNum>)
    requires
        is_hex_string(s@),
    ensures
        r is Some,
        r.unwrap()@ == hex_value(s@),
{
    Some(BigNum { limbs: BigUint::parse_bytes(s.as_bytes(), 16)?.to_u32_digits() })
}

/// Relies on `BigUint::bits`: the number of bits needed to write the value,
/// zero for zero.
#[verifier::external_body]
pub(crate) fn big_bits(a: &BigNum) -> (r: u64)
    ensures
        a@ < pow(2, r as nat),
        r > 0 ==> pow(2, (r - 1) as nat) <= a@,
{
    BigUint::new(a.limbs.clone()).bits()
}

} // verus!
