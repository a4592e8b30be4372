//! The bijection between page contents and addresses: multiplication by a
//! unit modulo |Σ|^L, and base-|Σ| digits.

use crate::bignum::{big_add, big_div_rem, big_gcd, big_mul, big_pow, big_sub, gcd, BigNum};
use crate::constants::{CLUSTERS_PER_PAGE, MULTIPLIER_SEED};
use vstd::arithmetic::div_mod::*;
use vstd::arithmetic::mul::*;
use vstd::arithmetic::power::*;
use vstd::prelude::*;

verus! {

/// The value of big-endian digits in base `base` (Horner's rule).
pub open spec fn digits_value(s: Seq<usize>, base: nat) -> nat
    decreases s.len(),
{
    if s.len() == 0 {
        0
    } else {
        digits_value(s.drop_last(), base) * base + s.last() as nat
    }
}

/// The `count` lowest base-`base` digits of `n`, most significant first.
pub open spec fn to_digits(n: nat, base: nat, count: nat) -> Seq<usize> {
    Seq::new(count, |j: int| ((n / pow(base as int, (count - 1 - j) as nat) as nat) % base) as usize)
}

/// Every entry is below `base`.
pub open spec fn digits_below(s: Seq<usize>, base: nat) -> bool {
    forall|i: int| 0 <= i < s.len() ==> (#[trigger] s[i] as nat) < base
}

/// Bijective mapping between page contents and addresses.
pub struct BijectionEngine {
    alphabet_size: BigNum,
    modulus: BigNum,
    multiplier: BigNum,
    inverse: BigNum,
}

impl BijectionEngine {
    /// |Σ|, the base of the digits.
    pub closed spec fn base(&self) -> nat {
        self.alphabet_size@
    }

    /// M = |Σ|^L.
    pub closed spec fn modulus_value(&self) -> nat {
        self.modulus@
    }

    /// The multiplier a.
    pub closed spec fn multiplier_value(&self) -> nat {
        self.multiplier@
    }

    /// The inverse of the multiplier modulo M.
    pub closed spec fn inverse_value(&self) -> nat {
        self.inverse@
    }

    /// The engine's parameters are those its construction fixes.
    pub open spec fn wf(&self) -> bool {
        &&& self.base() >= 2
        &&& self.base() <= usize::MAX
        &&& self.modulus_value() == pow(self.base() as int, CLUSTERS_PER_PAGE as nat)
        &&& is_least_coprime_from(
            MULTIPLIER_SEED as nat,
            self.modulus_value(),
            self.multiplier_value(),
        )
        &&& self.inverse_value() < self.modulus_value()
        &&& (self.multiplier_value() * self.inverse_value()) % self.modulus_value() == 1
    }

    /// Address of a content number.
    pub open spec fn spec_content_to_address(&self, c: nat) -> nat {
        (c * self.multiplier_value()) % self.modulus_value()
    }

    /// Content number of an address.
    pub open spec fn spec_address_to_content(&self, a: nat) -> nat {
        (a * self.inverse_value()) % self.modulus_value()
    }

    /// Builds the engine for an alphabet of `alphabet_size` symbols.
    pub fn new(alphabet_size: usize) -> (r: BijectionEngine)
        requires
            alphabet_size >= 2,
        ensures
            r.wf(),
            r.base() == alphabet_size as nat,
    {
        let alphabet_size = BigNum::from_u64(alphabet_size as u64);
        let modulus = big_pow(&alphabet_size, CLUSTERS_PER_PAGE as u32);
        proof {
            lemma_pow_increases(alphabet_size@, 1, CLUSTERS_PER_PAGE as nat);
            lemma_pow1(alphabet_size@ as int);
        }
        let multiplier = Self::generate_coprime(&modulus);
        let inverse = match Self::mod_inverse(&multiplier, &modulus) {
            Some(v) => v,
            None => {
                proof {
                    assert(false);
                }
                BigNum::zero()
            },
        };
        BijectionEngine { alphabet_size, modulus, multiplier, inverse }
    }

    /// The least number from `MULTIPLIER_SEED` on that is coprime to `n`.
    fn generate_coprime(n: &BigNum) -> (r: BigNum)
        requires
            n@ >= 1,
        ensures
            is_least_coprime_from(MULTIPLIER_SEED as nat, n@, r@),
    {
        let one = BigNum::from_u64(1);
        let mut c = BigNum::from_u128(MULTIPLIER_SEED);
        let ghost start = MULTIPLIER_SEED as nat;
        let ghost target: nat = (start / n@ + 1) * n@ + 1;
        proof {
            lemma_coprime_target(start, n@);
        }
        let mut g = big_gcd(&c, n);
        while !g.equals_u64(1)
            invariant
                one@ == 1,
                start <= c@ <= target,
                gcd(target, n@) == 1,
                g@ == gcd(c@, n@),
                forall|k: nat| start <= k < c@ ==> gcd(k, n@) != 1,
            decreases target - c@,
        {
            assert(c@ != target);
            c = big_add(&c, &one);
            g = big_gcd(&c, n);
        }
        c
    }

    /// The inverse of `a` modulo `m`, when `a` and `m` are coprime.
    fn mod_inverse(a: &BigNum, m: &BigNum) -> (r: Option<BigNum>)
        requires
            m@ >= 2,
        ensures
            r is Some <==> gcd(a@, m@) == 1,
            r matches Some(x) ==> x@ < m@ && (a@ * x@) % m@ == 1,
    {
        let (g, x) = Self::extended_gcd(a, m);
        if g.equals_u64(1) {
            proof {
                lemma_small_mod(1, m@);
            }
            Some(x)
        } else {
            None
        }
    }

    /// Euclid's algorithm, extended with the Bezout coefficient of `a`
    /// reduced modulo `m`: returns `(g, x)` with `g = gcd(a, m)`,
    /// `x < m` and `a * x ≡ g (mod m)`.
    fn extended_gcd(a: &BigNum, m: &BigNum) -> (r: (BigNum, BigNum))
        requires
            m@ >= 1,
        ensures
            r.0@ == gcd(a@, m@),
            r.1@ < m@,
            (a@ * r.1@) % m@ == r.0@ % m@,
    {
        let mut old_r = a.copy();
        let mut r = m.copy();
        let (_, mut old_s) = big_div_rem(&BigNum::from_u64(1), m);
        let mut s = BigNum::zero();
        let ghost mut os: int = 1;
        let ghost mut si: int = 0;
        let ghost mut ot: int = 0;
        let ghost mut ti: int = 1;
        proof {
            lemma_small_mod(0, m@);
        }
        while !r.is_zero()
            invariant
                m@ >= 1,
                gcd(old_r@, r@) == gcd(a@, m@),
                os * a@ + ot * m@ == old_r@,
                si * a@ + ti * m@ == r@,
                old_s@ == os % (m@ as int),
                s@ == si % (m@ as int),
            decreases r@,
        {
            let (q, rem) = big_div_rem(&old_r, &r);
            let qs = big_mul(&q, &s);
            let (_, qs_m) = big_div_rem(&qs, m);
            let t1 = big_add(&old_s, m);
            let t2 = big_sub(&t1, &qs_m);
            let (_, new_s) = big_div_rem(&t2, m);
            proof {
                lemma_mod_update(os, si, q@ as int, m@ as int);
                lemma_fundamental_div_mod(old_r@ as int, r@ as int);
                let (nos, nsi, not, nti) = (si, os - q@ * si, ti, ot - q@ * ti);
                assert(nsi * a@ + (ot - q@ * ti) * m@ == rem@) by (nonlinear_arith)
                    requires
                        nsi == os - q@ * si,
                        os * a@ + ot * m@ == old_r@,
                        si * a@ + ti * m@ == r@,
                        old_r@ == r@ * q@ + rem@,
                        q@ == old_r@ / r@,
                        rem@ == old_r@ % r@,
                ;
                os = nos;
                si = nsi;
                ot = not;
                ti = nti;
            }
            old_r = r;
            r = rem;
            old_s = s;
            s = new_s;
        }
        proof {
            lemma_mul_mod_noop_right(a@ as int, os, m@ as int);
            lemma_mod_multiples_vanish(-ot, old_r@ as int, m@ as int);
            assert(a@ * os == m@ * (-ot) + old_r@) by (nonlinear_arith)
                requires
                    os * a@ + ot * m@ == old_r@,
            ;
        }
        (old_r, old_s)
    }

    /// content → address, used by search.
    pub fn content_to_address(&self, content: &BigNum) -> (r: BigNum)
        requires
            self.wf(),
        ensures
            r@ == self.spec_content_to_address(content@),
    {
        let p = big_mul(content, &self.multiplier);
        let (_, r) = big_div_rem(&p, &self.modulus);
        r
    }

    /// address → content, used by browsing.
    pub fn address_to_content(&self, address: &BigNum) -> (r: BigNum)
        requires
            self.wf(),
        ensures
            r@ == self.spec_address_to_content(address@),
    {
        let p = big_mul(address, &self.inverse);
        let (_, r) = big_div_rem(&p, &self.modulus);
        r
    }

    /// The number whose base-|Σ| digits, most significant first, are `indices`.
    pub fn indices_to_biguint(&self, indices: &[usize]) -> (r: BigNum)
        requires
            self.wf(),
        ensures
            r@ == digits_value(indices@, self.base()),
    {
        let mut result = BigNum::zero();
        let mut i: usize = 0;
        while i < indices.len()
            invariant
                i <= indices@.len(),
                result@ == digits_value(indices@.take(i as int), self.base()),
            decreases indices@.len() - i,
        {
            let scaled = big_mul(&result, &self.alphabet_size);
            result = big_add(&scaled, &BigNum::from_u64(indices[i] as u64));
            proof {
                assert(indices@.take(i + 1).drop_last() =~= indices@.take(i as int));
            }
            i = i + 1;
        }
        proof {
            assert(indices@.take(i as int) =~= indices@);
        }
        result
    }

    /// The `count` lowest base-|Σ| digits of `num`, most significant first.
    pub fn biguint_to_indices(&self, num: BigNum, count: usize) -> (r: Vec<usize>)
        requires
            self.wf(),
        ensures
            r@ == to_digits(num@, self.base(), count as nat),
    {
        let ghost n = num@;
        let ghost b = self.base();
        let mut indices: Vec<usize> = Vec::new();
        let mut k: usize = 0;
        while k < count
            invariant
                k <= count,
                indices@.len() == k,
            decreases count - k,
        {
            indices.push(0);
            k = k + 1;
        }
        let mut num = num;
        let mut i: usize = count;
        proof {
            lemma_pow0(b as int);
            assert(n / 1nat == n);
        }
        while i > 0
            invariant
                b == self.base(),
                self.wf(),
                i <= count,
                indices@.len() == count,
                num@ == n / pow(b as int, (count - i) as nat) as nat,
                forall|j: int| i <= j < count ==> indices@[j] == #[trigger] to_digits(n, b, count as nat)[j],
            decreases i,
        {
            i = i - 1;
            let (q, d) = big_div_rem(&num, &self.alphabet_size);
            let digit: usize = match d.to_u64() {
                Some(v) => v as usize,
                None => 0,
            };
            proof {
                let p = pow(b as int, (count - 1 - i) as nat);
                lemma_pow_positive(b as int, (count - 1 - i) as nat);
                lemma_pow_step(b as int, (count - i) as nat);
                lemma_div_denominator(n as int, p, b as int);
                assert(p * b == b * p);
                assert(d@ < b);
                assert(b <= usize::MAX);
            }
            indices.set(i, digit);
            num = q;
        }
        proof {
            assert(indices@ =~= to_digits(n, b, count as nat));
        }
        indices
    }

    /// M = |Σ|^L.
    pub fn modulus(&self) -> (r: &BigNum)
        ensures
            r@ == self.modulus_value(),
    {
        &self.modulus
    }

    /// |Σ|.
    pub fn alphabet_size(&self) -> (r: &BigNum)
        ensures
            r@ == self.base(),
    {
        &self.alphabet_size
    }
}

/// One step of the power's recurrence.
proof fn lemma_pow_step(b: int, e: nat)
    requires
        e > 0,
    ensures
        pow(b, e) == b * pow(b, (e - 1) as nat),
{
    reveal(pow);
}

/// `x` is the least number from `start` on that is coprime to `n`.
pub open spec fn is_least_coprime_from(start: nat, n: nat, x: nat) -> bool {
    &&& start <= x
    &&& gcd(x, n) == 1
    &&& forall|k: nat| start <= k < x ==> gcd(k, n) != 1
}

/// The first number past `start` that is one more than a multiple of `n` is
/// coprime to `n`, so the search for a coprime multiplier ends.
proof fn lemma_coprime_target(start: nat, n: nat)
    requires
        n >= 1,
    ensures
        gcd((start / n + 1) * n + 1, n) == 1,
        start < (start / n + 1) * n + 1,
{
    let k = start / n + 1;
    let t = k * n + 1;
    lemma_fundamental_div_mod(start as int, n as int);
    assert(k * n == n * k) by (nonlinear_arith);
    assert(n * (start / n) + n == n * k) by (nonlinear_arith)
        requires
            k == start / n + 1,
    ;
    lemma_mod_multiples_vanish(k as int, 1, n as int);
    assert(t % n == 1nat % n);
    assert(gcd(t, n) == gcd(n, t % n));
    if n == 1 {
        assert(gcd(1nat, 0nat) == 1);
    } else {
        lemma_small_mod(1, n);
        assert(gcd(n, 1nat) == gcd(1nat, n % 1));
        assert(gcd(1nat, 0nat) == 1);
    }
}

/// One step of the coefficient update, done modulo `m` on naturals.
proof fn lemma_mod_update(x: int, y: int, q: int, m: int)
    requires
        m > 0,
    ensures
        ((x % m) + m - ((q * (y % m)) % m)) % m == (x - q * y) % m,
{
    lemma_mul_mod_noop_right(q, y, m);
    lemma_fundamental_div_mod(x, m);
    lemma_fundamental_div_mod(q * y, m);
    let k = 1 - x / m + (q * y) / m;
    assert((x % m) + m - ((q * y) % m) == m * k + (x - q * y)) by (nonlinear_arith)
        requires
            x == m * (x / m) + x % m,
            q * y == m * ((q * y) / m) + (q * y) % m,
            k == 1 - x / m + (q * y) / m,
    ;
    lemma_mod_multiples_vanish(k, x - q * y, m);
}

/// Decoding an encoded content gives it back: for `c < M`,
/// `address_to_content(content_to_address(c)) == c`.
pub proof fn lemma_content_address_round_trip(e: &BijectionEngine, c: nat)
    requires
        e.wf(),
        c < e.modulus_value(),
    ensures
        e.spec_address_to_content(e.spec_content_to_address(c)) == c,
{
    lemma_cancel_unit(c, e.multiplier_value(), e.inverse_value(), e.modulus_value());
}

/// Encoding a decoded address gives it back: for `a < M`,
/// `content_to_address(address_to_content(a)) == a`.
pub proof fn lemma_address_content_round_trip(e: &BijectionEngine, a: nat)
    requires
        e.wf(),
        a < e.modulus_value(),
    ensures
        e.spec_content_to_address(e.spec_address_to_content(a)) == a,
{
    assert(e.inverse_value() * e.multiplier_value() == e.multiplier_value() * e.inverse_value())
        by (nonlinear_arith);
    lemma_cancel_unit(a, e.inverse_value(), e.multiplier_value(), e.modulus_value());
}

/// Multiplying by `u` and then by `v`, where `u * v ≡ 1 (mod m)`, is the identity on `[0, m)`.
proof fn lemma_cancel_unit(x: nat, u: nat, v: nat, m: nat)
    requires
        x < m,
        (u * v) % m == 1,
    ensures
        (((x * u) % m) * v) % m == x,
{
    lemma_mul_mod_noop_left((x * u) as int, v as int, m as int);
    lemma_mul_is_associative(x as int, u as int, v as int);
    lemma_mul_mod_noop_right(x as int, (u * v) as int, m as int);
    lemma_small_mod(x, m);
}

/// Digits below the base read back from their value: `to_digits(digits_value(s), |s|) == s`.
pub proof fn lemma_digits_round_trip(s: Seq<usize>, base: nat)
    requires
        1 <= base <= usize::MAX,
        digits_below(s, base),
    ensures
        to_digits(digits_value(s, base), base, s.len()) == s,
{
    lemma_digits_positional(s, base);
    assert(to_digits(digits_value(s, base), base, s.len()) =~= s);
}

/// The value of digits below the base is below `base^|s|`, and its digit at
/// each position is the entry there.
pub(crate) proof fn lemma_digits_positional(s: Seq<usize>, base: nat)
    requires
        1 <= base <= usize::MAX,
        digits_below(s, base),
    ensures
        digits_value(s, base) < pow(base as int, s.len()),
        forall|j: int|
            0 <= j < s.len() ==> ((digits_value(s, base) / pow(base as int, (s.len() - 1 - j) as nat) as nat)
                % base) as usize == #[trigger] s[j],
    decreases s.len(),
{
    let n = s.len();
    if n == 0 {
        lemma_pow0(base as int);
    } else {
        let t = s.drop_last();
        let v = digits_value(t, base);
        let last = s.last() as nat;
        assert(digits_below(t, base)) by {
            assert forall|i: int| 0 <= i < t.len() implies (#[trigger] t[i] as nat) < base by {
                assert(t[i] == s[i]);
            }
        }
        lemma_digits_positional(t, base);
        let p = pow(base as int, (n - 1) as nat);
        lemma_pow_step(base as int, n);
        assert(last < base);
        assert(v * base + last < base * p) by (nonlinear_arith)
            requires
                v < p,
                last < base,
        ;
        let full = v * base + last;
        lemma_fundamental_div_mod_converse(full as int, base as int, v as int, last as int);
        assert forall|j: int| 0 <= j < n implies ((full / pow(base as int, (n - 1 - j) as nat) as nat)
            % base) as usize == #[trigger] s[j] by {
            if j == n - 1 {
                lemma_pow0(base as int);
                assert(full / 1nat == full);
                assert((full % base) as usize == s[j]);
            } else {
                let e = (n - 2 - j) as nat;
                lemma_pow_positive(base as int, e);
                lemma_pow_step(base as int, (n - 1 - j) as nat);
                assert(pow(base as int, (n - 1 - j) as nat) == base * pow(base as int, e));
                lemma_div_denominator(full as int, base as int, pow(base as int, e));
                assert(full / pow(base as int, (n - 1 - j) as nat) as nat == v / pow(base as int, e) as nat);
                assert(t[j] == s[j]);
                assert(((v / pow(base as int, (t.len() - 1 - j) as nat) as nat) % base) as usize == t[j]);
            }
        }
    }
}

/// Reading `count` digits of `n` and taking their value gives `n` back, when `n < base^count`.
pub proof fn lemma_value_of_digits(n: nat, base: nat, count: nat)
    requires
        1 <= base <= usize::MAX,
        n < pow(base as int, count),
    ensures
        digits_value(to_digits(n, base, count), base) == n,
{
    lemma_digits_value_mod(n, base, count);
    lemma_small_mod(n, pow(base as int, count) as nat);
}

/// The value of `count` digits of `n` is `n mod base^count`.
proof fn lemma_digits_value_mod(n: nat, base: nat, count: nat)
    requires
        1 <= base <= usize::MAX,
    ensures
        pow(base as int, count) > 0,
        digits_value(to_digits(n, base, count), base) == n % (pow(base as int, count) as nat),
    decreases count,
{
    lemma_pow_positive(base as int, count);
    if count == 0 {
        lemma_pow0(base as int);
    } else {
        let d = to_digits(n, base, count);
        let c1 = (count - 1) as nat;
        let p = pow(base as int, c1);
        lemma_digits_value_mod(n / base, base, c1);
        assert forall|j: int| 0 <= j < c1 implies #[trigger] d.drop_last()[j] == to_digits(
            n / base,
            base,
            c1,
        )[j] by {
            let e = (c1 - 1 - j) as nat;
            lemma_pow_positive(base as int, e);
            lemma_pow_step(base as int, (count - 1 - j) as nat);
            lemma_div_denominator(n as int, base as int, pow(base as int, e));
        }
        assert(d.drop_last() =~= to_digits(n / base, base, c1));
        lemma_pow0(base as int);
        assert(n / 1nat == n);
        assert(d.last() == d[count - 1]);
        assert(d[count - 1] == ((n / pow(base as int, 0) as nat) % base) as usize);
        assert(d.last() as nat == n % base);
        lemma_breakdown(n as int, base as int, p);
        lemma_pow_step(base as int, count);
        assert(((n / base) % (p as nat)) * base == base * ((n / base) % (p as nat))) by (nonlinear_arith);
    }
}

} // verus!
