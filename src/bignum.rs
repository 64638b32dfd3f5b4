use crate::arith::{bit_len, gcd, is_mod_inverse, is_prime, pow_mod};
use rug::integer::{IntegerExt64, Order};
use rug::rand::RandState;
use rug::Integer;
use vstd::arithmetic::div_mod::{lemma_fundamental_div_mod, lemma_fundamental_div_mod_converse};
use vstd::arithmetic::power::{lemma_pow0, lemma_pow1, lemma_pow_adds, pow};
use vstd::arithmetic::power2::pow2;
use vstd::prelude::*;

verus! {

#[verifier::external_type_specification]
#[verifier::external_body]
pub struct ExRandState<'a>(RandState<'a>);

/// The value of a big-endian byte string.
pub open spec fn be_value(s: Seq<u8>) -> nat
    decreases s.len(),
{
    if s.len() == 0 {
        0
    } else {
        be_value(s.drop_last()) * 256 + s.last() as nat
    }
}

/// The shortest big-endian byte string of `n` (empty for zero).
pub open spec fn be_bytes(n: nat) -> Seq<u8>
    decreases n,
{
    if n == 0 {
        Seq::empty()
    } else {
        be_bytes(n / 256).push((n % 256) as u8)
    }
}

/// A byte string without a leading zero byte.
pub open spec fn is_minimal(s: Seq<u8>) -> bool {
    s.len() == 0 || s[0] != 0
}

/// The result of the library's probable-prime test on `n` with `reps` rounds.
pub uninterp spec fn passes_prime_test(n: nat, reps: nat) -> bool;

/// A non-negative integer of any size, held as its shortest big-endian bytes.
#[derive(Debug, PartialEq, Eq)]
pub struct BigNat {
    digits: Vec<u8>,
}

impl View for BigNat {
    type V = nat;

    closed spec fn view(&self) -> nat {
        be_value(self.digits@)
    }
}

impl BigNat {
    #[verifier::type_invariant]
    closed spec fn shortest(self) -> bool {
        is_minimal(self.digits@)
    }

    /// Reads a big-endian byte string; leading zero bytes are allowed.
    pub fn from_bytes_be(bytes: &[u8]) -> (r: BigNat)
        ensures
            r@ == be_value(bytes@),
    {
        let mut start: usize = 0;
        assert(bytes@.subrange(0, bytes@.len() as int) =~= bytes@);
        while start < bytes.len() && bytes[start] == 0
            invariant
                start <= bytes@.len(),
                be_value(bytes@.subrange(start as int, bytes@.len() as int)) == be_value(bytes@),
            decreases bytes@.len() - start,
        {
            proof {
                lemma_drop_leading_zero(bytes@.subrange(start as int, bytes@.len() as int));
                assert(bytes@.subrange(start as int, bytes@.len() as int).subrange(
                    1,
                    bytes@.len() - start,
                ) =~= bytes@.subrange(start + 1, bytes@.len() as int));
            }
            start = start + 1;
        }
        let mut digits: Vec<u8> = Vec::new();
        let mut i: usize = start;
        while i < bytes.len()
            invariant
                start <= i <= bytes@.len(),
                digits@ =~= bytes@.subrange(start as int, i as int),
            decreases bytes@.len() - i,
        {
            digits.push(bytes[i]);
            i = i + 1;
        }
        assert(digits@ =~= bytes@.subrange(start as int, bytes@.len() as int));
        BigNat { digits }
    }

    /// The shortest big-endian bytes of the value (empty for zero).
    pub fn to_bytes_be(&self) -> (r: Vec<u8>)
        ensures
            r@ == be_bytes(self@),
            be_value(r@) == self@,
    {
        proof {
            use_type_invariant(self);
            lemma_be_bytes_of_minimal(self.digits@);
        }
        self.digits.clone()
    }

    pub fn is_zero(&self) -> (r: bool)
        ensures
            r == (self@ == 0),
    {
        proof {
            use_type_invariant(self);
            if self.digits@.len() > 0 {
                lemma_be_value_at_least_first(self.digits@);
            }
        }
        self.digits.len() == 0
    }

    pub fn is_odd(&self) -> (r: bool)
        ensures
            r == (self@ % 2 == 1),
    {
        if self.digits.len() == 0 {
            false
        } else {
            let last = self.digits[self.digits.len() - 1];
            proof {
                let s = self.digits@;
                assert(be_value(s) == be_value(s.drop_last()) * 256 + s.last() as nat);
                assert((be_value(s.drop_last()) * 256 + s.last() as nat) % 2 == (s.last() as nat)
                    % 2) by (nonlinear_arith);
            }
            last % 2 == 1
        }
    }

    /// A second value equal to this one.
    pub fn duplicate(&self) -> (r: BigNat)
        ensures
            r@ == self@,
    {
        proof {
            use_type_invariant(self);
        }
        BigNat { digits: self.digits.clone() }
    }

    /// `self` raised to `e`, modulo an odd `m`, with an exponentiation whose
    /// timing does not depend on the exponent's bits when the exponent is
    /// positive.
    pub fn pow_mod_secure(&self, e: &BigNat, m: &BigNat) -> (r: BigNat)
        requires
            m@ % 2 == 1,
        ensures
            r@ == pow_mod(self@, e@, m@),
            r@ < m@,
    {
        if e.is_zero() {
            proof {
                vstd::arithmetic::power::lemma_pow0(self@ as int);
            }
            let one = from_u64(1);
            modulo(&one, m)
        } else {
            secure_pow_mod(self, e, m)
        }
    }
}

pub proof fn lemma_drop_leading_zero(s: Seq<u8>)
    requires
        s.len() > 0,
        s[0] == 0,
    ensures
        be_value(s) == be_value(s.subrange(1, s.len() as int)),
    decreases s.len(),
{
    let t = s.subrange(1, s.len() as int);
    if s.len() == 1 {
        assert(s.drop_last().len() == 0);
        assert(t.len() == 0);
        assert(be_value(s.drop_last()) == 0);
        assert(be_value(s) == be_value(s.drop_last()) * 256 + s.last() as nat);
    } else {
        lemma_drop_leading_zero(s.drop_last());
        assert(s.drop_last().subrange(1, s.len() - 1) =~= t.drop_last());
        assert(t.last() == s.last());
        assert(be_value(t) == be_value(t.drop_last()) * 256 + t.last() as nat);
        assert(be_value(s) == be_value(s.drop_last()) * 256 + s.last() as nat);
    }
}

pub proof fn lemma_be_value_at_least_first(s: Seq<u8>)
    requires
        s.len() > 0,
    ensures
        be_value(s) >= s[0],
    decreases s.len(),
{
    if s.len() > 1 {
        lemma_be_value_at_least_first(s.drop_last());
    } else {
        assert(s.drop_last().len() == 0);
    }
}

pub proof fn lemma_be_bytes_of_minimal(s: Seq<u8>)
    requires
        is_minimal(s),
    ensures
        be_bytes(be_value(s)) == s,
    decreases s.len(),
{
    if s.len() > 0 {
        let v = be_value(s);
        let w = be_value(s.drop_last());
        lemma_be_value_at_least_first(s);
        lemma_fundamental_div_mod_converse(v as int, 256, w as int, s.last() as int);
        if s.len() > 1 {
            lemma_be_bytes_of_minimal(s.drop_last());
        } else {
            assert(s.drop_last() =~= Seq::<u8>::empty());
        }
        assert(be_bytes(v) == be_bytes(v / 256).push((v % 256) as u8));
        assert(s.drop_last().push(s.last()) =~= s);
    }
}

/// Reading the shortest bytes of `n` gives `n` back.
pub proof fn lemma_be_value_of_bytes(n: nat)
    ensures
        be_value(be_bytes(n)) == n,
    decreases n,
{
    if n > 0 {
        lemma_be_value_of_bytes(n / 256);
        let s = be_bytes(n / 256).push((n % 256) as u8);
        assert(s.drop_last() =~= be_bytes(n / 256));
        lemma_fundamental_div_mod(n as int, 256);
    }
}

/// A smaller number has no more bytes.
pub proof fn lemma_be_bytes_len_monotone(c: nat, p: nat)
    requires
        c <= p,
    ensures
        be_bytes(c).len() <= be_bytes(p).len(),
    decreases p,
{
    if c > 0 {
        vstd::arithmetic::div_mod::lemma_div_is_ordered(c as int, p as int, 256);
        lemma_be_bytes_len_monotone(c / 256, p / 256);
    }
}

/// The shortest bytes of a number have no leading zero.
pub proof fn lemma_be_bytes_minimal(n: nat)
    ensures
        is_minimal(be_bytes(n)),
    decreases n,
{
    if n > 0 {
        lemma_be_bytes_minimal(n / 256);
        if n / 256 == 0 {
            lemma_fundamental_div_mod(n as int, 256);
            assert(be_bytes(n / 256) =~= Seq::<u8>::empty());
        }
    }
}

/// A byte string's value lies below `256^len`.
pub proof fn lemma_be_value_upper(s: Seq<u8>)
    ensures
        be_value(s) < pow(256, s.len()),
    decreases s.len(),
{
    if s.len() == 0 {
        lemma_pow0(256);
    } else {
        lemma_be_value_upper(s.drop_last());
        lemma_pow_adds(256, 1, (s.len() - 1) as nat);
        lemma_pow1(256);
        let w = be_value(s.drop_last());
        let pw = pow(256, (s.len() - 1) as nat);
        assert(w * 256 + s.last() < pw * 256) by (nonlinear_arith)
            requires
                w < pw,
                s.last() < 256,
        ;
    }
}

/// A byte string whose first byte is not zero has a value of at least
/// `256^(len - 1)`.
pub proof fn lemma_be_value_lower(s: Seq<u8>)
    requires
        s.len() > 0,
        s[0] != 0,
    ensures
        be_value(s) >= pow(256, (s.len() - 1) as nat),
    decreases s.len(),
{
    if s.len() == 1 {
        lemma_pow0(256);
        assert(s.drop_last().len() == 0);
    } else {
        lemma_be_value_lower(s.drop_last());
        lemma_pow_adds(256, 1, (s.len() - 2) as nat);
        lemma_pow1(256);
        let w = be_value(s.drop_last());
        let pw = pow(256, (s.len() - 2) as nat);
        assert(w * 256 + s.last() >= pw * 256) by (nonlinear_arith)
            requires
                w >= pw,
        ;
    }
}

/// Relies on `Integer::from(u64)`: the integer of the given value.
#[verifier::external_body]
pub(crate) fn from_u64(v: u64) -> (r: BigNat)
    ensures
        r@ == v,
{
    BigNat { digits: Integer::from(v).to_digits::<u8>(Order::MsfBe) }
}

/// Relies on `Integer`'s `<`: the comparison of the two values.
#[verifier::external_body]
pub(crate) fn less_than(a: &BigNat, b: &BigNat) -> (r: bool)
    ensures
        r == (a@ < b@),
{
    Integer::from_digits(&a.digits, Order::MsfBe) < Integer::from_digits(&b.digits, Order::MsfBe)
}

/// Relies on `Integer`'s `+`: the sum.
#[verifier::external_body]
pub(crate) fn plus(a: &BigNat, b: &BigNat) -> (r: BigNat)
    ensures
        r@ == a@ + b@,
{
    let s = Integer::from_digits(&a.digits, Order::MsfBe) + Integer::from_digits(&b.digits, Order::MsfBe);
    BigNat { digits: s.to_digits::<u8>(Order::MsfBe) }
}

/// Relies on `Integer`'s `-`: the difference, which is not negative here.
#[verifier::external_body]
pub(crate) fn minus(a: &BigNat, b: &BigNat) -> (r: BigNat)
    requires
        b@ <= a@,
    ensures
        r@ == a@ - b@,
{
    let s = Integer::from_digits(&a.digits, Order::MsfBe) - Integer::from_digits(&b.digits, Order::MsfBe);
    BigNat { digits: s.to_digits::<u8>(Order::MsfBe) }
}

/// Relies on `Integer`'s `*`: the product.
#[verifier::external_body]
pub(crate) fn times(a: &BigNat, b: &BigNat) -> (r: BigNat)
    ensures
        r@ == a@ * b@,
{
    let s = Integer::from_digits(&a.digits, Order::MsfBe) * Integer::from_digits(&b.digits, Order::MsfBe);
    BigNat { digits: s.to_digits::<u8>(Order::MsfBe) }
}

/// Relies on `Integer`'s `/`: the quotient, rounded toward zero, which for
/// non-negative operands is the floor.
#[verifier::external_body]
pub(crate) fn quotient(a: &BigNat, b: &BigNat) -> (r: BigNat)
    requires
        b@ > 0,
    ensures
        r@ == a@ / b@,
{
    let s = Integer::from_digits(&a.digits, Order::MsfBe) / Integer::from_digits(&b.digits, Order::MsfBe);
    BigNat { digits: s.to_digits::<u8>(Order::MsfBe) }
}

/// Relies on `Integer`'s `%`: the remainder, which is not negative for
/// non-negative operands.
#[verifier::external_body]
pub(crate) fn modulo(a: &BigNat, m: &BigNat) -> (r: BigNat)
    requires
        m@ > 0,
    ensures
        r@ == a@ % m@,
{
    let s = Integer::from_digits(&a.digits, Order::MsfBe) % Integer::from_digits(&m.digits, Order::MsfBe);
    BigNat { digits: s.to_digits::<u8>(Order::MsfBe) }
}

/// Relies on `Integer::gcd`: the greatest common divisor.
#[verifier::external_body]
pub(crate) fn gcd_of(a: &BigNat, b: &BigNat) -> (r: BigNat)
    ensures
        r@ == gcd(a@, b@),
{
    let s = Integer::from_digits(&a.digits, Order::MsfBe).gcd(&Integer::from_digits(&b.digits, Order::MsfBe));
    BigNat { digits: s.to_digits::<u8>(Order::MsfBe) }
}

/// Relies on `Integer::invert`: an inverse in `[0, m)` exists exactly when
/// `m` is not zero and `gcd(a, m) == 1`.
#[verifier::external_body]
pub(crate) fn invert(a: &BigNat, m: &BigNat) -> (r: Option<BigNat>)
    ensures
        r is Some <==> (m@ != 0 && gcd(a@, m@) == 1),
        r matches Some(w) ==> is_mod_inverse(a@, w@, m@),
{
    let s = Integer::from_digits(&a.digits, Order::MsfBe).invert(&Integer::from_digits(&m.digits, Order::MsfBe));
    s.ok().map(|v| BigNat { digits: v.to_digits::<u8>(Order::MsfBe) })
}

/// Relies on `Integer::secure_pow_mod`, which panics on a zero exponent or
/// an even modulus.
#[verifier::external_body]
fn secure_pow_mod(b: &BigNat, e: &BigNat, m: &BigNat) -> (r: BigNat)
    requires
        e@ > 0,
        m@ % 2 == 1,
    ensures
        r@ == pow_mod(b@, e@, m@),
{
    let s = Integer::from_digits(&b.digits, Order::MsfBe).secure_pow_mod(
        &Integer::from_digits(&e.digits, Order::MsfBe),
        &Integer::from_digits(&m.digits, Order::MsfBe),
    );
    BigNat { digits: s.to_digits::<u8>(Order::MsfBe) }
}

/// Relies on `Integer::is_probably_prime`: GMP's deterministic test (trial
/// division, Baillie-PSW, then Miller-Rabin rounds), which never reports a
/// prime as composite.
#[verifier::external_body]
pub(crate) fn probably_prime(n: &BigNat, reps: u32) -> (r: bool)
    requires
        reps <= i32::MAX,
    ensures
        r == passes_prime_test(n@, reps as nat),
        is_prime(n@) ==> r,
{
    Integer::from_digits(&n.digits, Order::MsfBe).is_probably_prime(reps) != rug::integer::IsPrime::No
}

/// Relies on `IntegerExt64::significant_bits_64`: the number of significant
/// bits.
#[verifier::external_body]
pub(crate) fn significant_bits(n: &BigNat) -> (r: u64)
    ensures
        r == bit_len(n@),
{
    Integer::from_digits(&n.digits, Order::MsfBe).significant_bits_64()
}

/// Relies on `Integer::set_bit`: bit `index` of the result is set and the
/// others are those of `n`.
#[verifier::external_body]
pub(crate) fn set_bit(n: &BigNat, index: u32) -> (r: BigNat)
    ensures
        r@ == if (n@ / pow2(index as nat)) % 2 == 1 {
            n@
        } else {
            n@ + pow2(index as nat)
        },
{
    let mut s = Integer::from_digits(&n.digits, Order::MsfBe);
    s.set_bit(index, true);
    BigNat { digits: s.to_digits::<u8>(Order::MsfBe) }
}

/// Relies on `IntegerExt64::random_bits_64`: a value of at most `bits` bits.
#[verifier::external_body]
pub(crate) fn random_bits(bits: u64, rng: &mut RandState<'_>) -> (r: BigNat)
    ensures
        r@ < pow2(bits as nat),
{
    let s = Integer::from(Integer::random_bits_64(bits, rng));
    BigNat { digits: s.to_digits::<u8>(Order::MsfBe) }
}

/// Relies on `Integer::random_below`, which panics on a bound of zero.
#[verifier::external_body]
pub(crate) fn random_below(bound: &BigNat, rng: &mut RandState<'_>) -> (r: BigNat)
    requires
        bound@ > 0,
    ensures
        r@ < bound@,
{
    let s = Integer::from_digits(&bound.digits, Order::MsfBe).random_below(rng);
    BigNat { digits: s.to_digits::<u8>(Order::MsfBe) }
}

/// Relies on `RandState::bits`, which panics above 32 bits.
#[verifier::external_body]
pub(crate) fn random_small(bits: u32, rng: &mut RandState<'_>) -> (r: u32)
    requires
        bits <= 32,
    ensures
        r < pow2(bits as nat),
{
    rng.bits(bits)
}

/// Relies on `RandState::seed`: the generator's new state depends on the seed.
#[verifier::external_body]
pub(crate) fn seed_state(rng: &mut RandState<'_>, seed: &BigNat) {
    rng.seed(&Integer::from_digits(&seed.digits, Order::MsfBe))
}

} // verus!
