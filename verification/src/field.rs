//! Prime fields: the arithmetic interface the rest of the library is written against,
//! with its meaning stated over integers modulo the field's characteristic, and one
//! concrete prime field that implements it.
use vstd::arithmetic::div_mod::*;
use vstd::arithmetic::mul::*;
use vstd::prelude::*;

verus! {

/// `p` is a prime number.
pub open spec fn is_prime(p: nat) -> bool {
    p > 1 && forall|d: nat| 1 < d < p ==> #[trigger] (p % d) != 0
}

/// The integer whose little-endian binary digits are `bits`.
pub open spec fn bits_value(bits: Seq<bool>) -> nat
    decreases bits.len(),
{
    if bits.len() == 0 {
        0
    } else {
        (if bits[0] {
            1nat
        } else {
            0nat
        }) + 2 * bits_value(bits.drop_first())
    }
}

/// Elements of a prime field.
///
/// Every element stands for the integer `val()`, which lies in `[0, modulus())`, and
/// every operation is stated as the corresponding integer operation reduced modulo
/// `modulus()`, which each implementation proves to be a prime.
pub trait PrimeField: Sized + Copy + Send + Sync {
    /// The characteristic of the field.
    spec fn modulus() -> nat;

    /// The canonical integer that this element stands for.
    spec fn val(&self) -> nat;

    /// The characteristic is a prime.
    proof fn lemma_modulus_is_prime()
        ensures
            is_prime(Self::modulus()),
    ;

    /// Values are canonical.
    proof fn lemma_val_bound(x: &Self)
        ensures
            x.val() < Self::modulus(),
    ;

    /// The additive identity.
    fn zero() -> (r: Self)
        ensures
            r.val() == 0,
    ;

    /// The multiplicative identity.
    fn one() -> (r: Self)
        ensures
            r.val() == 1,
    ;

    /// The image of an integer in the field.
    fn from_u64(n: u64) -> (r: Self)
        ensures
            r.val() == n as nat % Self::modulus(),
    ;

    /// Field addition.
    fn add(&self, other: &Self) -> (r: Self)
        ensures
            r.val() == (self.val() + other.val()) % Self::modulus(),
    ;

    /// Field subtraction.
    fn sub(&self, other: &Self) -> (r: Self)
        ensures
            r.val() as int == (self.val() - other.val()) % (Self::modulus() as int),
    ;

    /// Additive inverse.
    fn neg(&self) -> (r: Self)
        ensures
            r.val() as int == (0 - self.val()) % (Self::modulus() as int),
    ;

    /// Field multiplication.
    fn mul(&self, other: &Self) -> (r: Self)
        ensures
            r.val() == (self.val() * other.val()) % Self::modulus(),
    ;

    /// `self + self`.
    fn double(&self) -> (r: Self)
        ensures
            r.val() == (self.val() + self.val()) % Self::modulus(),
    ;

    /// Multiplicative inverse, present exactly for the non-zero elements.
    fn invert(&self) -> (r: Option<Self>)
        ensures
            r is Some <==> self.val() != 0,
            r matches Some(x) ==> (self.val() * x.val()) % Self::modulus() == 1,
    ;

    /// Equality of field elements.
    fn equals(&self, other: &Self) -> (r: bool)
        ensures
            r == (self.val() == other.val()),
    ;

    /// The little-endian bits of the canonical value.
    fn to_le_bits(&self) -> (r: Vec<bool>)
        ensures
            bits_value(r@) == self.val(),
    ;
}

/// Extended Euclid: `(g, x, y)` with `g == a * x + b * y`, where `g` is positive and
/// divides both `a` and `b`.
pub proof fn lemma_bezout(a: int, b: int) -> (r: (int, int, int))
    requires
        a >= 0,
        b >= 0,
        a > 0 || b > 0,
    ensures
        r.0 > 0,
        r.0 == a * r.1 + b * r.2,
        a % r.0 == 0,
        b % r.0 == 0,
    decreases b,
{
    if b == 0 {
        lemma_mod_self_0(a);
        lemma_small_mod(0, a as nat);
        (a, 1, 0)
    } else {
        lemma_mod_bound(a, b);
        let q = a / b;
        let m = a % b;
        let (g, x1, y1) = lemma_bezout(b, m);
        lemma_fundamental_div_mod(a, b);
        assert(a == b * q + m);
        assert(g == a * y1 + b * (x1 - q * y1)) by (nonlinear_arith)
            requires
                g == b * x1 + m * y1,
                a == b * q + m,
        ;
        lemma_fundamental_div_mod(b, g);
        lemma_fundamental_div_mod(m, g);
        let kb = b / g;
        let km = m / g;
        assert(a == (kb * q + km) * g) by (nonlinear_arith)
            requires
                a == b * q + m,
                b == g * kb + b % g,
                m == g * km + m % g,
                b % g == 0,
                m % g == 0,
        ;
        lemma_mod_multiples_basic(kb * q + km, g);
        (g, y1, x1 - q * y1)
    }
}

/// In a prime field every non-zero element has an inverse.
pub proof fn lemma_inverse_exists(a: nat, p: nat)
    requires
        is_prime(p),
        a % p != 0,
    ensures
        exists|x: nat| x < p && #[trigger] ((a * x) % p) == 1,
{
    let a0 = a % p;
    lemma_mod_bound(a as int, p as int);
    let (g, x, y) = lemma_bezout(a0 as int, p as int);
    if g != 1 {
        // g divides p and a0 < p, so g is a proper divisor of p
        lemma_mod_is_zero(a0, g as nat);
        assert(1 < g < p);
        assert(p % (g as nat) != 0);
        assert(false);
    }
    // a0 * x + p * y == 1, so a * (x mod p) == 1 mod p
    let xm = x % (p as int);
    lemma_mod_bound(x, p as int);
    assert((a0 * x + p * y) % (p as int) == 1) by {
        lemma_small_mod(1, p);
    }
    lemma_mod_multiples_vanish(y, a0 * x, p as int);
    assert((p * y + a0 * x) == (a0 * x + p * y));
    lemma_mul_mod_noop_general(a0 as int, x, p as int);
    lemma_mul_mod_noop_general(a as int, xm, p as int);
    lemma_mod_twice(a as int, p as int);
    assert(((a * (xm as nat)) % p) == 1);
}

/// Over a prime, a product vanishes only if a factor does.
pub proof fn lemma_no_zero_divisors(a: int, b: int, p: nat)
    requires
        is_prime(p),
        (a * b) % (p as int) == 0,
    ensures
        a % (p as int) == 0 || b % (p as int) == 0,
{
    if a % (p as int) != 0 {
        lemma_mod_bound(a, p as int);
        let an = (a % (p as int)) as nat;
        lemma_mod_twice(a, p as int);
        lemma_inverse_exists(an, p);
        let x = choose|x: nat| x < p && #[trigger] ((an * x) % p) == 1;
        // b == b * (a * x) == (a * b) * x == 0 (mod p)
        lemma_mul_mod_noop_general(a, x as int, p as int);
        assert((a * x) % (p as int) == 1);
        lemma_mul_mod_noop_general(b, a * x, p as int);
        lemma_small_mod(1, p);
        assert((b * (a * x)) % (p as int) == b % (p as int)) by {
            lemma_mul_basics(b);
        }
        assert(b * (a * x) == (a * b) * x) by (nonlinear_arith);
        lemma_mul_mod_noop_general(a * b, x as int, p as int);
        assert(((a * b) * x) % (p as int) == 0) by {
            lemma_small_mod(0, p);
        }
    }
}

/// The prime 65537.
pub const FP65537_MODULUS: u64 = 65537;

proof fn lemma_65537_no_divisor(d: u32)
    requires
        1 < d < 65537,
    ensures
        65537u32 % d != 0,
{
    assert(65537u32 % d != 0) by (bit_vector)
        requires
            1 < d < 65537,
    ;
}

/// 65537 is a prime.
pub proof fn lemma_65537_is_prime()
    ensures
        is_prime(65537),
{
    assert forall|d: nat| 1 < d < 65537 implies #[trigger] (65537nat % d) != 0 by {
        lemma_65537_no_divisor(d as u32);
    }
}

/// Elements of the prime field of order 65537.
#[derive(Clone, Copy, Debug)]
pub struct Fp65537 {
    /// A representative of the element; its value is taken modulo 65537.
    pub v: u64,
}

impl Fp65537 {
    /// The canonical value of an element as an integer.
    pub fn value(&self) -> (r: u64)
        ensures
            r == self.val(),
    {
        self.v % FP65537_MODULUS
    }
}

impl PrimeField for Fp65537 {
    open spec fn modulus() -> nat {
        65537
    }

    open spec fn val(&self) -> nat {
        (self.v % 65537) as nat
    }

    proof fn lemma_modulus_is_prime() {
        lemma_65537_is_prime();
    }

    proof fn lemma_val_bound(x: &Self) {
    }

    fn zero() -> (r: Self) {
        Fp65537 { v: 0 }
    }

    fn one() -> (r: Self) {
        Fp65537 { v: 1 }
    }

    fn from_u64(n: u64) -> (r: Self) {
        Fp65537 { v: n % FP65537_MODULUS }
    }

    fn add(&self, other: &Self) -> (r: Self) {
        let a = self.v % FP65537_MODULUS;
        let b = other.v % FP65537_MODULUS;
        proof {
            lemma_add_mod_noop(self.v as int, other.v as int, 65537);
            lemma_mod_twice((a + b) as int, 65537);
        }
        Fp65537 { v: (a + b) % FP65537_MODULUS }
    }

    fn sub(&self, other: &Self) -> (r: Self) {
        let a = self.v % FP65537_MODULUS;
        let b = other.v % FP65537_MODULUS;
        proof {
            lemma_sub_mod_noop(self.v as int, other.v as int, 65537);
            lemma_mod_multiples_vanish(1, a - b, 65537);
            lemma_mod_twice((a + 65537 - b) as int, 65537);
        }
        Fp65537 { v: (a + FP65537_MODULUS - b) % FP65537_MODULUS }
    }

    fn neg(&self) -> (r: Self) {
        let a = self.v % FP65537_MODULUS;
        proof {
            lemma_sub_mod_noop(0, self.v as int, 65537);
            lemma_small_mod(0, 65537);
            lemma_mod_multiples_vanish(1, 0 - a, 65537);
            lemma_mod_twice((65537 - a) as int, 65537);
        }
        Fp65537 { v: (FP65537_MODULUS - a) % FP65537_MODULUS }
    }

    fn mul(&self, other: &Self) -> (r: Self) {
        let a = self.v % FP65537_MODULUS;
        let b = other.v % FP65537_MODULUS;
        assert(a * b <= 65536 * 65536) by (nonlinear_arith)
            requires
                a <= 65536,
                b <= 65536,
        ;
        proof {
            lemma_mul_mod_noop_general(self.v as int, other.v as int, 65537);
            lemma_mod_twice((a * b) as int, 65537);
        }
        Fp65537 { v: (a * b) % FP65537_MODULUS }
    }

    fn double(&self) -> (r: Self) {
        self.add(self)
    }

    fn invert(&self) -> (r: Option<Self>) {
        let a = self.v % FP65537_MODULUS;
        if a == 0 {
            return None;
        }
        let mut x: u64 = 1;
        while x < FP65537_MODULUS
            invariant
                1 <= x <= 65537,
                a == self.val(),
                0 < a < 65537,
                forall|y: nat| 0 < y < x ==> #[trigger] ((a * y) % 65537) != 1,
            decreases 65537 - x,
        {
            assert(a * x <= 65536 * 65536) by (nonlinear_arith)
                requires
                    a <= 65536,
                    x <= 65536,
            ;
            if (a * x) % FP65537_MODULUS == 1 {
                proof {
                    lemma_small_mod(x as nat, 65537);
                }
                return Some(Fp65537 { v: x });
            }
            x = x + 1;
        }
        proof {
            lemma_65537_is_prime();
            lemma_small_mod(a as nat, 65537);
            lemma_inverse_exists(a as nat, 65537);
            let y = choose|y: nat| y < 65537 && #[trigger] ((a * y) % 65537) == 1;
            if y == 0 {
                assert(a * y == 0);
            }
            assert(false);
        }
        None
    }

    fn equals(&self, other: &Self) -> (r: bool) {
        self.v % FP65537_MODULUS == other.v % FP65537_MODULUS
    }

    fn to_le_bits(&self) -> (r: Vec<bool>) {
        let a = self.v % FP65537_MODULUS;
        let mut bits: Vec<bool> = Vec::new();
        let mut rest: u64 = a;
        let mut scale: u64 = 1;
        let mut i: u64 = 0;
        while i < 17
            invariant
                i <= 17,
                bits@.len() == i,
                scale == pow2_u64(i as nat),
                a == self.val(),
                a < 65537,
                rest < 65537,
                a == bits_value(bits@) + scale * rest,
            decreases 17 - i,
        {
            let bit = rest % 2 == 1;
            proof {
                lemma_bits_value_push(bits@, bit);
                lemma_pow2_u64_step(i as nat);
                lemma_fundamental_div_mod(rest as int, 2);
                assert(scale * rest == scale * (rest % 2) + (2 * scale) * (rest / 2))
                    by (nonlinear_arith)
                    requires
                        rest == 2 * (rest / 2) + rest % 2,
                ;
            }
            bits.push(bit);
            rest = rest / 2;
            scale = scale * 2;
            i = i + 1;
        }
        proof {
            // after 17 halvings `rest` is zero because a < 2^17
            lemma_pow2_u64_step(17);
            if rest > 0 {
                assert(scale * rest >= scale) by (nonlinear_arith)
                    requires
                        rest > 0,
                        scale > 0,
                ;
                assert(false);
            }
        }
        bits
    }
}

/// `2^n` (for small `n`).
pub open spec fn pow2_u64(n: nat) -> nat
    decreases n,
{
    if n == 0 {
        1
    } else {
        2 * pow2_u64((n - 1) as nat)
    }
}

proof fn lemma_pow2_u64_step(n: nat)
    ensures
        pow2_u64(n + 1) == 2 * pow2_u64(n),
        n <= 17 ==> pow2_u64(n) <= 131072,
        pow2_u64(17) == 131072,
    decreases n,
{
    reveal_with_fuel(pow2_u64, 18);
    if n > 0 && n <= 17 {
        lemma_pow2_u64_step((n - 1) as nat);
    }
}

/// Appending a bit at the top adds `2^len` when the bit is set.
pub proof fn lemma_bits_value_push(bits: Seq<bool>, b: bool)
    ensures
        bits_value(bits.push(b)) == bits_value(bits) + (if b {
            pow2_u64(bits.len())
        } else {
            0
        }),
    decreases bits.len(),
{
    if bits.len() == 0 {
        assert(bits.push(b).drop_first() =~= Seq::<bool>::empty());
        assert(bits_value(Seq::<bool>::empty()) == 0);
        assert(bits_value(bits) == 0);
        assert(pow2_u64(0) == 1);
    } else {
        let t = bits.push(b);
        assert(t[0] == bits[0]);
        assert(bits.push(b).drop_first() =~= bits.drop_first().push(b));
        lemma_bits_value_push(bits.drop_first(), b);
        lemma_pow2_u64_step((bits.len() - 1) as nat);
    }
}

} // verus!
