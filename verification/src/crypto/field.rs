//! Arithmetic in the prime field of order `FIELD_PRIME`.
//!
//! Every element is a normalized residue in `[0, FIELD_PRIME)`. The spec
//! functions `f_add`, `f_sub`, `f_mul`, `f_pow`, `f_inv` and `f_div` give the
//! mathematical meaning of each operation; the executable methods are proved
//! to return exactly those values.

use vstd::prelude::*;
use vstd::arithmetic::div_mod::{
    lemma_add_mod_noop, lemma_mod_bound, lemma_mod_sub_multiples_vanish, lemma_small_mod,
    lemma_mul_mod_noop_general,
};
use vstd::arithmetic::mul::{lemma_mul_is_associative, lemma_mul_is_distributive_add};
use vstd::arithmetic::power::{lemma_pow_mod_noop, lemma_pow_multiplies, lemma_square_is_pow2, pow};

verus! {

/// The field modulus, the Mersenne prime 2^31 - 1.
pub const FIELD_PRIME: u64 = 2_147_483_647;

/// Failure of a field operation.
#[derive(Clone, Copy, Debug, PartialEq, Eq, Structural)]
pub enum FieldError {
    /// Division (or inversion) of the additive identity was requested.
    DivisionByZero,
}

/// An element of the prime field, held as its normalized residue.
#[derive(Clone, Copy, Debug, PartialEq, Eq, Structural)]
pub struct FieldElement {
    pub value: u64,
}

/// A residue lies in `[0, FIELD_PRIME)`.
pub open spec fn in_field(a: int) -> bool {
    0 <= a < FIELD_PRIME
}

/// Field addition of residues.
pub open spec fn f_add(a: int, b: int) -> int {
    (a + b) % (FIELD_PRIME as int)
}

/// Field subtraction of residues in `[0, FIELD_PRIME)`.
pub open spec fn f_sub(a: int, b: int) -> int {
    (a + FIELD_PRIME - b) % (FIELD_PRIME as int)
}

/// Field multiplication of residues.
pub open spec fn f_mul(a: int, b: int) -> int {
    (a * b) % (FIELD_PRIME as int)
}

/// Field exponentiation: `b^e` reduced by the modulus.
pub open spec fn f_pow(b: int, e: nat) -> int {
    pow(b, e) % (FIELD_PRIME as int)
}

/// The multiplicative inverse by Fermat's little theorem: `a^(p-2)`.
pub open spec fn f_inv(a: int) -> int {
    f_pow(a, (FIELD_PRIME - 2) as nat)
}

/// Field division: multiplication by the inverse.
pub open spec fn f_div(a: int, b: int) -> int {
    f_mul(a, f_inv(b))
}

/// One square-and-multiply step: an odd exponent peels one factor of the base
/// off the remaining power.
proof fn lemma_pow_unfold_step(r: int, b: int, e: nat)
    requires
        e >= 1,
    ensures
        f_mul(r, f_pow(b, e)) == f_mul(f_mul(r, b), f_pow(b, (e - 1) as nat)),
{
    let p = FIELD_PRIME as int;
    reveal(pow);
    assert(pow(b, e) == b * pow(b, (e - 1) as nat));
    lemma_mul_mod_noop_general(r, pow(b, e), p);
    lemma_mul_is_associative(r, b, pow(b, (e - 1) as nat));
    lemma_mul_mod_noop_general(r * b, pow(b, (e - 1) as nat), p);
}

/// One squaring step: raising the squared base to `k` is raising the base to
/// `2k`.
proof fn lemma_pow_square_step(b: int, k: nat)
    ensures
        f_pow(f_mul(b, b), k) == f_pow(b, 2 * k),
{
    let p = FIELD_PRIME as int;
    lemma_square_is_pow2(b);
    lemma_pow_mod_noop(b * b, k, p);
    lemma_pow_multiplies(b, 2, k);
}

/// Field law: addition is associative.
pub proof fn lemma_add_associative(a: int, b: int, c: int)
    requires
        in_field(a),
        in_field(b),
        in_field(c),
    ensures
        f_add(f_add(a, b), c) == f_add(a, f_add(b, c)),
{
    let p = FIELD_PRIME as int;
    lemma_small_mod(c as nat, FIELD_PRIME as nat);
    lemma_add_mod_noop(a + b, c, p);
    lemma_small_mod(a as nat, FIELD_PRIME as nat);
    lemma_add_mod_noop(a, b + c, p);
}

/// Field law: multiplication is associative.
pub proof fn lemma_mul_associative(a: int, b: int, c: int)
    requires
        in_field(a),
        in_field(b),
        in_field(c),
    ensures
        f_mul(f_mul(a, b), c) == f_mul(a, f_mul(b, c)),
{
    let p = FIELD_PRIME as int;
    lemma_mul_mod_noop_general(a * b, c, p);
    lemma_mul_is_associative(a, b, c);
    lemma_mul_mod_noop_general(a, b * c, p);
}

/// Field law: multiplication distributes over addition.
pub proof fn lemma_mul_distributive(a: int, b: int, c: int)
    requires
        in_field(a),
        in_field(b),
        in_field(c),
    ensures
        f_mul(a, f_add(b, c)) == f_add(f_mul(a, b), f_mul(a, c)),
{
    let p = FIELD_PRIME as int;
    lemma_mul_mod_noop_general(a, b + c, p);
    lemma_mul_is_distributive_add(a, b, c);
    lemma_add_mod_noop(a * b, a * c, p);
}

/// Subtraction of distinct residues never yields the additive identity.
pub proof fn lemma_sub_nonzero(a: int, b: int)
    requires
        in_field(a),
        in_field(b),
        a != b,
    ensures
        f_sub(a, b) != 0,
{
    let p = FIELD_PRIME as int;
    if a > b {
        lemma_mod_sub_multiples_vanish(a + p - b, p);
        lemma_small_mod((a - b) as nat, FIELD_PRIME as nat);
    } else {
        lemma_small_mod((a + p - b) as nat, FIELD_PRIME as nat);
    }
}

/// Field law: the additive identity is neutral.
pub proof fn lemma_add_identity(a: int)
    requires
        in_field(a),
    ensures
        f_add(a, 0) == a,
{
    lemma_small_mod(a as nat, FIELD_PRIME as nat);
}

/// Field law: the multiplicative identity is neutral.
pub proof fn lemma_mul_identity(a: int)
    requires
        in_field(a),
    ensures
        f_mul(a, 1) == a,
{
    lemma_small_mod(a as nat, FIELD_PRIME as nat);
}

impl FieldElement {
    /// The element is a normalized residue.
    pub open spec fn wf(self) -> bool {
        in_field(self.value as int)
    }

    /// Construct an element from an integer, reducing it by the modulus.
    pub fn new(value: u64) -> (r: Self)
        ensures
            r.wf(),
            r.value == value as int % FIELD_PRIME as int,
    {
        FieldElement { value: value % FIELD_PRIME }
    }

    /// The normalized residue this element holds.
    pub fn value(&self) -> (r: u64)
        ensures
            r == self.value,
    {
        self.value
    }

    /// The additive identity.
    pub fn zero() -> (r: Self)
        ensures
            r.wf(),
            r.value == 0,
    {
        FieldElement { value: 0 }
    }

    /// The multiplicative identity.
    pub fn one() -> (r: Self)
        ensures
            r.wf(),
            r.value == 1,
    {
        FieldElement { value: 1 }
    }

    /// Field addition.
    pub fn add(self, rhs: Self) -> (r: Self)
        requires
            self.wf(),
            rhs.wf(),
        ensures
            r.wf(),
            r.value == f_add(self.value as int, rhs.value as int),
    {
        let sum: u64 = self.value + rhs.value;
        proof {
            let p = FIELD_PRIME as int;
            if sum >= FIELD_PRIME {
                lemma_mod_sub_multiples_vanish(sum as int, p);
                lemma_small_mod((sum - FIELD_PRIME) as nat, FIELD_PRIME as nat);
            } else {
                lemma_small_mod(sum as nat, FIELD_PRIME as nat);
            }
        }
        if sum >= FIELD_PRIME {
            FieldElement { value: sum - FIELD_PRIME }
        } else {
            FieldElement { value: sum }
        }
    }

    /// Field subtraction.
    pub fn sub(self, rhs: Self) -> (r: Self)
        requires
            self.wf(),
            rhs.wf(),
        ensures
            r.wf(),
            r.value == f_sub(self.value as int, rhs.value as int),
    {
        let diff: u64 = if self.value >= rhs.value {
            self.value - rhs.value
        } else {
            FIELD_PRIME - (rhs.value - self.value)
        };
        proof {
            let p = FIELD_PRIME as int;
            if self.value >= rhs.value {
                lemma_mod_sub_multiples_vanish((self.value + FIELD_PRIME - rhs.value) as int, p);
            }
            lemma_small_mod(diff as nat, FIELD_PRIME as nat);
        }
        FieldElement { value: diff }
    }

    /// A uniformly drawn field element, reduced from a raw random integer.
    pub fn random() -> (r: Self)
        ensures
            r.wf(),
    {
        Self::new(random_u64())
    }

    /// Field exponentiation by square-and-multiply; `pow(0)` is `one` for
    /// every base, by convention.
    pub fn pow(&self, exp: usize) -> (r: Self)
        requires
            self.wf(),
        ensures
            r.wf(),
            r.value == f_pow(self.value as int, exp as nat),
    {
        let b0: Ghost<int> = Ghost(self.value as int);
        let p: Ghost<int> = Ghost(FIELD_PRIME as int);
        let mut result = Self::one();
        let mut base = *self;
        let mut e: usize = exp;
        proof {
            lemma_mod_bound(pow(b0@, exp as nat), p@);
            lemma_small_mod((1 * (pow(b0@, exp as nat) % p@)) as nat, FIELD_PRIME as nat);
            reveal(pow);
        }
        while e > 0
            invariant
                result.wf(),
                base.wf(),
                f_mul(result.value as int, f_pow(base.value as int, e as nat)) == f_pow(
                    b0@,
                    exp as nat,
                ),
            decreases e,
        {
            let ghost r0 = result.value as int;
            let ghost bb = base.value as int;
            let ghost e0 = e as nat;
            if e % 2 == 1 {
                result = result.mul(base);
                proof {
                    lemma_pow_unfold_step(r0, bb, e0);
                }
            }
            base = base.mul(base);
            e = e / 2;
            proof {
                lemma_pow_square_step(bb, e as nat);
            }
        }
        proof {
            reveal(pow);
            lemma_small_mod((result.value * 1) as nat, FIELD_PRIME as nat);
        }
        result
    }

    /// The multiplicative inverse by Fermat's little theorem, `None` exactly
    /// for the additive identity.
    pub fn inverse(&self) -> (r: Option<Self>)
        requires
            self.wf(),
        ensures
            (r is Some) <==> self.value != 0,
            r is Some ==> r.unwrap().wf() && r.unwrap().value == f_inv(self.value as int),
            r is Some ==> f_mul(self.value as int, r.unwrap().value as int) == 1,
    {
        if self.value == 0 {
            return None;
        }
        proof {
            crate::crypto::fermat::lemma_mul_inverse(self.value as int);
        }
        Some(self.pow((FIELD_PRIME - 2) as usize))
    }

    /// Field division; division by the additive identity is reported, never
    /// silently absorbed.
    pub fn div(self, rhs: Self) -> (r: Result<Self, FieldError>)
        requires
            self.wf(),
            rhs.wf(),
        ensures
            (r is Err) <==> rhs.value == 0,
            r is Err ==> r == Result::<Self, FieldError>::Err(FieldError::DivisionByZero),
            r is Ok ==> r.unwrap().wf() && r.unwrap().value == f_div(
                self.value as int,
                rhs.value as int,
            ),
            r is Ok ==> f_mul(r.unwrap().value as int, rhs.value as int) == self.value,
    {
        match rhs.inverse() {
            Some(inv) => {
                proof {
                    let a = self.value as int;
                    let b = rhs.value as int;
                    lemma_mul_associative(a, inv.value as int, b);
                    assert(f_mul(inv.value as int, b) == f_mul(b, inv.value as int));
                    lemma_mul_identity(a);
                }
                Ok(self.mul(inv))
            },
            None => Err(FieldError::DivisionByZero),
        }
    }

    /// Field multiplication, computed without overflow in 128 bits.
    pub fn mul(self, rhs: Self) -> (r: Self)
        requires
            self.wf(),
            rhs.wf(),
        ensures
            r.wf(),
            r.value == f_mul(self.value as int, rhs.value as int),
    {
        proof {
            assert((self.value as int) * (rhs.value as int) < 0x4000000000000000) by (nonlinear_arith)
                requires
                    self.value < 0x80000000,
                    rhs.value < 0x80000000;
        }
        let wide: u128 = (self.value as u128) * (rhs.value as u128);
        let reduced: u128 = wide % (FIELD_PRIME as u128);
        proof {
            lemma_mod_bound(wide as int, FIELD_PRIME as int);
        }
        FieldElement { value: reduced as u64 }
    }
}

/// Relies on `rand::random`: a fresh 64-bit integer from the thread-local
/// generator. Nothing is assumed of the value drawn.
#[verifier::external_body]
pub(crate) fn random_u64() -> u64 {
    rand::random::<u64>()
}

} // verus!
