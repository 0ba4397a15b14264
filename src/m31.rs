//! The prime field `F_p` with `p = 2^31 - 1`, the base of the tower.

use vstd::prelude::*;
use vstd::arithmetic::div_mod::*;
use p3_field::{Field, PrimeField32};
use p3_mersenne_31::Mersenne31;

use crate::error::FieldError;

verus! {

/// The Mersenne prime `2^31 - 1`.
pub const P: u32 = 0x7fff_ffff;

/// The modulus as a mathematical integer.
pub open spec fn modulus() -> int {
    P as int
}

/// A canonical representative of a residue class modulo `p`.
pub open spec fn is_canonical(a: int) -> bool {
    0 <= a < modulus()
}

pub open spec fn fadd(a: int, b: int) -> int {
    (a + b) % modulus()
}

pub open spec fn fsub(a: int, b: int) -> int {
    (a - b) % modulus()
}

pub open spec fn fneg(a: int) -> int {
    (-a) % modulus()
}

pub open spec fn fmul(a: int, b: int) -> int {
    (a * b) % modulus()
}

/// An element of `F_p`, stored as its canonical representative in `[0, p)`.
#[derive(Clone, Copy, Debug, PartialEq, Eq, Structural, Hash)]
pub struct M31 {
    pub value: u32,
}

impl View for M31 {
    type V = int;

    open spec fn view(&self) -> int {
        self.value as int
    }
}

impl M31 {
    /// The stored value is the canonical representative.
    pub open spec fn wf(&self) -> bool {
        self.value < P
    }

    /// The residue of `value` modulo `p`.
    pub fn new(value: u32) -> (r: M31)
        ensures
            r.wf(),
            r@ == value as int % modulus(),
    {
        M31 { value: value % P }
    }

    /// The residue of `n` modulo `p`.
    pub fn from_wrapped_u64(n: u64) -> (r: M31)
        ensures
            r.wf(),
            r@ == n as int % modulus(),
    {
        M31 { value: (n % (P as u64)) as u32 }
    }

    /// The element `n`, for `n` already below `p`.
    pub fn from_canonical_u32(n: u32) -> (r: M31)
        requires
            n < P,
        ensures
            r.wf(),
            r@ == n,
    {
        M31 { value: n }
    }

    pub fn zero() -> (r: M31)
        ensures
            r.wf(),
            r@ == 0,
    {
        M31 { value: 0 }
    }

    pub fn one() -> (r: M31)
        ensures
            r.wf(),
            r@ == 1,
    {
        M31 { value: 1 }
    }

    /// The canonical representative, in `[0, p)`.
    pub fn as_canonical_u32(&self) -> (r: u32)
        requires
            self.wf(),
        ensures
            r == self.value,
            r < P,
    {
        self.value
    }

    pub fn is_zero(&self) -> (r: bool)
        requires
            self.wf(),
        ensures
            r == (self@ == 0),
    {
        self.value == 0
    }

    pub fn add(self, rhs: M31) -> (r: M31)
        requires
            self.wf(),
            rhs.wf(),
        ensures
            r.wf(),
            r@ == fadd(self@, rhs@),
    {
        let s: u32 = self.value + rhs.value;
        if s >= P {
            proof {
                lemma_mod_sub_modulus(s as int);
            }
            M31 { value: s - P }
        } else {
            proof {
                lemma_small_mod(s as nat, P as nat);
            }
            M31 { value: s }
        }
    }

    pub fn sub(self, rhs: M31) -> (r: M31)
        requires
            self.wf(),
            rhs.wf(),
        ensures
            r.wf(),
            r@ == fsub(self@, rhs@),
    {
        if self.value >= rhs.value {
            proof {
                lemma_small_mod((self.value - rhs.value) as nat, P as nat);
            }
            M31 { value: self.value - rhs.value }
        } else {
            let d: u32 = self.value + (P - rhs.value);
            proof {
                lemma_mod_add_modulus(self@ - rhs@);
            }
            M31 { value: d }
        }
    }

    pub fn neg(self) -> (r: M31)
        requires
            self.wf(),
        ensures
            r.wf(),
            r@ == fneg(self@),
    {
        if self.value == 0 {
            M31 { value: 0 }
        } else {
            proof {
                lemma_mod_add_modulus(-self@);
            }
            M31 { value: P - self.value }
        }
    }

    pub fn mul(self, rhs: M31) -> (r: M31)
        requires
            self.wf(),
            rhs.wf(),
        ensures
            r.wf(),
            r@ == fmul(self@, rhs@),
    {
        let a: u64 = self.value as u64;
        let b: u64 = rhs.value as u64;
        proof {
            assert(a * b < 0x4000_0000_0000_0000) by (nonlinear_arith)
                requires
                    a < 0x8000_0000,
                    b < 0x8000_0000,
            ;
        }
        let prod: u64 = a * b;
        M31 { value: (prod % (P as u64)) as u32 }
    }

    /// The multiplicative inverse; fails on zero.
    pub fn try_inverse(&self) -> (r: Result<M31, FieldError>)
        requires
            self.wf(),
        ensures
            match r {
                Ok(v) => v.wf() && self@ != 0 && fmul(self@, v@) == 1,
                Err(e) => e == FieldError::DivisionByZero && self@ == 0,
            },
    {
        match mersenne_try_inverse(self.value) {
            Some(w) => Ok(M31 { value: w }),
            None => Err(FieldError::DivisionByZero),
        }
    }

    /// `self * rhs^-1`; fails when `rhs` is zero.
    pub fn div(self, rhs: M31) -> (r: Result<M31, FieldError>)
        requires
            self.wf(),
            rhs.wf(),
        ensures
            match r {
                Ok(v) => v.wf() && rhs@ != 0 && fmul(v@, rhs@) == self@,
                Err(e) => e == FieldError::DivisionByZero && rhs@ == 0,
            },
    {
        let inv = rhs.try_inverse()?;
        let v = self.mul(inv);
        proof {
            lemma_mod_product(self@ * inv@, rhs@);
            lemma_mod_product(self@, inv@ * rhs@);
            assert(self@ * inv@ * rhs@ == self@ * (inv@ * rhs@)) by (nonlinear_arith);
            assert(inv@ * rhs@ == rhs@ * inv@) by (nonlinear_arith);
            lemma_mod_product(self@, 1);
            lemma_small_mod(self@ as nat, P as nat);
        }
        Ok(v)
    }
}

/// Relies on `Field::try_inverse` of p3_mersenne_31's `Mersenne31` (read back with
/// `PrimeField32::as_canonical_u32`): `None` for zero, otherwise the canonical
/// element whose product with the input is one modulo `p`.
#[verifier::external_body]
fn mersenne_try_inverse(v: u32) -> (r: Option<u32>)
    requires
        v < P,
    ensures
        r is None <==> v == 0,
        r matches Some(w) ==> w < P && (v * w) % (P as int) == 1,
{
    match Mersenne31::new(v).try_inverse() {
        Some(w) => Some(w.as_canonical_u32()),
        None => None,
    }
}

// Arithmetic facts about residues modulo p.

/// A value in `[p, 2p)` reduces by one subtraction of `p`.
pub proof fn lemma_mod_sub_modulus(x: int)
    requires
        modulus() <= x < 2 * modulus(),
    ensures
        x % modulus() == x - modulus(),
{
    lemma_mod_multiples_vanish(-1, x, modulus());
    lemma_small_mod((x - modulus()) as nat, modulus() as nat);
}

/// A value in `[-p, 0)` reduces by one addition of `p`.
pub proof fn lemma_mod_add_modulus(x: int)
    requires
        -modulus() <= x < 0,
    ensures
        x % modulus() == x + modulus(),
{
    lemma_mod_multiples_vanish(1, x, modulus());
    lemma_small_mod((x + modulus()) as nat, modulus() as nat);
}

/// A canonical representative is its own residue.
pub proof fn lemma_canonical_mod(a: int)
    requires
        is_canonical(a),
    ensures
        a % modulus() == a,
{
    lemma_small_mod(a as nat, modulus() as nat);
}

/// Every residue is canonical.
pub proof fn lemma_mod_canonical(x: int)
    ensures
        is_canonical(x % modulus()),
{
    lemma_mod_bound(x, modulus());
}

/// Reducing the factors of a two-term combination does not change its residue.
pub proof fn lemma_mod_combination(x: int, y: int, s: int, t: int)
    ensures
        ((x % modulus()) * s - (y % modulus()) * t) % modulus() == (x * s - y * t) % modulus(),
        ((x % modulus()) * s + (y % modulus()) * t) % modulus() == (x * s + y * t) % modulus(),
        (s * (x % modulus()) - t * (y % modulus())) % modulus() == (s * x - t * y) % modulus(),
        (s * (x % modulus()) + t * (y % modulus())) % modulus() == (s * x + t * y) % modulus(),
{
    let p = modulus();
    lemma_mul_mod_noop_left(x, s, p);
    lemma_mul_mod_noop_left(y, t, p);
    lemma_mul_mod_noop_right(s, x, p);
    lemma_mul_mod_noop_right(t, y, p);
    lemma_sub_mod_noop((x % p) * s, (y % p) * t, p);
    lemma_sub_mod_noop(x * s, y * t, p);
    lemma_add_mod_noop((x % p) * s, (y % p) * t, p);
    lemma_add_mod_noop(x * s, y * t, p);
    lemma_sub_mod_noop(s * (x % p), t * (y % p), p);
    lemma_sub_mod_noop(s * x, t * y, p);
    lemma_add_mod_noop(s * (x % p), t * (y % p), p);
    lemma_add_mod_noop(s * x, t * y, p);
}

/// Reducing the terms of a sum or difference does not change its residue.
pub proof fn lemma_mod_sum(x: int, y: int)
    ensures
        ((x % modulus()) + (y % modulus())) % modulus() == (x + y) % modulus(),
        ((x % modulus()) - (y % modulus())) % modulus() == (x - y) % modulus(),
        (x + (y % modulus())) % modulus() == (x + y) % modulus(),
        ((x % modulus()) + y) % modulus() == (x + y) % modulus(),
        (-(x % modulus())) % modulus() == (-x) % modulus(),
{
    let p = modulus();
    lemma_add_mod_noop(x, y, p);
    lemma_sub_mod_noop(x, y, p);
    lemma_add_mod_noop_right(x, y, p);
    lemma_add_mod_noop(x, y, p);
    lemma_mod_twice(y, p);
    lemma_mod_twice(x, p);
    lemma_sub_mod_noop(0, x, p);
    lemma_small_mod(0, p as nat);
}

/// Reducing the factors of a product does not change its residue.
pub proof fn lemma_mod_product(x: int, y: int)
    ensures
        ((x % modulus()) * (y % modulus())) % modulus() == (x * y) % modulus(),
        ((x % modulus()) * y) % modulus() == (x * y) % modulus(),
        (x * (y % modulus())) % modulus() == (x * y) % modulus(),
{
    let p = modulus();
    lemma_mul_mod_noop(x, y, p);
    lemma_mul_mod_noop_left(x, y, p);
    lemma_mul_mod_noop_right(x, y, p);
}

} // verus!
