//! The quadratic layer `CM31 = F_p[i]/(i^2 + 1)`: the binomial extension of
//! degree two over `F_p` with non-residue `W = -1`.

use vstd::prelude::*;
use vstd::arithmetic::div_mod::{lemma_div_denominator, lemma_small_mod};

use crate::error::FieldError;
use crate::m31::{
    fadd, fmul, fneg, fsub, is_canonical, lemma_canonical_mod, lemma_mod_canonical, lemma_mod_combination,
    lemma_mod_product, lemma_mod_sum, modulus, M31,
};

verus! {

/// An element `x.0 + x.1 * i` of the quadratic layer, as a pair of residues.
pub type Complex = (int, int);

pub open spec fn c_canonical(a: Complex) -> bool {
    is_canonical(a.0) && is_canonical(a.1)
}

pub open spec fn czero() -> Complex {
    (0, 0)
}

pub open spec fn cone() -> Complex {
    (1, 0)
}

/// The embedding of `F_p` as the constant coefficient.
pub open spec fn cfrom_base(b: int) -> Complex {
    (b, 0)
}

pub open spec fn cadd(a: Complex, b: Complex) -> Complex {
    (fadd(a.0, b.0), fadd(a.1, b.1))
}

pub open spec fn csub(a: Complex, b: Complex) -> Complex {
    (fsub(a.0, b.0), fsub(a.1, b.1))
}

pub open spec fn cneg(a: Complex) -> Complex {
    (fneg(a.0), fneg(a.1))
}

/// The schoolbook product reduced by `i^2 = -1`.
pub open spec fn cmul(a: Complex, b: Complex) -> Complex {
    ((a.0 * b.0 - a.1 * b.1) % modulus(), (a.0 * b.1 + a.1 * b.0) % modulus())
}

/// Multiplication of every coefficient by a base element.
pub open spec fn cscale(a: Complex, s: int) -> Complex {
    (fmul(a.0, s), fmul(a.1, s))
}

/// The Frobenius map `x -> x^p`, which for `W = -1` is conjugation.
pub open spec fn cconj(a: Complex) -> Complex {
    (a.0, fneg(a.1))
}

pub open spec fn cpow(a: Complex, n: nat) -> Complex
    decreases n,
{
    if n == 0 {
        cone()
    } else {
        cmul(a, cpow(a, (n - 1) as nat))
    }
}

/// `2^n`.
pub open spec fn two_pow(n: nat) -> nat
    decreases n,
{
    if n == 0 {
        1
    } else {
        2 * two_pow((n - 1) as nat)
    }
}

/// The number of elements of the quadratic layer, `p^2`.
pub const ORDER: u64 = 4611686014132420609;

/// The largest `k` such that `2^k` divides `p^2 - 1`.
pub const TWO_ADICITY: usize = 32;

/// A generator of the multiplicative group: `12 + i`.
pub open spec fn cgenerator() -> Complex {
    (12, 1)
}

/// The exponent that maps the generator into the subgroup of order `2^bits`.
pub open spec fn ccofactor(bits: nat) -> nat {
    ((ORDER - 1) as nat) / two_pow(bits)
}

/// The norm `x * conj(x) = re^2 + im^2`, an element of `F_p`.
pub open spec fn cnorm(a: Complex) -> int {
    (a.0 * a.0 + a.1 * a.1) % modulus()
}

/// An element of the quadratic layer: `re + im * i` with `i^2 = -1`.
#[derive(Clone, Copy, Debug, PartialEq, Eq, Structural, Hash)]
pub struct CM31 {
    pub re: M31,
    pub im: M31,
}

impl View for CM31 {
    type V = Complex;

    open spec fn view(&self) -> Complex {
        (self.re@, self.im@)
    }
}

impl CM31 {
    pub open spec fn wf(&self) -> bool {
        self.re.wf() && self.im.wf()
    }

    pub fn new(re: M31, im: M31) -> (r: CM31)
        requires
            re.wf(),
            im.wf(),
        ensures
            r.wf(),
            r.re == re,
            r.im == im,
    {
        CM31 { re, im }
    }

    pub fn zero() -> (r: CM31)
        ensures
            r.wf(),
            r@ == czero(),
    {
        CM31 { re: M31::zero(), im: M31::zero() }
    }

    pub fn one() -> (r: CM31)
        ensures
            r.wf(),
            r@ == cone(),
    {
        CM31 { re: M31::one(), im: M31::zero() }
    }

    pub fn from_base(b: M31) -> (r: CM31)
        requires
            b.wf(),
        ensures
            r.wf(),
            r@ == cfrom_base(b@),
    {
        CM31 { re: b, im: M31::zero() }
    }

    pub fn is_zero(&self) -> (r: bool)
        requires
            self.wf(),
        ensures
            r == (self@ == czero()),
    {
        self.re.is_zero() && self.im.is_zero()
    }

    pub fn add(self, rhs: CM31) -> (r: CM31)
        requires
            self.wf(),
            rhs.wf(),
        ensures
            r.wf(),
            r@ == cadd(self@, rhs@),
    {
        CM31 { re: self.re.add(rhs.re), im: self.im.add(rhs.im) }
    }

    pub fn sub(self, rhs: CM31) -> (r: CM31)
        requires
            self.wf(),
            rhs.wf(),
        ensures
            r.wf(),
            r@ == csub(self@, rhs@),
    {
        CM31 { re: self.re.sub(rhs.re), im: self.im.sub(rhs.im) }
    }

    pub fn neg(self) -> (r: CM31)
        requires
            self.wf(),
        ensures
            r.wf(),
            r@ == cneg(self@),
    {
        CM31 { re: self.re.neg(), im: self.im.neg() }
    }

    pub fn mul(self, rhs: CM31) -> (r: CM31)
        requires
            self.wf(),
            rhs.wf(),
        ensures
            r.wf(),
            r@ == cmul(self@, rhs@),
    {
        let re = self.re.mul(rhs.re).sub(self.im.mul(rhs.im));
        let im = self.re.mul(rhs.im).add(self.im.mul(rhs.re));
        proof {
            lemma_mod_sum(self@.0 * rhs@.0, self@.1 * rhs@.1);
            lemma_mod_sum(self@.0 * rhs@.1, self@.1 * rhs@.0);
        }
        CM31 { re, im }
    }

    /// Multiplication by a base element, coefficient by coefficient.
    pub fn mul_base(self, s: M31) -> (r: CM31)
        requires
            self.wf(),
            s.wf(),
        ensures
            r.wf(),
            r@ == cscale(self@, s@),
            r@ == cmul(self@, cfrom_base(s@)),
    {
        proof {
            lemma_cmul_base(self@, s@);
        }
        CM31 { re: self.re.mul(s), im: self.im.mul(s) }
    }

    /// Addition of a base element to the constant coefficient.
    pub fn add_base(self, s: M31) -> (r: CM31)
        requires
            self.wf(),
            s.wf(),
        ensures
            r.wf(),
            r@ == cadd(self@, cfrom_base(s@)),
    {
        proof {
            lemma_canonical_mod(self@.1);
        }
        CM31 { re: self.re.add(s), im: self.im }
    }

    /// Subtraction of a base element from the constant coefficient.
    pub fn sub_base(self, s: M31) -> (r: CM31)
        requires
            self.wf(),
            s.wf(),
        ensures
            r.wf(),
            r@ == csub(self@, cfrom_base(s@)),
    {
        proof {
            lemma_canonical_mod(self@.1);
        }
        CM31 { re: self.re.sub(s), im: self.im }
    }

    /// The Frobenius endomorphism `x -> x^p`: conjugation.
    pub fn frobenius(&self) -> (r: CM31)
        requires
            self.wf(),
        ensures
            r.wf(),
            r@ == cconj(self@),
    {
        CM31 { re: self.re, im: self.im.neg() }
    }

    /// The norm `re^2 + im^2`, which lies in `F_p`.
    pub fn norm(&self) -> (r: M31)
        requires
            self.wf(),
        ensures
            r.wf(),
            r@ == cnorm(self@),
    {
        proof {
            lemma_mod_sum(self@.0 * self@.0, self@.1 * self@.1);
        }
        self.re.mul(self.re).add(self.im.mul(self.im))
    }

    /// The multiplicative inverse `conj(x) / norm(x)`; fails exactly when the
    /// norm is zero, in particular on zero.
    pub fn try_inverse(&self) -> (r: Result<CM31, FieldError>)
        requires
            self.wf(),
        ensures
            self@ == czero() ==> r is Err,
            match r {
                Ok(v) => v.wf() && cnorm(self@) != 0 && cmul(self@, v@) == cone(),
                Err(e) => e == FieldError::DivisionByZero && cnorm(self@) == 0,
            },
    {
        let n = self.norm();
        match n.try_inverse() {
            Ok(d) => {
                let v = self.frobenius().mul_base(d);
                proof {
                    lemma_cmul_inverse(self@, d@);
                }
                Ok(v)
            },
            Err(e) => Err(e),
        }
    }

    /// `self * rhs^-1`; fails when `rhs` has no inverse.
    pub fn div(self, rhs: CM31) -> (r: Result<CM31, FieldError>)
        requires
            self.wf(),
            rhs.wf(),
        ensures
            rhs@ == czero() ==> r is Err,
            match r {
                Ok(v) => v.wf() && cnorm(rhs@) != 0 && cmul(v@, rhs@) == self@,
                Err(e) => e == FieldError::DivisionByZero && cnorm(rhs@) == 0,
            },
    {
        let inv = rhs.try_inverse()?;
        let v = self.mul(inv);
        proof {
            lemma_cmul_assoc(self@, inv@, rhs@);
            lemma_cmul_comm(inv@, rhs@);
            lemma_cmul_one_zero(self@);
        }
        Ok(v)
    }

    /// `self^e`, by repeated squaring.
    pub fn exp_u64(&self, e: u64) -> (r: CM31)
        requires
            self.wf(),
        ensures
            r.wf(),
            r@ == cpow(self@, e as nat),
    {
        let mut acc = CM31::one();
        let mut base = *self;
        let mut k: u64 = e;
        proof {
            lemma_cpow_canonical(self@, e as nat);
            lemma_cmul_one_zero(cpow(self@, e as nat));
        }
        while k > 0
            invariant
                acc.wf(),
                base.wf(),
                self.wf(),
                cmul(acc@, cpow(base@, k as nat)) == cpow(self@, e as nat),
            decreases k,
        {
            proof {
                lemma_cexp_step(acc@, base@, k as nat);
            }
            if k % 2 == 1 {
                acc = acc.mul(base);
            }
            base = base.mul(base);
            k = k / 2;
        }
        proof {
            lemma_cmul_one_zero(acc@);
        }
        acc
    }

    /// The generator `12 + i` of the multiplicative group.
    pub fn generator() -> (r: CM31)
        ensures
            r.wf(),
            r@ == cgenerator(),
    {
        CM31 { re: M31 { value: 12 }, im: M31 { value: 1 } }
    }

    /// The number of elements, `p^2`.
    pub fn order() -> (r: u64)
        ensures
            r == ORDER,
            r as int == modulus() * modulus(),
    {
        assert(ORDER as int == modulus() * modulus()) by (nonlinear_arith);
        ORDER
    }

    /// A generator of the subgroup of order `2^bits`: the group generator
    /// raised to `(p^2 - 1) / 2^bits`. Fails when `2^bits` does not divide
    /// the group order, that is when `bits` exceeds `TWO_ADICITY`.
    pub fn two_adic_generator(bits: usize) -> (r: Result<CM31, FieldError>)
        ensures
            match r {
                Ok(v) => bits <= TWO_ADICITY && v.wf() && v@ == cpow(cgenerator(), ccofactor(bits as nat)),
                Err(e) => e == FieldError::UnsupportedOrder && bits > TWO_ADICITY,
            },
    {
        if bits > TWO_ADICITY {
            return Err(FieldError::UnsupportedOrder);
        }
        let mut cof: u64 = ORDER - 1;
        let mut i: usize = 0;
        proof {
            assert(two_pow(0) == 1);
        }
        while i < bits
            invariant
                i <= bits,
                cof as nat == ((ORDER - 1) as nat) / two_pow(i as nat),
            decreases bits - i,
        {
            proof {
                lemma_two_pow_positive(i as nat);
                lemma_div_denominator((ORDER - 1) as int, two_pow(i as nat) as int, 2);
            }
            cof = cof / 2;
            i = i + 1;
        }
        Ok(CM31::generator().exp_u64(cof))
    }

    /// The coordinates as a sequence.
    pub open spec fn as_seq(&self) -> Seq<M31> {
        seq![self.re, self.im]
    }

    /// The element with coordinates `s[0..2]`.
    pub open spec fn from_seq(s: Seq<M31>) -> CM31 {
        CM31 { re: s[0], im: s[1] }
    }

    /// The coordinates `[re, im]`.
    pub fn as_base_slice(&self) -> (r: Vec<M31>)
        ensures
            r@ == self.as_seq(),
    {
        vec![self.re, self.im]
    }

    /// The element with coordinates `bs`, which must have length two.
    pub fn from_base_slice(bs: &[M31]) -> (r: Result<CM31, FieldError>)
        requires
            forall|i: int| 0 <= i < bs@.len() ==> (#[trigger] bs@[i]).wf(),
        ensures
            match r {
                Ok(v) => bs@.len() == 2 && v.wf() && v == CM31::from_seq(bs@),
                Err(e) => e == FieldError::ShapeMismatch && bs@.len() != 2,
            },
    {
        if bs.len() != 2 {
            return Err(FieldError::ShapeMismatch);
        }
        Ok(CM31 { re: bs[0], im: bs[1] })
    }
}

// Ring laws of the quadratic layer, over canonical pairs.

pub proof fn lemma_c_canonical(a: Complex, b: Complex, s: int)
    ensures
        c_canonical(cadd(a, b)),
        c_canonical(csub(a, b)),
        c_canonical(cneg(a)),
        c_canonical(cmul(a, b)),
        c_canonical(cscale(a, s)),
        is_canonical(cnorm(a)),
{
    lemma_mod_canonical(a.0 + b.0);
    lemma_mod_canonical(a.1 + b.1);
    lemma_mod_canonical(a.0 - b.0);
    lemma_mod_canonical(a.1 - b.1);
    lemma_mod_canonical(-a.0);
    lemma_mod_canonical(-a.1);
    lemma_mod_canonical(a.0 * b.0 - a.1 * b.1);
    lemma_mod_canonical(a.0 * b.1 + a.1 * b.0);
    lemma_mod_canonical(a.0 * s);
    lemma_mod_canonical(a.1 * s);
    lemma_mod_canonical(a.0 * a.0 + a.1 * a.1);
}

pub proof fn lemma_cadd_comm(a: Complex, b: Complex)
    ensures
        cadd(a, b) == cadd(b, a),
{
}

pub proof fn lemma_cadd_assoc(a: Complex, b: Complex, c: Complex)
    ensures
        cadd(cadd(a, b), c) == cadd(a, cadd(b, c)),
{
    lemma_mod_sum(a.0 + b.0, c.0);
    lemma_mod_sum(a.0, b.0 + c.0);
    lemma_mod_sum(a.1 + b.1, c.1);
    lemma_mod_sum(a.1, b.1 + c.1);
    assert(a.0 + b.0 + c.0 == a.0 + (b.0 + c.0));
    assert(a.1 + b.1 + c.1 == a.1 + (b.1 + c.1));
}

/// `(p + q) + (r + s) == (p + r) + (s + q) == (p + r) + (q + s)`
pub proof fn lemma_cadd_swap(p: Complex, q: Complex, r: Complex, s: Complex)
    ensures
        cadd(cadd(p, q), cadd(r, s)) == cadd(cadd(p, r), cadd(s, q)),
        cadd(cadd(p, q), cadd(r, s)) == cadd(cadd(p, r), cadd(q, s)),
{
    lemma_cadd_comm(s, q);
    lemma_mod_sum(p.0 + q.0, r.0 + s.0);
    lemma_mod_sum(p.0 + r.0, s.0 + q.0);
    lemma_mod_sum(p.1 + q.1, r.1 + s.1);
    lemma_mod_sum(p.1 + r.1, s.1 + q.1);
}

pub proof fn lemma_cadd_zero(a: Complex)
    requires
        c_canonical(a),
    ensures
        cadd(a, czero()) == a,
        cadd(czero(), a) == a,
{
    lemma_canonical_mod(a.0);
    lemma_canonical_mod(a.1);
}

pub proof fn lemma_cadd_neg(a: Complex)
    ensures
        cadd(a, cneg(a)) == czero(),
{
    lemma_mod_sum(a.0, -a.0);
    lemma_mod_sum(a.1, -a.1);
    lemma_mod_sum(0, 0);
    lemma_small_mod(0, modulus() as nat);
    assert(a.0 + (-a.0) == 0);
}

pub proof fn lemma_cmul_comm(a: Complex, b: Complex)
    ensures
        cmul(a, b) == cmul(b, a),
{
    assert(a.0 * b.0 == b.0 * a.0) by (nonlinear_arith);
    assert(a.1 * b.1 == b.1 * a.1) by (nonlinear_arith);
    assert(a.0 * b.1 == b.1 * a.0) by (nonlinear_arith);
    assert(a.1 * b.0 == b.0 * a.1) by (nonlinear_arith);
}

pub proof fn lemma_cmul_assoc(a: Complex, b: Complex, c: Complex)
    ensures
        cmul(cmul(a, b), c) == cmul(a, cmul(b, c)),
{
    let (a0, a1, b0, b1, c0, c1) = (a.0, a.1, b.0, b.1, c.0, c.1);
    let u0 = a0 * b0 - a1 * b1;
    let u1 = a0 * b1 + a1 * b0;
    let v0 = b0 * c0 - b1 * c1;
    let v1 = b0 * c1 + b1 * c0;
    lemma_mod_combination(u0, u1, c0, c1);
    lemma_mod_combination(u0, u1, c1, c0);
    lemma_mod_combination(v0, v1, a0, a1);
    lemma_mod_combination(v1, v0, a0, a1);
    assert(u0 * c0 == a0 * b0 * c0 - a1 * b1 * c0) by (nonlinear_arith)
        requires u0 == a0 * b0 - a1 * b1;
    assert(u1 * c1 == a0 * b1 * c1 + a1 * b0 * c1) by (nonlinear_arith)
        requires u1 == a0 * b1 + a1 * b0;
    assert(a0 * v0 == a0 * b0 * c0 - a0 * b1 * c1) by (nonlinear_arith)
        requires v0 == b0 * c0 - b1 * c1;
    assert(a1 * v1 == a1 * b0 * c1 + a1 * b1 * c0) by (nonlinear_arith)
        requires v1 == b0 * c1 + b1 * c0;
    assert(u0 * c1 == a0 * b0 * c1 - a1 * b1 * c1) by (nonlinear_arith)
        requires u0 == a0 * b0 - a1 * b1;
    assert(u1 * c0 == a0 * b1 * c0 + a1 * b0 * c0) by (nonlinear_arith)
        requires u1 == a0 * b1 + a1 * b0;
    assert(a0 * v1 == a0 * b0 * c1 + a0 * b1 * c0) by (nonlinear_arith)
        requires v1 == b0 * c1 + b1 * c0;
    assert(a1 * v0 == a1 * b0 * c0 - a1 * b1 * c1) by (nonlinear_arith)
        requires v0 == b0 * c0 - b1 * c1;
}

/// `a * (b + c) == a * b + a * c`
pub proof fn lemma_cmul_distrib(a: Complex, b: Complex, c: Complex)
    ensures
        cmul(a, cadd(b, c)) == cadd(cmul(a, b), cmul(a, c)),
        cmul(cadd(b, c), a) == cadd(cmul(b, a), cmul(c, a)),
{
    let (a0, a1, b0, b1, c0, c1) = (a.0, a.1, b.0, b.1, c.0, c.1);
    lemma_mod_combination(b0 + c0, b1 + c1, a0, a1);
    lemma_mod_combination(b1 + c1, b0 + c0, a0, a1);
    lemma_mod_sum(a0 * b0 - a1 * b1, a0 * c0 - a1 * c1);
    lemma_mod_sum(a0 * b1 + a1 * b0, a0 * c1 + a1 * c0);
    assert(a0 * (b0 + c0) == a0 * b0 + a0 * c0) by (nonlinear_arith);
    assert(a1 * (b1 + c1) == a1 * b1 + a1 * c1) by (nonlinear_arith);
    assert(a0 * (b1 + c1) == a0 * b1 + a0 * c1) by (nonlinear_arith);
    assert(a1 * (b0 + c0) == a1 * b0 + a1 * c0) by (nonlinear_arith);
    lemma_cmul_comm(a, cadd(b, c));
    lemma_cmul_comm(a, b);
    lemma_cmul_comm(a, c);
}

pub proof fn lemma_cmul_one_zero(a: Complex)
    requires
        c_canonical(a),
    ensures
        cmul(a, cone()) == a,
        cmul(cone(), a) == a,
        cmul(a, czero()) == czero(),
        cmul(czero(), a) == czero(),
{
    lemma_canonical_mod(a.0);
    lemma_canonical_mod(a.1);
    lemma_small_mod(0, modulus() as nat);
    lemma_cmul_comm(a, cone());
    lemma_cmul_comm(a, czero());
}

/// `x * (-y) == -(x * y)` and `(-x) * (-y) == x * y`
pub proof fn lemma_cmul_neg(x: Complex, y: Complex)
    ensures
        cmul(x, cneg(y)) == cneg(cmul(x, y)),
        cmul(cneg(x), y) == cneg(cmul(x, y)),
        cmul(cneg(x), cneg(y)) == cmul(x, y),
{
    lemma_cmul_neg_once(x, y);
    lemma_cmul_comm(cneg(x), y);
    lemma_cmul_neg_once(y, x);
    lemma_cmul_comm(y, x);
    lemma_cmul_neg_once(cneg(x), y);
    lemma_c_canonical(x, y, 0);
    lemma_cneg_cneg(cmul(x, y));
}

proof fn lemma_cmul_neg_once(x: Complex, y: Complex)
    ensures
        cmul(x, cneg(y)) == cneg(cmul(x, y)),
{
    let (x0, x1, y0, y1) = (x.0, x.1, y.0, y.1);
    lemma_mod_combination(-y0, -y1, x0, x1);
    lemma_mod_combination(-y1, -y0, x0, x1);
    lemma_mod_sum(x0 * y0 - x1 * y1, 0);
    lemma_mod_sum(x0 * y1 + x1 * y0, 0);
    assert(x0 * (-y0) - x1 * (-y1) == -(x0 * y0 - x1 * y1)) by (nonlinear_arith);
    assert(x0 * (-y1) + x1 * (-y0) == -(x0 * y1 + x1 * y0)) by (nonlinear_arith);
}

pub proof fn lemma_cneg_cneg(a: Complex)
    requires
        c_canonical(a),
    ensures
        cneg(cneg(a)) == a,
{
    lemma_mod_sum(-a.0, 0);
    lemma_mod_sum(-a.1, 0);
    lemma_canonical_mod(a.0);
    lemma_canonical_mod(a.1);
}

/// `-(x + y) == -x + -y` and `x - y == x + (-y)`
pub proof fn lemma_cneg_add(x: Complex, y: Complex)
    ensures
        cneg(cadd(x, y)) == cadd(cneg(x), cneg(y)),
        csub(x, y) == cadd(x, cneg(y)),
{
    lemma_mod_sum(x.0 + y.0, 0);
    lemma_mod_sum(x.1 + y.1, 0);
    lemma_mod_sum(-x.0, -y.0);
    lemma_mod_sum(-x.1, -y.1);
    lemma_mod_sum(x.0, -y.0);
    lemma_mod_sum(x.1, -y.1);
}

/// Multiplying by an embedded base element scales every coefficient.
pub proof fn lemma_cmul_base(a: Complex, s: int)
    ensures
        cmul(a, cfrom_base(s)) == cscale(a, s),
{
    assert(a.1 * 0 == 0);
    assert(a.0 * 0 == 0);
}

pub proof fn lemma_cmul_scale(a: Complex, x: Complex, d: int)
    ensures
        cmul(a, cscale(x, d)) == cscale(cmul(a, x), d),
{
    let (a0, a1, x0, x1) = (a.0, a.1, x.0, x.1);
    lemma_mod_combination(x0 * d, x1 * d, a0, a1);
    lemma_mod_combination(x1 * d, x0 * d, a0, a1);
    lemma_mod_product(a0 * x0 - a1 * x1, d);
    lemma_mod_product(a0 * x1 + a1 * x0, d);
    assert(a0 * (x0 * d) - a1 * (x1 * d) == (a0 * x0 - a1 * x1) * d) by (nonlinear_arith);
    assert(a0 * (x1 * d) + a1 * (x0 * d) == (a0 * x1 + a1 * x0) * d) by (nonlinear_arith);
}

/// `x * conj(x)` is the embedded norm.
pub proof fn lemma_cmul_conj(a: Complex)
    requires
        c_canonical(a),
    ensures
        cmul(a, cconj(a)) == cfrom_base(cnorm(a)),
{
    let (a0, a1) = (a.0, a.1);
    lemma_canonical_mod(a0);
    lemma_mod_combination(a0, -a1, a0, a1);
    lemma_mod_combination(-a1, a0, a0, a1);
    assert(a0 * a0 - a1 * (-a1) == a0 * a0 + a1 * a1) by (nonlinear_arith);
    assert(a0 * (-a1) + a1 * a0 == 0) by (nonlinear_arith);
    lemma_small_mod(0, modulus() as nat);
}

proof fn lemma_cmul_inverse(a: Complex, d: int)
    requires
        c_canonical(a),
        fmul(cnorm(a), d) == 1,
    ensures
        cmul(a, cscale(cconj(a), d)) == cone(),
{
    lemma_cmul_scale(a, cconj(a), d);
    lemma_cmul_conj(a);
    lemma_small_mod(0, modulus() as nat);
}

/// The norm is multiplicative.
pub proof fn lemma_cnorm_mul(a: Complex, b: Complex)
    ensures
        cnorm(cmul(a, b)) == fmul(cnorm(a), cnorm(b)),
{
    let (a0, a1, b0, b1) = (a.0, a.1, b.0, b.1);
    let u0 = a0 * b0 - a1 * b1;
    let u1 = a0 * b1 + a1 * b0;
    lemma_mod_combination(u0, u1, u0 % modulus(), u1 % modulus());
    lemma_mod_combination(u0, u1, u0, u1);
    lemma_mod_product(a0 * a0 + a1 * a1, b0 * b0 + b1 * b1);
    lemma_square_expand(a0 * b0, a1 * b1);
    lemma_square_expand(a0 * b1, a1 * b0);
    assert((a0 * b0) * (a1 * b1) == (a0 * b1) * (a1 * b0)) by (nonlinear_arith);
    lemma_product_expand(a0 * a0, a1 * a1, b0 * b0, b1 * b1);
    lemma_square_product(a0, b0);
    lemma_square_product(a0, b1);
    lemma_square_product(a1, b0);
    lemma_square_product(a1, b1);
    assert(u0 * u0 + u1 * u1 == (a0 * a0 + a1 * a1) * (b0 * b0 + b1 * b1));
}

proof fn lemma_square_expand(p: int, q: int)
    ensures
        (p - q) * (p - q) == p * p - 2 * (p * q) + q * q,
        (p + q) * (p + q) == p * p + 2 * (p * q) + q * q,
{
    assert((p - q) * (p - q) == p * p - 2 * (p * q) + q * q) by (nonlinear_arith);
    assert((p + q) * (p + q) == p * p + 2 * (p * q) + q * q) by (nonlinear_arith);
}

proof fn lemma_product_expand(a: int, b: int, c: int, d: int)
    ensures
        (a + b) * (c + d) == a * c + a * d + b * c + b * d,
{
    assert((a + b) * (c + d) == a * c + a * d + b * c + b * d) by (nonlinear_arith);
}

proof fn lemma_square_product(x: int, y: int)
    ensures
        (x * x) * (y * y) == (x * y) * (x * y),
{
    assert((x * x) * (y * y) == (x * y) * (x * y)) by (nonlinear_arith);
}

/// Conjugation is multiplicative.
pub proof fn lemma_cconj_mul(a: Complex, b: Complex)
    requires
        c_canonical(a),
        c_canonical(b),
    ensures
        cconj(cmul(a, b)) == cmul(cconj(a), cconj(b)),
{
    let (a0, a1, b0, b1) = (a.0, a.1, b.0, b.1);
    lemma_canonical_mod(a0);
    lemma_canonical_mod(b0);
    lemma_mod_product(-a1, -b1);
    lemma_mod_product(a0, -b1);
    lemma_mod_product(-a1, b0);
    lemma_mod_sum(a0 * b0, ((-a1) % modulus()) * ((-b1) % modulus()));
    lemma_mod_sum(a0 * b0, (-a1) * (-b1));
    lemma_mod_sum(a0 * ((-b1) % modulus()), ((-a1) % modulus()) * b0);
    lemma_mod_sum(a0 * (-b1), (-a1) * b0);
    lemma_mod_sum(a0 * b1 + a1 * b0, 0);
    assert((-a1) * (-b1) == a1 * b1) by (nonlinear_arith);
    assert(a0 * (-b1) + (-a1) * b0 == -(a0 * b1 + a1 * b0)) by (nonlinear_arith);
}

/// Conjugation is an involution and fixes the embedded base field.
pub proof fn lemma_cconj_involution(a: Complex, b: int)
    requires
        c_canonical(a),
    ensures
        cconj(cconj(a)) == a,
        cconj(cfrom_base(b)) == cfrom_base(b),
{
    lemma_mod_sum(-a.1, 0);
    lemma_canonical_mod(a.1);
    lemma_small_mod(0, modulus() as nat);
}

pub proof fn lemma_cpow_canonical(a: Complex, n: nat)
    requires
        c_canonical(a),
    ensures
        c_canonical(cpow(a, n)),
    decreases n,
{
    if n > 0 {
        lemma_cpow_canonical(a, (n - 1) as nat);
        lemma_c_canonical(a, cpow(a, (n - 1) as nat), 0);
    }
}

proof fn lemma_cpow_unfold(a: Complex, n: nat)
    requires
        n > 0,
    ensures
        cpow(a, n) == cmul(a, cpow(a, (n - 1) as nat)),
{
}

/// `a^(2k) == (a * a)^k`
pub proof fn lemma_cpow_square(a: Complex, k: nat)
    ensures
        cpow(a, 2 * k) == cpow(cmul(a, a), k),
    decreases k,
{
    if k > 0 {
        let m = (2 * k - 2) as nat;
        lemma_cpow_square(a, (k - 1) as nat);
        lemma_cpow_unfold(a, (2 * k - 1) as nat);
        lemma_cpow_unfold(a, 2 * k);
        lemma_cpow_unfold(cmul(a, a), k);
        lemma_cmul_assoc(a, a, cpow(a, m));
    }
}

/// One step of square-and-multiply: `acc * base^k` is unchanged when the
/// low bit of `k` moves into `acc` and `base` is squared.
proof fn lemma_cexp_step(acc: Complex, base: Complex, k: nat)
    ensures
        k % 2 == 1 ==> cmul(cmul(acc, base), cpow(cmul(base, base), k / 2)) == cmul(acc, cpow(base, k)),
        k % 2 == 0 ==> cmul(acc, cpow(cmul(base, base), k / 2)) == cmul(acc, cpow(base, k)),
{
    lemma_cpow_square(base, k / 2);
    if k % 2 == 1 {
        lemma_cpow_unfold(base, k);
        assert((k - 1) as nat == 2 * (k / 2));
        lemma_cmul_assoc(acc, base, cpow(base, (k - 1) as nat));
    }
}

/// Powers of two are positive.
pub proof fn lemma_two_pow_positive(n: nat)
    ensures
        two_pow(n) > 0,
    decreases n,
{
    if n > 0 {
        lemma_two_pow_positive((n - 1) as nat);
    }
}

/// `2^TWO_ADICITY` divides `p^2 - 1` and `2^(TWO_ADICITY + 1)` does not.
pub proof fn lemma_two_adicity()
    ensures
        ((ORDER - 1) as nat) % two_pow(TWO_ADICITY as nat) == 0,
        ((ORDER - 1) as nat) % two_pow(TWO_ADICITY as nat + 1) != 0,
{
    reveal_with_fuel(two_pow, 34);
    assert(two_pow(32) == 0x1_0000_0000);
    assert(two_pow(33) == 0x2_0000_0000);
    assert(((ORDER - 1) as nat) % 0x2_0000_0000 == 0x1_0000_0000) by (nonlinear_arith);
}

} // verus!
