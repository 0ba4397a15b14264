//! The quartic layer `QM31 = CM31[u]/(u^2 - W)` with `W = 2 + i`: the
//! binomial extension of degree two over the quadratic layer.

use vstd::prelude::*;
use vstd::arithmetic::div_mod::{lemma_div_denominator, lemma_small_mod};

use crate::cm31::{
    c_canonical, cadd, cfrom_base, cmul, cneg, cnorm, cone, cscale, csub, czero, lemma_c_canonical,
    lemma_cadd_assoc, lemma_cadd_comm, lemma_cadd_neg, lemma_cadd_swap, lemma_cadd_zero,
    lemma_cconj_involution, lemma_cmul_assoc, lemma_cmul_base, lemma_cmul_comm, lemma_cmul_distrib,
    lemma_cmul_neg, lemma_cmul_one_zero, lemma_cneg_add, lemma_cneg_cneg, lemma_cnorm_mul,
    lemma_two_pow_positive, two_pow, Complex, CM31,
};
use crate::error::FieldError;
use crate::m31::{fmul, lemma_canonical_mod, modulus, M31, P};

verus! {

/// An element `x.0 + x.1 * u` of the quartic layer, with `u^2 = 2 + i`.
pub type Quartic = (Complex, Complex);

/// The non-residue `W = 2 + i` of the quartic layer.
pub open spec fn w2() -> Complex {
    (2, 1)
}

pub open spec fn q_canonical(a: Quartic) -> bool {
    c_canonical(a.0) && c_canonical(a.1)
}

pub open spec fn qzero() -> Quartic {
    (czero(), czero())
}

pub open spec fn qone() -> Quartic {
    (cone(), czero())
}

/// The embedding of the quadratic layer as the constant coefficient.
pub open spec fn qembed(c: Complex) -> Quartic {
    (c, czero())
}

/// The embedding of `F_p`, through the quadratic layer.
pub open spec fn qfrom_base(b: int) -> Quartic {
    qembed(cfrom_base(b))
}

pub open spec fn qadd(a: Quartic, b: Quartic) -> Quartic {
    (cadd(a.0, b.0), cadd(a.1, b.1))
}

pub open spec fn qsub(a: Quartic, b: Quartic) -> Quartic {
    (csub(a.0, b.0), csub(a.1, b.1))
}

pub open spec fn qneg(a: Quartic) -> Quartic {
    (cneg(a.0), cneg(a.1))
}

/// The schoolbook product reduced by `u^2 = W`: the constant coefficient
/// gathers `a0 * b0` and the wrapped term `W * a1 * b1`.
pub open spec fn qmul(a: Quartic, b: Quartic) -> Quartic {
    (cadd(cmul(a.0, b.0), cmul(w2(), cmul(a.1, b.1))), cadd(cmul(a.0, b.1), cmul(a.1, b.0)))
}

/// Multiplication of all four base coefficients by a base element.
pub open spec fn qscale(a: Quartic, s: int) -> Quartic {
    (cscale(a.0, s), cscale(a.1, s))
}

/// The Frobenius map `x -> x^(p^2)`, which fixes the quadratic layer and
/// sends `u` to `-u`.
pub open spec fn qfrob(a: Quartic) -> Quartic {
    (a.0, cneg(a.1))
}

/// The norm down to the quadratic layer, `x * frob(x) = a0^2 - W * a1^2`.
pub open spec fn qrel_norm(a: Quartic) -> Complex {
    csub(cmul(a.0, a.0), cmul(w2(), cmul(a.1, a.1)))
}

/// The norm down to `F_p`: the norm of the quadratic norm.
pub open spec fn qnorm(a: Quartic) -> int {
    cnorm(qrel_norm(a))
}

pub open spec fn qpow(a: Quartic, n: nat) -> Quartic
    decreases n,
{
    if n == 0 {
        qone()
    } else {
        qmul(a, qpow(a, (n - 1) as nat))
    }
}

/// The sum of a sequence, folded from the left starting at zero.
pub open spec fn qsum(s: Seq<QM31>) -> Quartic
    decreases s.len(),
{
    if s.len() == 0 {
        qzero()
    } else {
        qadd(qsum(s.drop_last()), s.last()@)
    }
}

/// The product of a sequence, folded from the left starting at one.
pub open spec fn qproduct(s: Seq<QM31>) -> Quartic
    decreases s.len(),
{
    if s.len() == 0 {
        qone()
    } else {
        qmul(qproduct(s.drop_last()), s.last()@)
    }
}

/// The number of elements of the quartic layer, `p^4`.
pub const ORDER: u128 = 21267647892944572736998860269687930881;

/// The largest `k` such that `2^k` divides `p^4 - 1`.
pub const TWO_ADICITY: usize = 33;

/// A generator of the multiplicative group: `u + 6`.
pub open spec fn qgenerator() -> Quartic {
    ((6, 0), (1, 0))
}

/// The exponent that maps the generator into the subgroup of order `2^bits`.
pub open spec fn cofactor(bits: nat) -> nat {
    ((ORDER - 1) as nat) / two_pow(bits)
}

/// An element of the quartic layer: `re + im * u` with `u^2 = 2 + i`.
#[derive(Clone, Copy, Debug, PartialEq, Eq, Structural, Hash)]
pub struct QM31 {
    pub re: CM31,
    pub im: CM31,
}

impl View for QM31 {
    type V = Quartic;

    open spec fn view(&self) -> Quartic {
        (self.re@, self.im@)
    }
}

impl QM31 {
    pub open spec fn wf(&self) -> bool {
        self.re.wf() && self.im.wf()
    }

    pub fn new(re: CM31, im: CM31) -> (r: QM31)
        requires
            re.wf(),
            im.wf(),
        ensures
            r.wf(),
            r.re == re,
            r.im == im,
    {
        QM31 { re, im }
    }

    pub fn zero() -> (r: QM31)
        ensures
            r.wf(),
            r@ == qzero(),
    {
        QM31 { re: CM31::zero(), im: CM31::zero() }
    }

    pub fn one() -> (r: QM31)
        ensures
            r.wf(),
            r@ == qone(),
    {
        QM31 { re: CM31::one(), im: CM31::zero() }
    }

    /// The embedding of a base element: `(b, 0, 0, 0)`.
    pub fn from_base(b: M31) -> (r: QM31)
        requires
            b.wf(),
        ensures
            r.wf(),
            r@ == qfrom_base(b@),
    {
        QM31 { re: CM31::from_base(b), im: CM31::zero() }
    }

    pub fn two() -> (r: QM31)
        ensures
            r.wf(),
            r@ == qfrom_base(2),
    {
        QM31::from_base(M31::from_canonical_u32(2))
    }

    pub fn neg_one() -> (r: QM31)
        ensures
            r.wf(),
            r@ == qfrom_base(modulus() - 1),
    {
        QM31::from_base(M31::from_canonical_u32(P - 1))
    }

    /// One for `true`, zero for `false`.
    pub fn from_bool(b: bool) -> (r: QM31)
        ensures
            r.wf(),
            r@ == qfrom_base(if b { 1int } else { 0int }),
    {
        QM31::from_base(M31::from_canonical_u32(if b { 1 } else { 0 }))
    }

    /// The embedding of `n`, for `n` already below `p`.
    pub fn from_canonical_u32(n: u32) -> (r: QM31)
        requires
            n < P,
        ensures
            r.wf(),
            r@ == qfrom_base(n as int),
    {
        QM31::from_base(M31::from_canonical_u32(n))
    }

    /// The embedding of `n` reduced modulo `p`.
    pub fn from_wrapped_u32(n: u32) -> (r: QM31)
        ensures
            r.wf(),
            r@ == qfrom_base(n as int % modulus()),
    {
        QM31::from_base(M31::new(n))
    }

    /// The embedding of `n` reduced modulo `p`.
    pub fn from_wrapped_u64(n: u64) -> (r: QM31)
        ensures
            r.wf(),
            r@ == qfrom_base(n as int % modulus()),
    {
        QM31::from_base(M31::from_wrapped_u64(n))
    }

    /// The embedding of an element of the quadratic layer.
    pub fn from_complex(c: CM31) -> (r: QM31)
        requires
            c.wf(),
        ensures
            r.wf(),
            r@ == qembed(c@),
    {
        QM31 { re: c, im: CM31::zero() }
    }

    pub fn is_zero(&self) -> (r: bool)
        requires
            self.wf(),
        ensures
            r == (self@ == qzero()),
    {
        self.re.is_zero() && self.im.is_zero()
    }

    pub fn add(self, rhs: QM31) -> (r: QM31)
        requires
            self.wf(),
            rhs.wf(),
        ensures
            r.wf(),
            r@ == qadd(self@, rhs@),
    {
        QM31 { re: self.re.add(rhs.re), im: self.im.add(rhs.im) }
    }

    pub fn sub(self, rhs: QM31) -> (r: QM31)
        requires
            self.wf(),
            rhs.wf(),
        ensures
            r.wf(),
            r@ == qsub(self@, rhs@),
    {
        QM31 { re: self.re.sub(rhs.re), im: self.im.sub(rhs.im) }
    }

    pub fn neg(self) -> (r: QM31)
        requires
            self.wf(),
        ensures
            r.wf(),
            r@ == qneg(self@),
    {
        QM31 { re: self.re.neg(), im: self.im.neg() }
    }

    pub fn mul(self, rhs: QM31) -> (r: QM31)
        requires
            self.wf(),
            rhs.wf(),
        ensures
            r.wf(),
            r@ == qmul(self@, rhs@),
    {
        let w = nonresidue();
        let re = self.re.mul(rhs.re).add(w.mul(self.im.mul(rhs.im)));
        let im = self.re.mul(rhs.im).add(self.im.mul(rhs.re));
        QM31 { re, im }
    }

    pub fn add_assign(&mut self, rhs: QM31)
        requires
            old(self).wf(),
            rhs.wf(),
        ensures
            final(self).wf(),
            final(self)@ == qadd(old(self)@, rhs@),
    {
        *self = self.add(rhs);
    }

    pub fn sub_assign(&mut self, rhs: QM31)
        requires
            old(self).wf(),
            rhs.wf(),
        ensures
            final(self).wf(),
            final(self)@ == qsub(old(self)@, rhs@),
    {
        *self = self.sub(rhs);
    }

    pub fn mul_assign(&mut self, rhs: QM31)
        requires
            old(self).wf(),
            rhs.wf(),
        ensures
            final(self).wf(),
            final(self)@ == qmul(old(self)@, rhs@),
    {
        *self = self.mul(rhs);
    }

    /// Multiplication by a base element: all four coordinates are scaled.
    pub fn mul_base(self, s: M31) -> (r: QM31)
        requires
            self.wf(),
            s.wf(),
        ensures
            r.wf(),
            r@ == qscale(self@, s@),
            r@ == qmul(self@, qfrom_base(s@)),
    {
        proof {
            lemma_qmul_base(self@, s@);
        }
        QM31 { re: self.re.mul_base(s), im: self.im.mul_base(s) }
    }

    /// Addition of a base element: only the first coordinate changes.
    pub fn add_base(self, s: M31) -> (r: QM31)
        requires
            self.wf(),
            s.wf(),
        ensures
            r.wf(),
            r@ == qadd(self@, qfrom_base(s@)),
            r.im == self.im,
            r.re.im == self.re.im,
    {
        proof {
            lemma_cadd_zero(self@.1);
        }
        QM31 { re: self.re.add_base(s), im: self.im }
    }

    /// Subtraction of a base element: only the first coordinate changes.
    pub fn sub_base(self, s: M31) -> (r: QM31)
        requires
            self.wf(),
            s.wf(),
        ensures
            r.wf(),
            r@ == qsub(self@, qfrom_base(s@)),
            r.im == self.im,
            r.re.im == self.re.im,
    {
        proof {
            lemma_canonical_mod(self@.1.0);
            lemma_canonical_mod(self@.1.1);
            lemma_small_mod(0, modulus() as nat);
        }
        QM31 { re: self.re.sub_base(s), im: self.im }
    }

    pub fn mul_base_assign(&mut self, s: M31)
        requires
            old(self).wf(),
            s.wf(),
        ensures
            final(self).wf(),
            final(self)@ == qscale(old(self)@, s@),
    {
        *self = self.mul_base(s);
    }

    pub fn add_base_assign(&mut self, s: M31)
        requires
            old(self).wf(),
            s.wf(),
        ensures
            final(self).wf(),
            final(self)@ == qadd(old(self)@, qfrom_base(s@)),
    {
        *self = self.add_base(s);
    }

    pub fn sub_base_assign(&mut self, s: M31)
        requires
            old(self).wf(),
            s.wf(),
        ensures
            final(self).wf(),
            final(self)@ == qsub(old(self)@, qfrom_base(s@)),
    {
        *self = self.sub_base(s);
    }

    /// The Frobenius endomorphism `x -> x^(p^2)`: negation of the outer
    /// imaginary part.
    pub fn frobenius(&self) -> (r: QM31)
        requires
            self.wf(),
        ensures
            r.wf(),
            r@ == qfrob(self@),
    {
        QM31 { re: self.re, im: self.im.neg() }
    }

    /// The norm down to the quadratic layer, `x * frobenius(x)`.
    pub fn relative_norm(&self) -> (r: CM31)
        requires
            self.wf(),
        ensures
            r.wf(),
            r@ == qrel_norm(self@),
    {
        let w = nonresidue();
        self.re.mul(self.re).sub(w.mul(self.im.mul(self.im)))
    }

    /// The norm down to `F_p`.
    pub fn norm(&self) -> (r: M31)
        requires
            self.wf(),
        ensures
            r.wf(),
            r@ == qnorm(self@),
    {
        self.relative_norm().norm()
    }

    /// The multiplicative inverse `frobenius(x) / relative_norm(x)`; fails
    /// exactly when the norm is zero, in particular on zero.
    pub fn try_inverse(&self) -> (r: Result<QM31, FieldError>)
        requires
            self.wf(),
        ensures
            self@ == qzero() ==> r is Err,
            match r {
                Ok(v) => v.wf() && qnorm(self@) != 0 && qmul(self@, v@) == qone(),
                Err(e) => e == FieldError::DivisionByZero && qnorm(self@) == 0,
            },
    {
        let n = self.relative_norm();
        proof {
            if self@ == qzero() {
                lemma_qrel_norm_zero();
            }
        }
        match n.try_inverse() {
            Ok(d) => {
                let conj = self.frobenius();
                let v = QM31 { re: conj.re.mul(d), im: conj.im.mul(d) };
                proof {
                    lemma_qmul_inverse(self@, d@);
                }
                Ok(v)
            },
            Err(e) => Err(e),
        }
    }

    /// `self * rhs^-1`; fails when `rhs` has no inverse.
    pub fn div(self, rhs: QM31) -> (r: Result<QM31, FieldError>)
        requires
            self.wf(),
            rhs.wf(),
        ensures
            rhs@ == qzero() ==> r is Err,
            match r {
                Ok(v) => v.wf() && qnorm(rhs@) != 0 && qmul(v@, rhs@) == self@,
                Err(e) => e == FieldError::DivisionByZero && qnorm(rhs@) == 0,
            },
    {
        let inv = rhs.try_inverse()?;
        let v = self.mul(inv);
        proof {
            lemma_qmul_assoc(self@, inv@, rhs@);
            lemma_qmul_comm(inv@, rhs@);
            lemma_qmul_one(self@);
        }
        Ok(v)
    }

    /// The four coordinates over `F_p`: `[re.re, re.im, im.re, im.im]`.
    pub fn as_base_slice(&self) -> (r: Vec<M31>)
        ensures
            r@ == self.as_seq(),
    {
        vec![self.re.re, self.re.im, self.im.re, self.im.im]
    }

    /// The element with the given four coordinates, in the order of
    /// `as_base_slice`.
    pub fn from_base_slice(bs: &[M31]) -> (r: Result<QM31, FieldError>)
        requires
            forall|i: int| 0 <= i < bs@.len() ==> (#[trigger] bs@[i]).wf(),
        ensures
            match r {
                Ok(v) => bs@.len() == 4 && v.wf() && v == QM31::from_seq(bs@) && v.as_seq() == bs@,
                Err(e) => e == FieldError::ShapeMismatch && bs@.len() != 4,
            },
    {
        if bs.len() != 4 {
            return Err(FieldError::ShapeMismatch);
        }
        let v = QM31 {
            re: CM31 { re: bs[0], im: bs[1] },
            im: CM31 { re: bs[2], im: bs[3] },
        };
        proof {
            assert(v.as_seq() =~= bs@);
        }
        Ok(v)
    }

    /// `self^e`, by repeated squaring.
    pub fn exp_u128(&self, e: u128) -> (r: QM31)
        requires
            self.wf(),
        ensures
            r.wf(),
            r@ == qpow(self@, e as nat),
    {
        let mut acc = QM31::one();
        let mut base = *self;
        let mut k: u128 = e;
        proof {
            lemma_qpow_canonical(self@, e as nat);
            lemma_qmul_one(qpow(self@, e as nat));
        }
        while k > 0
            invariant
                acc.wf(),
                base.wf(),
                self.wf(),
                qmul(acc@, qpow(base@, k as nat)) == qpow(self@, e as nat),
            decreases k,
        {
            proof {
                lemma_exp_step(acc@, base@, k as nat);
            }
            if k % 2 == 1 {
                acc = acc.mul(base);
            }
            base = base.mul(base);
            k = k / 2;
        }
        proof {
            lemma_qmul_one(acc@);
        }
        acc
    }

    /// The generator `u + 6` of the multiplicative group.
    pub fn generator() -> (r: QM31)
        ensures
            r.wf(),
            r@ == qgenerator(),
    {
        QM31 { re: CM31 { re: M31 { value: 6 }, im: M31 { value: 0 } }, im: CM31::one() }
    }

    /// The number of elements, `p^4`.
    pub fn order() -> (r: u128)
        ensures
            r == ORDER,
            r as int == modulus() * modulus() * modulus() * modulus(),
    {
        assert(ORDER as int == modulus() * modulus() * modulus() * modulus()) by (nonlinear_arith);
        ORDER
    }

    /// A generator of the subgroup of order `2^bits`: the group generator
    /// raised to `(p^4 - 1) / 2^bits`. Fails when `2^bits` does not divide
    /// the group order, that is when `bits` exceeds `TWO_ADICITY`.
    pub fn two_adic_generator(bits: usize) -> (r: Result<QM31, FieldError>)
        ensures
            match r {
                Ok(v) => bits <= TWO_ADICITY && v.wf() && v@ == qpow(qgenerator(), cofactor(bits as nat)),
                Err(e) => e == FieldError::UnsupportedOrder && bits > TWO_ADICITY,
            },
    {
        if bits > TWO_ADICITY {
            return Err(FieldError::UnsupportedOrder);
        }
        let mut cof: u128 = ORDER - 1;
        let mut i: usize = 0;
        proof {
            assert(two_pow(0) == 1);
        }
        while i < bits
            invariant
                i <= bits,
                cof as nat == ((ORDER - 1) as nat) / two_pow(i as nat),
            decreases bits - i,
        {
            proof {
                lemma_two_pow_positive(i as nat);
                lemma_div_denominator((ORDER - 1) as int, two_pow(i as nat) as int, 2);
            }
            cof = cof / 2;
            i = i + 1;
        }
        Ok(QM31::generator().exp_u128(cof))
    }

    /// The sum of `items`, zero when empty.
    pub fn sum(items: &[QM31]) -> (r: QM31)
        requires
            forall|i: int| 0 <= i < items@.len() ==> (#[trigger] items@[i]).wf(),
        ensures
            r.wf(),
            r@ == qsum(items@),
    {
        let mut acc = QM31::zero();
        let mut i: usize = 0;
        while i < items.len()
            invariant
                i <= items@.len(),
                forall|j: int| 0 <= j < items@.len() ==> (#[trigger] items@[j]).wf(),
                acc.wf(),
                acc@ == qsum(items@.subrange(0, i as int)),
            decreases items@.len() - i,
        {
            proof {
                assert(items@.subrange(0, i as int + 1).drop_last() =~= items@.subrange(0, i as int));
            }
            acc = acc.add(items[i]);
            i = i + 1;
        }
        proof {
            assert(items@.subrange(0, i as int) =~= items@);
        }
        acc
    }

    /// The product of `items`, one when empty.
    pub fn product(items: &[QM31]) -> (r: QM31)
        requires
            forall|i: int| 0 <= i < items@.len() ==> (#[trigger] items@[i]).wf(),
        ensures
            r.wf(),
            r@ == qproduct(items@),
    {
        let mut acc = QM31::one();
        let mut i: usize = 0;
        while i < items.len()
            invariant
                i <= items@.len(),
                forall|j: int| 0 <= j < items@.len() ==> (#[trigger] items@[j]).wf(),
                acc.wf(),
                acc@ == qproduct(items@.subrange(0, i as int)),
            decreases items@.len() - i,
        {
            proof {
                assert(items@.subrange(0, i as int + 1).drop_last() =~= items@.subrange(0, i as int));
            }
            acc = acc.mul(items[i]);
            i = i + 1;
        }
        proof {
            assert(items@.subrange(0, i as int) =~= items@);
        }
        acc
    }

    /// The element whose `i`-th coordinate is `f(i)`, for `i` in `0..4`.
    pub fn from_base_fn<F: Fn(usize) -> M31>(f: F) -> (r: QM31)
        requires
            forall|i: usize| i < 4 ==> f.requires((i,)),
            forall|i: usize, v: M31| i < 4 && f.ensures((i,), v) ==> v.wf(),
        ensures
            r.wf(),
            forall|i: int| 0 <= i < 4 ==> f.ensures((i as usize,), #[trigger] r.as_seq()[i]),
    {
        let x0 = f(0);
        let x1 = f(1);
        let x2 = f(2);
        let x3 = f(3);
        let r = QM31 { re: CM31 { re: x0, im: x1 }, im: CM31 { re: x2, im: x3 } };
        proof {
            assert(r.as_seq()[0] == x0 && r.as_seq()[1] == x1 && r.as_seq()[2] == x2 && r.as_seq()[3] == x3);
        }
        r
    }

    /// The coordinates as a sequence, outer coefficient first.
    pub open spec fn as_seq(&self) -> Seq<M31> {
        seq![self.re.re, self.re.im, self.im.re, self.im.im]
    }

    /// The element with coordinates `s[0..4]`, outer coefficient first.
    pub open spec fn from_seq(s: Seq<M31>) -> QM31 {
        QM31 { re: CM31 { re: s[0], im: s[1] }, im: CM31 { re: s[2], im: s[3] } }
    }
}

impl From<M31> for QM31 {
    /// The embedding of a base element as the first coordinate.
    fn from(b: M31) -> (r: QM31) {
        QM31 { re: CM31 { re: b, im: M31 { value: 0 } }, im: CM31 { re: M31 { value: 0 }, im: M31 { value: 0 } } }
    }
}

impl vstd::std_specs::convert::FromSpecImpl<M31> for QM31 {
    open spec fn obeys_from_spec() -> bool {
        true
    }

    open spec fn from_spec(b: M31) -> QM31 {
        QM31 { re: CM31 { re: b, im: M31 { value: 0 } }, im: CM31 { re: M31 { value: 0 }, im: M31 { value: 0 } } }
    }
}

impl From<CM31> for QM31 {
    /// The embedding of an element of the quadratic layer as the real part.
    fn from(c: CM31) -> (r: QM31) {
        QM31 { re: c, im: CM31 { re: M31 { value: 0 }, im: M31 { value: 0 } } }
    }
}

impl vstd::std_specs::convert::FromSpecImpl<CM31> for QM31 {
    open spec fn obeys_from_spec() -> bool {
        true
    }

    open spec fn from_spec(c: CM31) -> QM31 {
        QM31 { re: c, im: CM31 { re: M31 { value: 0 }, im: M31 { value: 0 } } }
    }
}

// Ring laws of the quartic layer, proved from those of the quadratic layer.

pub proof fn lemma_q_canonical(a: Quartic, b: Quartic, s: int)
    ensures
        q_canonical(qadd(a, b)),
        q_canonical(qsub(a, b)),
        q_canonical(qneg(a)),
        q_canonical(qmul(a, b)),
        q_canonical(qscale(a, s)),
        c_canonical(qrel_norm(a)),
{
    lemma_c_canonical(a.0, b.0, s);
    lemma_c_canonical(a.1, b.1, s);
    lemma_c_canonical(cmul(a.0, b.0), cmul(w2(), cmul(a.1, b.1)), s);
    lemma_c_canonical(cmul(a.0, b.1), cmul(a.1, b.0), s);
    lemma_c_canonical(cmul(a.0, a.0), cmul(w2(), cmul(a.1, a.1)), s);
}

/// `w * (x * y) == x * (w * y)` in the quadratic layer.
proof fn lemma_cmul_rotate(w: Complex, x: Complex, y: Complex)
    ensures
        cmul(w, cmul(x, y)) == cmul(x, cmul(w, y)),
{
    lemma_cmul_assoc(w, x, y);
    lemma_cmul_comm(w, x);
    lemma_cmul_assoc(x, w, y);
}

pub proof fn lemma_qmul_comm(a: Quartic, b: Quartic)
    ensures
        qmul(a, b) == qmul(b, a),
{
    lemma_cmul_comm(a.0, b.0);
    lemma_cmul_comm(a.1, b.1);
    lemma_cmul_comm(a.0, b.1);
    lemma_cmul_comm(a.1, b.0);
    lemma_cadd_comm(cmul(a.0, b.1), cmul(a.1, b.0));
}

pub proof fn lemma_qmul_assoc(a: Quartic, b: Quartic, c: Quartic)
    ensures
        qmul(qmul(a, b), c) == qmul(a, qmul(b, c)),
{
    let (a0, a1, b0, b1, c0, c1, w) = (a.0, a.1, b.0, b.1, c.0, c.1, w2());
    let ab0 = cmul(a0, b0);
    let wab1 = cmul(w, cmul(a1, b1));
    let bc0 = cmul(b0, c0);
    let wbc1 = cmul(w, cmul(b1, c1));
    // constant coefficient
    lemma_cmul_distrib(c0, ab0, wab1);
    lemma_cmul_distrib(c1, cmul(a0, b1), cmul(a1, b0));
    lemma_cmul_distrib(w, cmul(cmul(a0, b1), c1), cmul(cmul(a1, b0), c1));
    lemma_cmul_distrib(a0, bc0, wbc1);
    lemma_cmul_distrib(a1, cmul(b0, c1), cmul(b1, c0));
    lemma_cmul_distrib(w, cmul(a1, cmul(b0, c1)), cmul(a1, cmul(b1, c0)));
    lemma_cmul_assoc(a0, b0, c0);
    lemma_cmul_assoc(w, cmul(a1, b1), c0);
    lemma_cmul_assoc(a1, b1, c0);
    lemma_cmul_assoc(a0, b1, c1);
    lemma_cmul_rotate(w, a0, cmul(b1, c1));
    lemma_cmul_assoc(a1, b0, c1);
    lemma_cadd_swap(
        cmul(ab0, c0),
        cmul(wab1, c0),
        cmul(w, cmul(cmul(a0, b1), c1)),
        cmul(w, cmul(cmul(a1, b0), c1)),
    );
    // coefficient of u
    lemma_cmul_distrib(c1, ab0, wab1);
    lemma_cmul_distrib(c0, cmul(a0, b1), cmul(a1, b0));
    lemma_cmul_distrib(a0, cmul(b0, c1), cmul(b1, c0));
    lemma_cmul_distrib(a1, bc0, wbc1);
    lemma_cmul_assoc(a0, b0, c1);
    lemma_cmul_assoc(w, cmul(a1, b1), c1);
    lemma_cmul_assoc(a1, b1, c1);
    lemma_cmul_rotate(w, a1, cmul(b1, c1));
    lemma_cmul_assoc(a0, b1, c0);
    lemma_cmul_assoc(a1, b0, c0);
    lemma_cadd_swap(
        cmul(ab0, c1),
        cmul(wab1, c1),
        cmul(cmul(a0, b1), c0),
        cmul(cmul(a1, b0), c0),
    );
}

/// `a * (b + c) == a * b + a * c`
pub proof fn lemma_qmul_distrib(a: Quartic, b: Quartic, c: Quartic)
    ensures
        qmul(a, qadd(b, c)) == qadd(qmul(a, b), qmul(a, c)),
{
    let (a0, a1, b0, b1, c0, c1, w) = (a.0, a.1, b.0, b.1, c.0, c.1, w2());
    lemma_cmul_distrib(a0, b0, c0);
    lemma_cmul_distrib(a1, b1, c1);
    lemma_cmul_distrib(w, cmul(a1, b1), cmul(a1, c1));
    lemma_cadd_swap(cmul(a0, b0), cmul(a0, c0), cmul(w, cmul(a1, b1)), cmul(w, cmul(a1, c1)));
    lemma_cmul_distrib(a0, b1, c1);
    lemma_cmul_distrib(a1, b0, c0);
    lemma_cadd_swap(cmul(a0, b1), cmul(a0, c1), cmul(a1, b0), cmul(a1, c0));
}

pub proof fn lemma_qadd_laws(a: Quartic, b: Quartic, c: Quartic)
    ensures
        qadd(a, b) == qadd(b, a),
        qadd(qadd(a, b), c) == qadd(a, qadd(b, c)),
        qadd(a, qneg(a)) == qzero(),
        qsub(a, b) == qadd(a, qneg(b)),
{
    lemma_cadd_comm(a.0, b.0);
    lemma_cadd_comm(a.1, b.1);
    lemma_cadd_assoc(a.0, b.0, c.0);
    lemma_cadd_assoc(a.1, b.1, c.1);
    lemma_cadd_neg(a.0);
    lemma_cadd_neg(a.1);
    lemma_cneg_add(a.0, b.0);
    lemma_cneg_add(a.1, b.1);
}

/// Multiplying by an embedded element of the quadratic layer scales both
/// coefficients.
pub proof fn lemma_qmul_embed_right(x: Quartic, d: Complex)
    requires
        q_canonical(x),
        c_canonical(d),
    ensures
        qmul(x, qembed(d)) == (cmul(x.0, d), cmul(x.1, d)),
{
    lemma_cmul_one_zero(x.1);
    lemma_cmul_one_zero(x.0);
    lemma_cmul_one_zero(w2());
    lemma_c_canonical(x.0, d, 0);
    lemma_c_canonical(x.1, d, 0);
    lemma_cadd_zero(cmul(x.0, d));
    lemma_cadd_zero(cmul(x.1, d));
}

pub proof fn lemma_qmul_one(a: Quartic)
    requires
        q_canonical(a),
    ensures
        qmul(a, qone()) == a,
        qmul(qone(), a) == a,
{
    lemma_qmul_embed_right(a, cone());
    lemma_cmul_one_zero(a.0);
    lemma_cmul_one_zero(a.1);
    lemma_qmul_comm(a, qone());
}

/// The embedding of the quadratic layer respects products.
pub proof fn lemma_qmul_embed(c: Complex, d: Complex)
    requires
        c_canonical(c),
        c_canonical(d),
    ensures
        qmul(qembed(c), qembed(d)) == qembed(cmul(c, d)),
{
    lemma_qmul_embed_right(qembed(c), d);
    lemma_cmul_one_zero(d);
    lemma_cmul_comm(czero(), d);
}

/// Multiplying by an embedded base element scales all four coordinates.
pub proof fn lemma_qmul_base(a: Quartic, s: int)
    requires
        q_canonical(a),
        0 <= s < modulus(),
    ensures
        qmul(a, qfrom_base(s)) == qscale(a, s),
{
    lemma_qmul_embed_right(a, cfrom_base(s));
    lemma_cmul_base(a.0, s);
    lemma_cmul_base(a.1, s);
}

/// `x * frob(x)` is the embedded relative norm.
pub proof fn lemma_qmul_frob(a: Quartic)
    requires
        q_canonical(a),
    ensures
        qmul(a, qfrob(a)) == qembed(qrel_norm(a)),
{
    let (a0, a1, w) = (a.0, a.1, w2());
    lemma_cmul_neg(a1, a1);
    lemma_cmul_neg(w, cmul(a1, a1));
    lemma_cneg_add(cmul(a0, a0), cmul(w, cmul(a1, a1)));
    lemma_cmul_neg(a0, a1);
    lemma_cmul_comm(a1, a0);
    lemma_c_canonical(a0, a1, 0);
    lemma_cadd_comm(cneg(cmul(a0, a1)), cmul(a0, a1));
    lemma_cadd_neg(cmul(a0, a1));
}

pub proof fn lemma_qrel_norm_zero()
    ensures
        qrel_norm(qzero()) == czero(),
        qnorm(qzero()) == 0,
{
    lemma_cmul_one_zero(czero());
    lemma_cmul_one_zero(w2());
    lemma_small_mod(0, modulus() as nat);
}

proof fn lemma_qmul_inverse(a: Quartic, d: Complex)
    requires
        q_canonical(a),
        c_canonical(d),
        cmul(qrel_norm(a), d) == cone(),
    ensures
        qmul(a, (cmul(a.0, d), cmul(cneg(a.1), d))) == qone(),
{
    lemma_c_canonical(a.1, a.1, 0);
    lemma_qmul_embed_right(qfrob(a), d);
    lemma_qmul_assoc(a, qfrob(a), qembed(d));
    lemma_qmul_frob(a);
    lemma_q_canonical(a, a, 0);
    lemma_qmul_embed(qrel_norm(a), d);
}

/// The Frobenius map is multiplicative.
pub proof fn lemma_qfrob_mul(a: Quartic, b: Quartic)
    requires
        q_canonical(a),
        q_canonical(b),
    ensures
        qfrob(qmul(a, b)) == qmul(qfrob(a), qfrob(b)),
{
    lemma_cmul_neg(a.1, b.1);
    lemma_cmul_neg(a.0, b.1);
    lemma_cmul_neg(a.1, b.0);
    lemma_cneg_add(cmul(a.0, b.1), cmul(a.1, b.0));
}

/// The Frobenius map is an involution and fixes the embedded base field.
pub proof fn lemma_qfrob_involution(a: Quartic, b: int)
    requires
        q_canonical(a),
    ensures
        qfrob(qfrob(a)) == a,
        qfrob(qfrom_base(b)) == qfrom_base(b),
{
    lemma_cneg_cneg(a.1);
    lemma_cneg_cneg(czero());
    lemma_cconj_involution(a.0, b);
}

/// `(a * b) * (c * d) == (a * c) * (b * d)`
proof fn lemma_qmul_swap_middle(a: Quartic, b: Quartic, c: Quartic, d: Quartic)
    ensures
        qmul(qmul(a, b), qmul(c, d)) == qmul(qmul(a, c), qmul(b, d)),
{
    lemma_qmul_assoc(a, b, qmul(c, d));
    lemma_qmul_assoc(b, c, d);
    lemma_qmul_comm(b, c);
    lemma_qmul_assoc(c, b, d);
    lemma_qmul_assoc(a, c, qmul(b, d));
}

/// The relative norm is multiplicative.
pub proof fn lemma_qrel_norm_mul(a: Quartic, b: Quartic)
    requires
        q_canonical(a),
        q_canonical(b),
    ensures
        qrel_norm(qmul(a, b)) == cmul(qrel_norm(a), qrel_norm(b)),
{
    lemma_q_canonical(a, b, 0);
    lemma_q_canonical(b, a, 0);
    lemma_qmul_frob(qmul(a, b));
    lemma_qfrob_mul(a, b);
    lemma_qmul_swap_middle(a, b, qfrob(a), qfrob(b));
    lemma_qmul_frob(a);
    lemma_qmul_frob(b);
    lemma_qmul_embed(qrel_norm(a), qrel_norm(b));
}

/// The norm to `F_p` is multiplicative.
pub proof fn lemma_qnorm_mul(a: Quartic, b: Quartic)
    requires
        q_canonical(a),
        q_canonical(b),
    ensures
        qnorm(qmul(a, b)) == fmul(qnorm(a), qnorm(b)),
{
    lemma_qrel_norm_mul(a, b);
    lemma_cnorm_mul(qrel_norm(a), qrel_norm(b));
}

/// The embedding of `F_p` respects products.
pub proof fn lemma_qfrom_base_mul(x: int, y: int)
    requires
        0 <= x < modulus(),
        0 <= y < modulus(),
    ensures
        qmul(qfrom_base(x), qfrom_base(y)) == qfrom_base(fmul(x, y)),
{
    lemma_qmul_embed(cfrom_base(x), cfrom_base(y));
    lemma_cmul_base(cfrom_base(x), y);
    lemma_small_mod(0, modulus() as nat);
}

pub proof fn lemma_qpow_canonical(a: Quartic, n: nat)
    requires
        q_canonical(a),
    ensures
        q_canonical(qpow(a, n)),
    decreases n,
{
    if n > 0 {
        lemma_qpow_canonical(a, (n - 1) as nat);
        lemma_q_canonical(a, qpow(a, (n - 1) as nat), 0);
    }
}

/// `a^(2k) == (a * a)^k`
pub proof fn lemma_qpow_square(a: Quartic, k: nat)
    ensures
        qpow(a, 2 * k) == qpow(qmul(a, a), k),
    decreases k,
{
    if k > 0 {
        let m = (2 * k - 2) as nat;
        lemma_qpow_square(a, (k - 1) as nat);
        lemma_qpow_unfold(a, (2 * k - 1) as nat);
        lemma_qpow_unfold(a, 2 * k);
        lemma_qpow_unfold(qmul(a, a), k);
        lemma_qmul_assoc(a, a, qpow(a, m));
    }
}

/// One step of square-and-multiply: `acc * base^k` is unchanged when the
/// low bit of `k` moves into `acc` and `base` is squared.
proof fn lemma_exp_step(acc: Quartic, base: Quartic, k: nat)
    ensures
        k % 2 == 1 ==> qmul(qmul(acc, base), qpow(qmul(base, base), k / 2)) == qmul(acc, qpow(base, k)),
        k % 2 == 0 ==> qmul(acc, qpow(qmul(base, base), k / 2)) == qmul(acc, qpow(base, k)),
{
    lemma_qpow_square(base, k / 2);
    if k % 2 == 1 {
        lemma_qpow_unfold(base, k);
        assert((k - 1) as nat == 2 * (k / 2));
        lemma_qmul_assoc(acc, base, qpow(base, (k - 1) as nat));
    }
}

proof fn lemma_qpow_unfold(a: Quartic, n: nat)
    requires
        n > 0,
    ensures
        qpow(a, n) == qmul(a, qpow(a, (n - 1) as nat)),
{
}

/// `2^TWO_ADICITY` divides `p^4 - 1` and `2^(TWO_ADICITY + 1)` does not.
pub proof fn lemma_two_adicity()
    ensures
        ((ORDER - 1) as nat) % two_pow(TWO_ADICITY as nat) == 0,
        ((ORDER - 1) as nat) % two_pow(TWO_ADICITY as nat + 1) != 0,
{
    reveal_with_fuel(two_pow, 35);
    assert(two_pow(33) == 0x2_0000_0000);
    assert(two_pow(34) == 0x4_0000_0000);
    assert(((ORDER - 1) as nat) % 0x4_0000_0000 == 0x2_0000_0000) by (nonlinear_arith);
}

/// The non-residue `2 + i`.
fn nonresidue() -> (r: CM31)
    ensures
        r.wf(),
        r@ == w2(),
{
    CM31 { re: M31 { value: 2 }, im: M31 { value: 1 } }
}

} // verus!
