//! The algebraic laws of the tower, stated over the mathematical models and
//! proved for every canonical input.

use vstd::prelude::*;
use vstd::arithmetic::div_mod::{lemma_mod_twice, lemma_small_mod};

use crate::cm31::{
    c_canonical, cadd, cconj, cfrom_base, cmul, cneg, cnorm, cone, czero, lemma_cadd_assoc, lemma_cadd_comm,
    lemma_cadd_neg, lemma_cconj_involution, lemma_cconj_mul, lemma_cmul_assoc, lemma_cmul_base,
    lemma_cmul_comm, lemma_cmul_distrib, lemma_cmul_one_zero, lemma_cnorm_mul,
    Complex, CM31,
};
use crate::m31::{fadd, fmul, fneg, is_canonical, lemma_mod_product, lemma_mod_sum, modulus, M31};
use crate::qm31::{
    lemma_qadd_laws, lemma_qfrob_involution, lemma_qfrob_mul, lemma_qfrom_base_mul, lemma_qmul_assoc,
    lemma_qmul_comm, lemma_qmul_distrib, lemma_qmul_one, lemma_qnorm_mul,
    q_canonical, qadd, qfrob, qfrom_base, qmul, qneg, qnorm, qone, qzero, Quartic, QM31,
};

verus! {

/// In `F_p` addition is commutative and associative, multiplication
/// distributes over addition, and `a + (-a)` is zero.
pub proof fn law_base_field_axioms(a: int, b: int, c: int)
    requires
        is_canonical(a),
        is_canonical(b),
        is_canonical(c),
    ensures
        fadd(a, b) == fadd(b, a),
        fadd(fadd(a, b), c) == fadd(a, fadd(b, c)),
        fmul(a, fadd(b, c)) == fadd(fmul(a, b), fmul(a, c)),
        fadd(a, fneg(a)) == 0,
{
    let p = modulus();
    lemma_mod_sum(a + b, c);
    lemma_mod_sum(a, b + c);
    assert(a + b + c == a + (b + c));
    lemma_mod_product(a, b + c);
    lemma_mod_sum(a * b, a * c);
    assert(a * (b + c) == a * b + a * c) by (nonlinear_arith);
    lemma_mod_sum(a, -a);
    lemma_small_mod(0, p as nat);
    lemma_mod_twice(a, p);
}

/// In the quadratic layer addition is commutative and associative,
/// multiplication distributes over addition, `a + (-a)` is zero, and
/// multiplication is commutative and associative with identity one.
pub proof fn law_complex_field_axioms(a: Complex, b: Complex, c: Complex)
    requires
        c_canonical(a),
        c_canonical(b),
        c_canonical(c),
    ensures
        cadd(a, b) == cadd(b, a),
        cadd(cadd(a, b), c) == cadd(a, cadd(b, c)),
        cmul(a, cadd(b, c)) == cadd(cmul(a, b), cmul(a, c)),
        cadd(a, cneg(a)) == czero(),
        cmul(a, b) == cmul(b, a),
        cmul(cmul(a, b), c) == cmul(a, cmul(b, c)),
        cmul(a, cone()) == a,
{
    lemma_cadd_comm(a, b);
    lemma_cadd_assoc(a, b, c);
    lemma_cmul_distrib(a, b, c);
    lemma_cadd_neg(a);
    lemma_cmul_comm(a, b);
    lemma_cmul_assoc(a, b, c);
    lemma_cmul_one_zero(a);
}

/// In the quartic layer addition is commutative and associative,
/// multiplication distributes over addition, `a + (-a)` is zero, and
/// multiplication is commutative and associative with identity one.
pub proof fn law_quartic_field_axioms(a: Quartic, b: Quartic, c: Quartic)
    requires
        q_canonical(a),
        q_canonical(b),
        q_canonical(c),
    ensures
        qadd(a, b) == qadd(b, a),
        qadd(qadd(a, b), c) == qadd(a, qadd(b, c)),
        qmul(a, qadd(b, c)) == qadd(qmul(a, b), qmul(a, c)),
        qadd(a, qneg(a)) == qzero(),
        qmul(a, b) == qmul(b, a),
        qmul(qmul(a, b), c) == qmul(a, qmul(b, c)),
        qmul(a, qone()) == a,
{
    lemma_qadd_laws(a, b, c);
    lemma_qmul_distrib(a, b, c);
    lemma_qmul_comm(a, b);
    lemma_qmul_assoc(a, b, c);
    lemma_qmul_one(a);
}

/// Reading back the coordinates of the element built from a coordinate
/// vector of the right length gives that vector, and building an element
/// from its own coordinates gives the element.
pub proof fn law_coordinates_round_trip(s2: Seq<M31>, s4: Seq<M31>, x: CM31, y: QM31)
    requires
        s2.len() == 2,
        s4.len() == 4,
    ensures
        CM31::from_seq(s2).as_seq() == s2,
        CM31::from_seq(x.as_seq()) == x,
        QM31::from_seq(s4).as_seq() == s4,
        QM31::from_seq(y.as_seq()) == y,
{
    assert(CM31::from_seq(s2).as_seq() =~= s2);
    assert(QM31::from_seq(s4).as_seq() =~= s4);
}

/// The embeddings of `F_p` into both layers respect products:
/// `from_base(b1) * from_base(b2) == from_base(b1 * b2)`.
pub proof fn law_base_embedding(b1: int, b2: int)
    requires
        is_canonical(b1),
        is_canonical(b2),
    ensures
        cmul(cfrom_base(b1), cfrom_base(b2)) == cfrom_base(fmul(b1, b2)),
        qmul(qfrom_base(b1), qfrom_base(b2)) == qfrom_base(fmul(b1, b2)),
{
    lemma_cmul_base(cfrom_base(b1), b2);
    lemma_small_mod(0, modulus() as nat);
    lemma_qfrom_base_mul(b1, b2);
}

/// The Frobenius maps of both layers fix every embedded base element and
/// are involutions: applied twice they give the element back. They also
/// respect products.
pub proof fn law_frobenius(b: int, x: Complex, x2: Complex, y: Quartic, y2: Quartic)
    requires
        c_canonical(x),
        c_canonical(x2),
        q_canonical(y),
        q_canonical(y2),
    ensures
        cconj(cfrom_base(b)) == cfrom_base(b),
        cconj(cconj(x)) == x,
        qfrob(qfrom_base(b)) == qfrom_base(b),
        qfrob(qfrob(y)) == y,
        cconj(cmul(x, x2)) == cmul(cconj(x), cconj(x2)),
        qfrob(qmul(y, y2)) == qmul(qfrob(y), qfrob(y2)),
{
    lemma_cconj_involution(x, b);
    lemma_qfrob_involution(y, b);
    lemma_cconj_mul(x, x2);
    lemma_qfrob_mul(y, y2);
}

/// The norms of both layers are multiplicative:
/// `norm(a * b) == norm(a) * norm(b)`.
pub proof fn law_norm_multiplicative(a: Complex, b: Complex, x: Quartic, y: Quartic)
    requires
        c_canonical(a),
        c_canonical(b),
        q_canonical(x),
        q_canonical(y),
    ensures
        cnorm(cmul(a, b)) == fmul(cnorm(a), cnorm(b)),
        qnorm(qmul(x, y)) == fmul(qnorm(x), qnorm(y)),
{
    lemma_cnorm_mul(a, b);
    lemma_qnorm_mul(x, y);
}

} // verus!
