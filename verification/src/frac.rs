//! Ghost model of exact rational numbers.
//!
//! A rational is modelled as a fraction: an integer numerator over a
//! positive integer denominator, not necessarily in lowest terms. Two
//! fractions denote the same rational exactly when they cross-multiply
//! equal, which `feq` states; all laws below hold up to `feq`.

use vstd::prelude::*;

verus! {

/// A fraction `num / den`. Well-formed fractions have `den > 0`.
pub ghost struct Frac {
    pub num: int,
    pub den: int,
}

impl Frac {
    /// Well-formedness: the denominator is positive.
    pub open spec fn wf(self) -> bool {
        self.den > 0
    }

    /// The fraction is zero (the numerator vanishes).
    pub open spec fn is_zero(self) -> bool {
        self.num == 0
    }
}

/// The fraction `i / 1`.
pub open spec fn f_int(i: int) -> Frac {
    Frac { num: i, den: 1 }
}

/// Zero as a fraction.
pub open spec fn fzero() -> Frac {
    f_int(0)
}

/// One as a fraction.
pub open spec fn fone() -> Frac {
    f_int(1)
}

/// `a` and `b` denote the same rational number.
pub open spec fn feq(a: Frac, b: Frac) -> bool {
    a.num * b.den == b.num * a.den
}

/// `a` denotes a strictly smaller rational than `b` (for well-formed fractions).
pub open spec fn flt(a: Frac, b: Frac) -> bool {
    a.num * b.den < b.num * a.den
}

/// Sum of two fractions.
pub open spec fn fadd(a: Frac, b: Frac) -> Frac {
    Frac { num: a.num * b.den + b.num * a.den, den: a.den * b.den }
}

/// Negation of a fraction.
pub open spec fn fneg(a: Frac) -> Frac {
    Frac { num: -a.num, den: a.den }
}

/// Difference of two fractions.
pub open spec fn fsub(a: Frac, b: Frac) -> Frac {
    fadd(a, fneg(b))
}

/// Product of two fractions.
pub open spec fn fmul(a: Frac, b: Frac) -> Frac {
    Frac { num: a.num * b.num, den: a.den * b.den }
}

/// Quotient of two fractions, with the sign moved into the numerator so
/// that the result is well-formed whenever `a` is and `b.num != 0`.
pub open spec fn fdiv(a: Frac, b: Frac) -> Frac {
    if b.num < 0 {
        Frac { num: -(a.num * b.den), den: -(a.den * b.num) }
    } else {
        Frac { num: a.num * b.den, den: a.den * b.num }
    }
}

/// Two to the power `k`, as a fraction; `k` may be negative.
pub open spec fn fpow2(k: int) -> Frac {
    if k >= 0 {
        Frac { num: pow2_int(k), den: 1 }
    } else {
        Frac { num: 1, den: pow2_int(-k) }
    }
}

/// `2^k` for `k >= 0`.
pub open spec fn pow2_int(k: int) -> int
    decreases k,
{
    if k <= 0 {
        1
    } else {
        2 * pow2_int(k - 1)
    }
}

pub proof fn lemma_pow2_pos(k: int)
    ensures
        pow2_int(k) >= 1,
    decreases k,
{
    if k > 0 {
        lemma_pow2_pos(k - 1);
    }
}

pub proof fn lemma_pow2_mono(a: int, b: int)
    requires
        a <= b,
    ensures
        pow2_int(a) <= pow2_int(b),
    decreases b,
{
    if b > 0 && a < b {
        lemma_pow2_mono(a, b - 1);
        lemma_pow2_pos(b - 1);
    }
}

/// `2^k` stays within the 32-bit range for `k` up to 31.
pub proof fn lemma_pow2_bound(k: int)
    requires
        k <= 30,
    ensures
        2 * pow2_int(k) <= 0x8000_0000,
{
    lemma_pow2_mono(k, 30);
    assert(pow2_int(30) == 0x4000_0000) by {
        reveal_with_fuel(pow2_int, 32);
    }
    lemma_pow2_pos(k);
}

/// Two to the zeroth power is one.
pub proof fn lemma_fpow2_zero()
    ensures
        fpow2(0) == fone(),
{
}

pub proof fn lemma_fpow2_wf(k: int)
    ensures
        fpow2(k).wf(),
{
    if k >= 0 {
        lemma_pow2_pos(k);
    } else {
        lemma_pow2_pos(-k);
    }
}

pub proof fn lemma_fadd_wf(a: Frac, b: Frac)
    requires
        a.wf(),
        b.wf(),
    ensures
        fadd(a, b).wf(),
{
    assert(a.den * b.den > 0) by (nonlinear_arith)
        requires
            a.den > 0,
            b.den > 0,
    ;
}

pub proof fn lemma_fmul_wf(a: Frac, b: Frac)
    requires
        a.wf(),
        b.wf(),
    ensures
        fmul(a, b).wf(),
{
    assert(a.den * b.den > 0) by (nonlinear_arith)
        requires
            a.den > 0,
            b.den > 0,
    ;
}

pub proof fn lemma_fdiv_wf(a: Frac, b: Frac)
    requires
        a.wf(),
        b.wf(),
        b.num != 0,
    ensures
        fdiv(a, b).wf(),
{
    if b.num < 0 {
        assert(-(a.den * b.num) > 0) by (nonlinear_arith)
            requires
                a.den > 0,
                b.num < 0,
        ;
    } else {
        assert(a.den * b.num > 0) by (nonlinear_arith)
            requires
                a.den > 0,
                b.num > 0,
        ;
    }
}

/// Sums of equal fractions are equal.
pub proof fn lemma_fadd_congr(a: Frac, b: Frac, a2: Frac, b2: Frac)
    requires
        a.wf(),
        b.wf(),
        a2.wf(),
        b2.wf(),
        feq(a, a2),
        feq(b, b2),
    ensures
        feq(fadd(a, b), fadd(a2, b2)),
{
    assert((a.num * b.den) * (a2.den * b2.den) == (a2.num * b2.den) * (a.den * b.den))
        by (nonlinear_arith)
        requires
            a.num * a2.den == a2.num * a.den,
    ;
    assert((b.num * a.den) * (a2.den * b2.den) == (b2.num * a2.den) * (a.den * b.den))
        by (nonlinear_arith)
        requires
            b.num * b2.den == b2.num * b.den,
    ;
    assert((a.num * b.den + b.num * a.den) * (a2.den * b2.den) == (a.num * b.den) * (a2.den
        * b2.den) + (b.num * a.den) * (a2.den * b2.den)) by (nonlinear_arith);
    assert((a2.num * b2.den + b2.num * a2.den) * (a.den * b.den) == (a2.num * b2.den) * (a.den
        * b.den) + (b2.num * a2.den) * (a.den * b.den)) by (nonlinear_arith);
}

/// Products of equal fractions are equal.
pub proof fn lemma_fmul_congr(a: Frac, b: Frac, a2: Frac, b2: Frac)
    requires
        a.wf(),
        b.wf(),
        a2.wf(),
        b2.wf(),
        feq(a, a2),
        feq(b, b2),
    ensures
        feq(fmul(a, b), fmul(a2, b2)),
{
    assert((a.num * b.num) * (a2.den * b2.den) == (a2.num * b2.num) * (a.den * b.den))
        by (nonlinear_arith)
        requires
            a.num * a2.den == a2.num * a.den,
            b.num * b2.den == b2.num * b.den,
    ;
}

/// Negations of equal fractions are equal.
pub proof fn lemma_fneg_congr(a: Frac, a2: Frac)
    requires
        feq(a, a2),
    ensures
        feq(fneg(a), fneg(a2)),
{
    assert((-a.num) * a2.den == (-a2.num) * a.den) by (nonlinear_arith)
        requires
            a.num * a2.den == a2.num * a.den,
    ;
}

/// Quotients of equal fractions are equal.
pub proof fn lemma_fdiv_congr(a: Frac, b: Frac, a2: Frac, b2: Frac)
    requires
        a.wf(),
        b.wf(),
        a2.wf(),
        b2.wf(),
        b.num != 0,
        b2.num != 0,
        feq(a, a2),
        feq(b, b2),
    ensures
        feq(fdiv(a, b), fdiv(a2, b2)),
{
    assert((a.num * b.den) * (a2.den * b2.num) == (a2.num * a.den) * (b.den * b2.num))
        by (nonlinear_arith)
        requires
            a.num * a2.den == a2.num * a.den,
    ;
    assert((a2.num * a.den) * (b.den * b2.num) == (a2.num * b2.den) * (a.den * b.num))
        by (nonlinear_arith)
        requires
            b.num * b2.den == b2.num * b.den,
    ;
    assert((a.num * b.den) * (a2.den * b2.num) == (a2.num * b2.den) * (a.den * b.num));
    if b.num < 0 && b2.num >= 0 {
        assert(false) by (nonlinear_arith)
            requires
                b.num * b2.den == b2.num * b.den,
                b.num < 0,
                b2.num > 0 || b2.num == 0,
                b.den > 0,
                b2.den > 0,
        ;
    }
    if b.num >= 0 && b2.num < 0 {
        assert(false) by (nonlinear_arith)
            requires
                b.num * b2.den == b2.num * b.den,
                b2.num < 0,
                b.num > 0 || b.num == 0,
                b.den > 0,
                b2.den > 0,
        ;
    }
    if b.num < 0 {
        assert((-(a.num * b.den)) * (-(a2.den * b2.num)) == (-(a2.num * b2.den)) * (-(a.den
            * b.num))) by (nonlinear_arith)
            requires
                (a.num * b.den) * (a2.den * b2.num) == (a2.num * b2.den) * (a.den * b.num),
        ;
    }
}

/// Adding zero changes nothing.
pub proof fn lemma_fadd_zero(a: Frac, z: Frac)
    requires
        a.wf(),
        z.wf(),
        feq(z, fzero()),
    ensures
        feq(fadd(a, z), a),
{
    assert(z.num == 0);
    assert((a.num * z.den + z.num * a.den) * a.den == a.num * (a.den * z.den))
        by (nonlinear_arith)
        requires
            z.num == 0,
    ;
}

/// Multiplying by one changes nothing.
pub proof fn lemma_fmul_one(a: Frac, o: Frac)
    requires
        a.wf(),
        o.wf(),
        feq(o, fone()),
    ensures
        feq(fmul(a, o), a),
{
    assert((a.num * o.num) * a.den == a.num * (a.den * o.den)) by (nonlinear_arith)
        requires
            o.num == o.den,
    ;
}

/// A product with a zero factor is zero.
pub proof fn lemma_fmul_zero(a: Frac, z: Frac)
    requires
        feq(z, fzero()),
    ensures
        feq(fmul(a, z), fzero()),
        feq(fmul(z, a), fzero()),
{
    assert(a.num * z.num == 0 && z.num * a.num == 0) by (nonlinear_arith)
        requires
            z.num == 0,
    ;
}

/// Multiplying the quotient by the divisor gives back the dividend.
pub proof fn lemma_fdiv_cancel(a: Frac, b: Frac)
    requires
        a.wf(),
        b.wf(),
        b.num != 0,
    ensures
        feq(fmul(b, fdiv(a, b)), a),
{
    if b.num < 0 {
        assert((b.num * -(a.num * b.den)) * a.den == a.num * (b.den * -(a.den * b.num)))
            by (nonlinear_arith);
    } else {
        assert((b.num * (a.num * b.den)) * a.den == a.num * (b.den * (a.den * b.num)))
            by (nonlinear_arith);
    }
}

/// Multiplication commutes, exactly.
pub proof fn lemma_fmul_comm(a: Frac, b: Frac)
    ensures
        fmul(a, b) == fmul(b, a),
{
    assert(a.num * b.num == b.num * a.num) by (nonlinear_arith);
    assert(a.den * b.den == b.den * a.den) by (nonlinear_arith);
}

/// A product distributes over a sum.
pub proof fn lemma_fmul_distrib(c: Frac, a: Frac, b: Frac)
    requires
        c.wf(),
        a.wf(),
        b.wf(),
    ensures
        feq(fmul(c, fadd(a, b)), fadd(fmul(c, a), fmul(c, b))),
{
    assert((c.num * (a.num * b.den + b.num * a.den)) * ((c.den * a.den) * (c.den * b.den)) == (c.num
        * (a.num * b.den)) * ((c.den * a.den) * (c.den * b.den)) + (c.num * (b.num * a.den)) * ((
    c.den * a.den) * (c.den * b.den))) by (nonlinear_arith);
    assert((c.num * (a.num * b.den)) * ((c.den * a.den) * (c.den * b.den)) == ((c.num * a.num) * (
    c.den * b.den)) * (c.den * (a.den * b.den))) by (nonlinear_arith);
    assert((c.num * (b.num * a.den)) * ((c.den * a.den) * (c.den * b.den)) == ((c.num * b.num) * (
    c.den * a.den)) * (c.den * (a.den * b.den))) by (nonlinear_arith);
    assert(((c.num * a.num) * (c.den * b.den) + (c.num * b.num) * (c.den * a.den)) * (c.den * (a.den
        * b.den)) == ((c.num * a.num) * (c.den * b.den)) * (c.den * (a.den * b.den)) + ((c.num
        * b.num) * (c.den * a.den)) * (c.den * (a.den * b.den))) by (nonlinear_arith);
}

/// Multiplication reassociates, exactly.
pub proof fn lemma_fmul_assoc(a: Frac, b: Frac, c: Frac)
    ensures
        fmul(fmul(a, b), c) == fmul(a, fmul(b, c)),
{
    assert((a.num * b.num) * c.num == a.num * (b.num * c.num)) by (nonlinear_arith);
    assert((a.den * b.den) * c.den == a.den * (b.den * c.den)) by (nonlinear_arith);
}

/// A fraction plus its negation is zero.
pub proof fn lemma_fneg_cancel(a: Frac)
    ensures
        feq(fadd(fneg(a), a), fzero()),
        feq(fadd(a, fneg(a)), fzero()),
{
    assert((-a.num) * a.den + a.num * a.den == 0) by (nonlinear_arith);
    assert(a.num * a.den + (-a.num) * a.den == 0) by (nonlinear_arith);
}

/// Subtracting and adding back a fraction changes nothing.
pub proof fn lemma_fsub_cancel(a: Frac, g: Frac)
    requires
        a.wf(),
        g.wf(),
    ensures
        feq(fadd(fsub(a, g), g), a),
{
    assert(((a.num * g.den + (-g.num) * a.den) * g.den + g.num * (a.den * g.den)) * a.den == a.num
        * ((a.den * g.den) * g.den)) by (nonlinear_arith);
}

/// A fraction divided by itself is one.
pub proof fn lemma_fdiv_self(a: Frac)
    requires
        a.wf(),
        a.num != 0,
    ensures
        feq(fdiv(a, a), fone()),
{
    if a.num < 0 {
        assert((-(a.num * a.den)) * 1 == 1 * (-(a.den * a.num))) by (nonlinear_arith);
    } else {
        assert((a.num * a.den) * 1 == 1 * (a.den * a.num)) by (nonlinear_arith);
    }
}

/// A zero dividend gives a zero quotient.
pub proof fn lemma_fdiv_zero(a: Frac, b: Frac)
    requires
        feq(a, fzero()),
    ensures
        feq(fdiv(a, b), fzero()),
{
    assert(a.num * 1 == 0 * a.den);
    if b.num < 0 {
        assert((-(a.num * b.den)) * 1 == 0) by (nonlinear_arith)
            requires
                a.num == 0,
        ;
    } else {
        assert((a.num * b.den) * 1 == 0) by (nonlinear_arith)
            requires
                a.num == 0,
        ;
    }
}

/// Subtracting a zero fraction changes nothing.
pub proof fn lemma_fsub_zero(a: Frac, g: Frac)
    requires
        a.wf(),
        g.wf(),
        feq(g, fzero()),
    ensures
        feq(fsub(a, g), a),
{
    lemma_fneg_congr(g, fzero());
    lemma_fadd_congr(a, fneg(g), a, fzero());
    lemma_fadd_zero(a, fzero());
    lemma_fadd_wf(a, fneg(g));
    lemma_fadd_wf(a, fzero());
    lemma_feq_trans(fsub(a, g), fadd(a, fzero()), a);
}

/// Integer fractions add as their integers do.
pub proof fn lemma_f_int_add(a: int, b: int)
    ensures
        fadd(f_int(a), f_int(b)) == f_int(a + b),
{
    assert(a * 1 + b * 1 == a + b) by (nonlinear_arith);
    assert(1 * 1 == 1) by (nonlinear_arith);
}

/// Integer fractions multiply as their integers do.
pub proof fn lemma_f_int_mul(a: int, b: int)
    ensures
        fmul(f_int(a), f_int(b)) == f_int(a * b),
{
    assert(1 * 1 == 1) by (nonlinear_arith);
}

/// A nonzero value stays nonzero across equality of fractions.
pub proof fn lemma_feq_zero_carries(a: Frac, b: Frac)
    requires
        a.wf(),
        feq(a, b),
        b.num != 0,
    ensures
        a.num != 0,
{
    assert(a.num != 0) by (nonlinear_arith)
        requires
            a.num * b.den == b.num * a.den,
            b.num != 0,
            a.den > 0,
    ;
}

/// Dividing is multiplying by the reciprocal.
pub proof fn lemma_fdiv_as_mul(a: Frac, b: Frac)
    requires
        a.wf(),
        b.wf(),
        b.num != 0,
    ensures
        feq(fdiv(a, b), fmul(fdiv(fone(), b), a)),
{
    if b.num < 0 {
        assert((-(a.num * b.den)) * ((-(b.num)) * a.den) == (-(b.den) * a.num) * (-(a.den
            * b.num))) by (nonlinear_arith);
    } else {
        assert((a.num * b.den) * (b.num * a.den) == (b.den * a.num) * (a.den * b.num))
            by (nonlinear_arith);
    }
}

/// Negation moves through a product, exactly.
pub proof fn lemma_fneg_mul(a: Frac, b: Frac)
    ensures
        fneg(fmul(a, b)) == fmul(fneg(a), b),
{
    assert(-(a.num * b.num) == (-a.num) * b.num) by (nonlinear_arith);
}

/// If two three-part sums with equal outer parts are both zero, the
/// middle parts are equal.
pub proof fn lemma_cancel_middle(x: Frac, a: Frac, b: Frac, y: Frac)
    requires
        x.wf(),
        a.wf(),
        b.wf(),
        y.wf(),
        feq(fadd(x, fadd(a, y)), fzero()),
        feq(fadd(x, fadd(b, y)), fzero()),
    ensures
        feq(a, b),
{
    lemma_fadd_wf(a, y);
    lemma_fadd_wf(b, y);
    lemma_fadd_wf(x, fadd(a, y));
    lemma_fadd_wf(x, fadd(b, y));
    lemma_feq_zero(fadd(x, fadd(a, y)));
    lemma_feq_zero(fadd(x, fadd(b, y)));
    let k = -(x.num * y.den + y.num * x.den);
    assert((a.num * y.den + y.num * a.den) * x.den == a.num * y.den * x.den + y.num * a.den
        * x.den) by (nonlinear_arith);
    assert(a.den * (x.num * y.den + y.num * x.den) == a.den * (x.num * y.den) + a.den * (y.num
        * x.den)) by (nonlinear_arith);
    assert(x.num * (a.den * y.den) == a.den * (x.num * y.den)) by (nonlinear_arith);
    assert(a.num * y.den * x.den == a.num * (y.den * x.den)) by (nonlinear_arith);
    assert(y.num * a.den * x.den == a.den * (y.num * x.den)) by (nonlinear_arith);
    assert(a.num * (y.den * x.den) == a.den * k) by (nonlinear_arith)
        requires
            a.num * (y.den * x.den) + a.den * (x.num * y.den + y.num * x.den) == 0,
            k == -(x.num * y.den + y.num * x.den),
    ;
    assert((b.num * y.den + y.num * b.den) * x.den == b.num * y.den * x.den + y.num * b.den
        * x.den) by (nonlinear_arith);
    assert(b.den * (x.num * y.den + y.num * x.den) == b.den * (x.num * y.den) + b.den * (y.num
        * x.den)) by (nonlinear_arith);
    assert(x.num * (b.den * y.den) == b.den * (x.num * y.den)) by (nonlinear_arith);
    assert(b.num * y.den * x.den == b.num * (y.den * x.den)) by (nonlinear_arith);
    assert(y.num * b.den * x.den == b.den * (y.num * x.den)) by (nonlinear_arith);
    assert(b.num * (y.den * x.den) == b.den * k) by (nonlinear_arith)
        requires
            b.num * (y.den * x.den) + b.den * (x.num * y.den + y.num * x.den) == 0,
            k == -(x.num * y.den + y.num * x.den),
    ;
    assert((a.num * b.den - b.num * a.den) * (y.den * x.den) == 0) by (nonlinear_arith)
        requires
            a.num * (y.den * x.den) == a.den * k,
            b.num * (y.den * x.den) == b.den * k,
    ;
    assert(a.num * b.den == b.num * a.den) by (nonlinear_arith)
        requires
            (a.num * b.den - b.num * a.den) * (y.den * x.den) == 0,
            y.den > 0,
            x.den > 0,
    ;
}

/// A fraction with zero numerator is the zero fraction.
pub proof fn lemma_zero_feq(a: Frac)
    requires
        a.num == 0,
    ensures
        feq(a, fzero()),
{
    assert(a.num * 1 == 0 * a.den) by (nonlinear_arith)
        requires
            a.num == 0,
    ;
}

/// The zero fraction has zero numerator.
pub proof fn lemma_feq_zero(a: Frac)
    requires
        feq(a, fzero()),
    ensures
        a.num == 0,
{
    assert(a.num == 0) by (nonlinear_arith)
        requires
            a.num * 1 == 0 * a.den,
    ;
}

pub proof fn lemma_feq_sym(a: Frac, b: Frac)
    requires
        feq(a, b),
    ensures
        feq(b, a),
{
}

pub proof fn lemma_feq_trans(a: Frac, b: Frac, c: Frac)
    requires
        b.den != 0,
        feq(a, b),
        feq(b, c),
    ensures
        feq(a, c),
{
    assert(a.num * b.den == b.num * a.den);
    assert(b.num * c.den == c.num * b.den);
    assert((a.num * c.den) * b.den == (c.num * a.den) * b.den) by (nonlinear_arith)
        requires
            a.num * b.den == b.num * a.den,
            b.num * c.den == c.num * b.den,
    ;
    assert(a.num * c.den == c.num * a.den) by (nonlinear_arith)
        requires
            (a.num * c.den) * b.den == (c.num * a.den) * b.den,
            b.den != 0,
    ;
}

} // verus!
