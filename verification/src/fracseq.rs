//! Sums and dot products of fraction sequences.

use vstd::prelude::*;

use crate::frac::{
    fadd, feq, fmul, fzero, lemma_fadd_congr, lemma_fadd_wf, lemma_fmul_congr, lemma_fmul_wf,
    lemma_fmul_zero, Frac,
};

verus! {

/// Every fraction in the sequence is well-formed.
pub open spec fn seq_wf(s: Seq<Frac>) -> bool {
    forall|i: int| 0 <= i < s.len() ==> #[trigger] s[i].wf()
}

/// The sum of a sequence of fractions.
pub open spec fn fsum(s: Seq<Frac>) -> Frac
    decreases s.len(),
{
    if s.len() == 0 {
        fzero()
    } else {
        fadd(fsum(s.drop_last()), s.last())
    }
}

/// The dot product of two equally long sequences of fractions.
pub open spec fn fdot(a: Seq<Frac>, b: Seq<Frac>) -> Frac {
    fsum(Seq::new(a.len(), |i: int| fmul(a[i], b[i])))
}

pub proof fn lemma_fsum_wf(s: Seq<Frac>)
    requires
        seq_wf(s),
    ensures
        fsum(s).wf(),
    decreases s.len(),
{
    if s.len() > 0 {
        assert(seq_wf(s.drop_last()));
        lemma_fsum_wf(s.drop_last());
        lemma_fadd_wf(fsum(s.drop_last()), s.last());
    }
}

/// Sums of pointwise equal sequences are equal.
pub proof fn lemma_fsum_congr(s: Seq<Frac>, t: Seq<Frac>)
    requires
        s.len() == t.len(),
        seq_wf(s),
        seq_wf(t),
        forall|i: int| 0 <= i < s.len() ==> feq(#[trigger] s[i], t[i]),
    ensures
        feq(fsum(s), fsum(t)),
    decreases s.len(),
{
    if s.len() == 0 {
    } else {
        assert(seq_wf(s.drop_last()));
        assert(seq_wf(t.drop_last()));
        lemma_fsum_congr(s.drop_last(), t.drop_last());
        lemma_fsum_wf(s.drop_last());
        lemma_fsum_wf(t.drop_last());
        lemma_fadd_congr(fsum(s.drop_last()), s.last(), fsum(t.drop_last()), t.last());
    }
}

/// The sum of a sequence of zeros is zero.
pub proof fn lemma_fsum_zero(s: Seq<Frac>)
    requires
        forall|i: int| 0 <= i < s.len() ==> feq(#[trigger] s[i], fzero()),
    ensures
        feq(fsum(s), fzero()),
    decreases s.len(),
{
    if s.len() > 0 {
        lemma_fsum_zero(s.drop_last());
        let a = fsum(s.drop_last());
        let b = s.last();
        assert(b == s[s.len() - 1]);
        assert(feq(b, fzero()));
        assert(a.num * 1 == 0 * a.den);
        assert(b.num * 1 == 0 * b.den);
        assert(a.num == 0 && b.num == 0);
        assert(a.num * b.den + b.num * a.den == 0) by (nonlinear_arith)
            requires
                a.num == 0,
                b.num == 0,
        ;
    }
}

/// Addition reassociates, exactly.
pub proof fn lemma_fadd_assoc(a: Frac, b: Frac, c: Frac)
    ensures
        fadd(fadd(a, b), c) == fadd(a, fadd(b, c)),
{
    assert((a.num * b.den + b.num * a.den) * c.den + c.num * (a.den * b.den) == a.num * b.den
        * c.den + b.num * a.den * c.den + c.num * (a.den * b.den)) by (nonlinear_arith);
    assert(a.num * (b.den * c.den) + (b.num * c.den + c.num * b.den) * a.den == a.num * (b.den
        * c.den) + b.num * c.den * a.den + c.num * b.den * a.den) by (nonlinear_arith);
    assert(a.num * b.den * c.den == a.num * (b.den * c.den)) by (nonlinear_arith);
    assert(b.num * a.den * c.den == b.num * c.den * a.den) by (nonlinear_arith);
    assert(c.num * (a.den * b.den) == c.num * b.den * a.den) by (nonlinear_arith);
    assert((a.den * b.den) * c.den == a.den * (b.den * c.den)) by (nonlinear_arith);
}

/// Two sums of two summands each can exchange their summands.
pub proof fn lemma_fadd_exchange(a: Frac, b: Frac, c: Frac, d: Frac)
    ensures
        fadd(fadd(a, b), fadd(c, d)) == fadd(fadd(a, c), fadd(b, d)),
{
    assert((a.num * b.den + b.num * a.den) * (c.den * d.den) + (c.num * d.den + d.num * c.den) * (
    a.den * b.den) == a.num * b.den * (c.den * d.den) + b.num * a.den * (c.den * d.den) + c.num
        * d.den * (a.den * b.den) + d.num * c.den * (a.den * b.den)) by (nonlinear_arith);
    assert((a.num * c.den + c.num * a.den) * (b.den * d.den) + (b.num * d.den + d.num * b.den) * (
    a.den * c.den) == a.num * c.den * (b.den * d.den) + c.num * a.den * (b.den * d.den) + b.num
        * d.den * (a.den * c.den) + d.num * b.den * (a.den * c.den)) by (nonlinear_arith);
    assert(a.num * b.den * (c.den * d.den) == a.num * c.den * (b.den * d.den)) by (nonlinear_arith);
    assert(b.num * a.den * (c.den * d.den) == b.num * d.den * (a.den * c.den)) by (nonlinear_arith);
    assert(c.num * d.den * (a.den * b.den) == c.num * a.den * (b.den * d.den)) by (nonlinear_arith);
    assert(d.num * c.den * (a.den * b.den) == d.num * b.den * (a.den * c.den)) by (nonlinear_arith);
    assert((a.den * b.den) * (c.den * d.den) == (a.den * c.den) * (b.den * d.den))
        by (nonlinear_arith);
}

/// Splitting a sequence anywhere splits its sum.
pub proof fn lemma_fsum_split(s: Seq<Frac>, i: int)
    requires
        0 <= i <= s.len(),
        seq_wf(s),
    ensures
        feq(fsum(s), fadd(fsum(s.take(i)), fsum(s.skip(i)))),
    decreases s.len(),
{
    lemma_fsum_wf(s);
    if i == s.len() {
        assert(s.take(i) =~= s);
        assert(s.skip(i) =~= Seq::<Frac>::empty());
        crate::frac::lemma_fadd_zero(fsum(s), fzero());
    } else {
        let dl = s.drop_last();
        assert(seq_wf(dl));
        lemma_fsum_split(dl, i);
        assert(dl.take(i) =~= s.take(i));
        assert(s.skip(i).drop_last() =~= dl.skip(i));
        assert(s.skip(i).len() > 0);
        assert(s.skip(i).last() == s.last());
        // fsum(s) = fadd(fsum(dl), last)
        //         ~ fadd(fadd(T, D), last)        (congruence, induction)
        //         = fadd(T, fadd(D, last))        (associativity)
        //         = fadd(fsum(take), fsum(skip))
        let t = fsum(s.take(i));
        let d = fsum(dl.skip(i));
        lemma_fsum_wf(dl);
        assert(seq_wf(s.take(i)));
        assert(seq_wf(dl.skip(i)));
        lemma_fsum_wf(s.take(i));
        lemma_fsum_wf(dl.skip(i));
        lemma_fadd_wf(t, d);
        lemma_fadd_congr(fsum(dl), s.last(), fadd(t, d), s.last());
        lemma_fadd_assoc(t, d, s.last());
        // transitivity
        lemma_fadd_wf(fsum(dl), s.last());
        lemma_fadd_wf(fadd(t, d), s.last());
        crate::frac::lemma_feq_trans(
            fsum(s),
            fadd(fadd(t, d), s.last()),
            fadd(t, fadd(d, s.last())),
        );
    }
}

/// The sum of a sequence that is zero everywhere except two positions,
/// which hold a value and its negation, is zero.
pub proof fn lemma_fsum_cancel_pair(s: Seq<Frac>, p1: int, p2: int)
    requires
        seq_wf(s),
        0 <= p1 < p2 < s.len(),
        forall|i: int| 0 <= i < s.len() && i != p1 && i != p2 ==> feq(#[trigger] s[i], fzero()),
        feq(fadd(s[p1], s[p2]), fzero()),
    ensures
        feq(fsum(s), fzero()),
{
    lemma_fsum_wf(s);
    // fsum(s) ~ fsum(take p1) + fsum(skip p1), and the first part is zero.
    lemma_fsum_split(s, p1);
    assert(forall|i: int|
        0 <= i < s.take(p1).len() ==> feq(#[trigger] s.take(p1)[i], fzero()));
    lemma_fsum_zero(s.take(p1));
    let rest = s.skip(p1);
    assert(seq_wf(rest));
    assert(rest[0] == s[p1]);
    // rest = [s[p1]] + middle zeros + [s[p2]] + trailing zeros
    lemma_fsum_split(rest, 1);
    lemma_fsum_singleton(rest.take(1));
    assert(rest.take(1)[0] == s[p1]);
    assert(fsum(rest.take(1)) == fadd(fzero(), s[p1]));
    let tail = rest.skip(1);
    assert(seq_wf(tail));
    let q = p2 - p1 - 1;
    assert(tail[q] == s[p2]);
    lemma_fsum_split(tail, q);
    assert(forall|i: int|
        0 <= i < tail.take(q).len() ==> feq(#[trigger] tail.take(q)[i], fzero())) by {
        assert(forall|i: int|
            0 <= i < tail.take(q).len() ==> tail.take(q)[i] == s[p1 + 1 + i]);
    }
    lemma_fsum_zero(tail.take(q));
    let tail2 = tail.skip(q);
    assert(seq_wf(tail2));
    assert(tail2[0] == s[p2]);
    lemma_fsum_split(tail2, 1);
    lemma_fsum_singleton(tail2.take(1));
    assert(fsum(tail2.take(1)) == fadd(fzero(), s[p2]));
    assert(forall|i: int|
        0 <= i < tail2.skip(1).len() ==> feq(#[trigger] tail2.skip(1)[i], fzero())) by {
        assert(forall|i: int|
            0 <= i < tail2.skip(1).len() ==> tail2.skip(1)[i] == s[p2 + 1 + i]);
    }
    lemma_fsum_zero(tail2.skip(1));
    // Now assemble: every piece is zero except the two singletons, whose
    // sum is zero; fold the feq facts back together.
    lemma_fsum_wf(s.take(p1));
    lemma_fsum_wf(rest);
    lemma_fsum_wf(rest.take(1));
    lemma_fsum_wf(tail);
    lemma_fsum_wf(tail.take(q));
    lemma_fsum_wf(tail2);
    lemma_fsum_wf(tail2.take(1));
    lemma_fsum_wf(tail2.skip(1));
    lemma_fadd_wf(fsum(tail2.take(1)), fsum(tail2.skip(1)));
    lemma_fadd_wf(fsum(tail.take(q)), fsum(tail2));
    lemma_fadd_wf(fsum(rest.take(1)), fsum(tail));
    lemma_fadd_wf(fsum(s.take(p1)), fsum(rest));
    lemma_zero_plus(s[p2]);
    lemma_zero_plus_pair(fsum(tail2.take(1)), fsum(tail2.skip(1)), s[p2]);
    // fsum(tail2) ~ s[p2]
    crate::frac::lemma_feq_trans(
        fsum(tail2),
        fadd(fsum(tail2.take(1)), fsum(tail2.skip(1))),
        s[p2],
    );
    // fsum(tail) ~ fsum(tail.take(q)) + fsum(tail2) ~ 0 + s[p2] ~ s[p2]
    lemma_fadd_congr(fsum(tail.take(q)), fsum(tail2), fzero(), s[p2]);
    crate::frac::lemma_feq_trans(
        fsum(tail),
        fadd(fsum(tail.take(q)), fsum(tail2)),
        fadd(fzero(), s[p2]),
    );
    lemma_zero_plus(s[p2]);
    crate::frac::lemma_feq_trans(fsum(tail), fadd(fzero(), s[p2]), s[p2]);
    // fsum(rest) ~ fsum(rest.take(1)) + fsum(tail) ~ s[p1] + s[p2] ~ 0
    lemma_zero_plus(s[p1]);
    lemma_fadd_wf(fzero(), s[p1]);
    lemma_fadd_congr(fsum(rest.take(1)), fsum(tail), s[p1], s[p2]);
    crate::frac::lemma_feq_trans(
        fsum(rest),
        fadd(fsum(rest.take(1)), fsum(tail)),
        fadd(s[p1], s[p2]),
    );
    lemma_fadd_wf(s[p1], s[p2]);
    crate::frac::lemma_feq_trans(fsum(rest), fadd(s[p1], s[p2]), fzero());
    // fsum(s) ~ fsum(take p1) + fsum(rest) ~ 0 + 0 ~ 0
    lemma_fadd_congr(fsum(s.take(p1)), fsum(rest), fzero(), fzero());
    crate::frac::lemma_feq_trans(
        fsum(s),
        fadd(fsum(s.take(p1)), fsum(rest)),
        fadd(fzero(), fzero()),
    );
    assert(feq(fadd(fzero(), fzero()), fzero()));
    crate::frac::lemma_feq_trans(fsum(s), fadd(fzero(), fzero()), fzero());
}

/// A sum of pointwise sums is the sum of the two sums.
pub proof fn lemma_fsum_add(x: Seq<Frac>, y: Seq<Frac>)
    requires
        x.len() == y.len(),
        seq_wf(x),
        seq_wf(y),
    ensures
        feq(fsum(Seq::new(x.len(), |i: int| fadd(x[i], y[i]))), fadd(fsum(x), fsum(y))),
    decreases x.len(),
{
    let s = Seq::new(x.len(), |i: int| fadd(x[i], y[i]));
    assert(seq_wf(s)) by {
        assert forall|i: int| 0 <= i < s.len() implies #[trigger] s[i].wf() by {
            lemma_fadd_wf(x[i], y[i]);
        }
    }
    if x.len() == 0 {
        assert(feq(fadd(fzero(), fzero()), fzero()));
    } else {
        let xd = x.drop_last();
        let yd = y.drop_last();
        assert(seq_wf(xd) && seq_wf(yd));
        lemma_fsum_add(xd, yd);
        let sd = Seq::new(xd.len(), |i: int| fadd(xd[i], yd[i]));
        assert(s.drop_last() =~= sd);
        assert(s.last() == fadd(x.last(), y.last()));
        lemma_fsum_wf(sd);
        lemma_fsum_wf(xd);
        lemma_fsum_wf(yd);
        lemma_fadd_wf(fsum(xd), fsum(yd));
        lemma_fadd_wf(x.last(), y.last());
        lemma_fadd_congr(
            fsum(sd),
            s.last(),
            fadd(fsum(xd), fsum(yd)),
            fadd(x.last(), y.last()),
        );
        lemma_fadd_exchange(fsum(xd), fsum(yd), x.last(), y.last());
        lemma_fadd_wf(fadd(fsum(xd), fsum(yd)), fadd(x.last(), y.last()));
        crate::frac::lemma_feq_trans(
            fsum(s),
            fadd(fadd(fsum(xd), fsum(yd)), fadd(x.last(), y.last())),
            fadd(fsum(x), fsum(y)),
        );
    }
}

/// A common factor moves out of a sum.
pub proof fn lemma_fsum_scale(f: Frac, t: Seq<Frac>)
    requires
        f.wf(),
        seq_wf(t),
    ensures
        feq(fsum(Seq::new(t.len(), |i: int| fmul(f, t[i]))), fmul(f, fsum(t))),
    decreases t.len(),
{
    let s = Seq::new(t.len(), |i: int| fmul(f, t[i]));
    assert(seq_wf(s)) by {
        assert forall|i: int| 0 <= i < s.len() implies #[trigger] s[i].wf() by {
            lemma_fmul_wf(f, t[i]);
        }
    }
    if t.len() == 0 {
        lemma_fmul_zero(f, fzero());
    } else {
        let td = t.drop_last();
        assert(seq_wf(td));
        lemma_fsum_scale(f, td);
        let sd = Seq::new(td.len(), |i: int| fmul(f, td[i]));
        assert(s.drop_last() =~= sd);
        assert(s.last() == fmul(f, t.last()));
        lemma_fsum_wf(td);
        lemma_fsum_wf(sd);
        lemma_fmul_wf(f, fsum(td));
        lemma_fmul_wf(f, t.last());
        lemma_fadd_congr(
            fsum(sd),
            s.last(),
            fmul(f, fsum(td)),
            fmul(f, t.last()),
        );
        crate::frac::lemma_fmul_distrib(f, fsum(td), t.last());
        lemma_fadd_wf(fmul(f, fsum(td)), fmul(f, t.last()));
        crate::frac::lemma_feq_sym(
            fmul(f, fadd(fsum(td), t.last())),
            fadd(fmul(f, fsum(td)), fmul(f, t.last())),
        );
        crate::frac::lemma_feq_trans(
            fsum(s),
            fadd(fmul(f, fsum(td)), fmul(f, t.last())),
            fmul(f, fadd(fsum(td), t.last())),
        );
    }
}

/// Dot products of pointwise equal sequences are equal.
pub proof fn lemma_fdot_congr(a: Seq<Frac>, v: Seq<Frac>, a2: Seq<Frac>)
    requires
        a.len() == v.len(),
        a2.len() == v.len(),
        seq_wf(a),
        seq_wf(v),
        seq_wf(a2),
        forall|i: int| 0 <= i < a.len() ==> feq(#[trigger] a[i], a2[i]),
    ensures
        feq(fdot(a, v), fdot(a2, v)),
{
    let s = Seq::new(a.len(), |i: int| fmul(a[i], v[i]));
    let s2 = Seq::new(a2.len(), |i: int| fmul(a2[i], v[i]));
    assert forall|i: int| 0 <= i < s.len() implies #[trigger] s[i].wf() by {
        lemma_fmul_wf(a[i], v[i]);
    }
    assert forall|i: int| 0 <= i < s2.len() implies #[trigger] s2[i].wf() by {
        lemma_fmul_wf(a2[i], v[i]);
    }
    assert forall|i: int| 0 <= i < s.len() implies feq(#[trigger] s[i], s2[i]) by {
        lemma_fmul_congr(a[i], v[i], a2[i], v[i]);
    }
    lemma_fsum_congr(s, s2);
}

/// The dot product is well-formed.
pub proof fn lemma_fdot_wf(a: Seq<Frac>, v: Seq<Frac>)
    requires
        a.len() == v.len(),
        seq_wf(a),
        seq_wf(v),
    ensures
        fdot(a, v).wf(),
{
    let s = Seq::new(a.len(), |i: int| fmul(a[i], v[i]));
    assert forall|i: int| 0 <= i < s.len() implies #[trigger] s[i].wf() by {
        lemma_fmul_wf(a[i], v[i]);
    }
    lemma_fsum_wf(s);
}

/// Dotting a pointwise sum distributes.
pub proof fn lemma_fdot_add(x: Seq<Frac>, y: Seq<Frac>, v: Seq<Frac>)
    requires
        x.len() == v.len(),
        y.len() == v.len(),
        seq_wf(x),
        seq_wf(y),
        seq_wf(v),
    ensures
        feq(
            fdot(Seq::new(x.len(), |i: int| fadd(x[i], y[i])), v),
            fadd(fdot(x, v), fdot(y, v)),
        ),
{
    let a = Seq::new(x.len(), |i: int| fadd(x[i], y[i]));
    let s = Seq::new(a.len(), |i: int| fmul(a[i], v[i]));
    let tx = Seq::new(x.len(), |i: int| fmul(x[i], v[i]));
    let ty = Seq::new(y.len(), |i: int| fmul(y[i], v[i]));
    let txy = Seq::new(tx.len(), |i: int| fadd(tx[i], ty[i]));
    assert forall|i: int| 0 <= i < tx.len() implies #[trigger] tx[i].wf() by {
        lemma_fmul_wf(x[i], v[i]);
    }
    assert forall|i: int| 0 <= i < ty.len() implies #[trigger] ty[i].wf() by {
        lemma_fmul_wf(y[i], v[i]);
    }
    assert forall|i: int| 0 <= i < s.len() implies #[trigger] s[i].wf() by {
        lemma_fadd_wf(x[i], y[i]);
        lemma_fmul_wf(a[i], v[i]);
    }
    assert forall|i: int| 0 <= i < txy.len() implies #[trigger] txy[i].wf() by {
        lemma_fadd_wf(tx[i], ty[i]);
    }
    assert forall|i: int| 0 <= i < s.len() implies feq(#[trigger] s[i], txy[i]) by {
        // (x + y) * v  ~  x*v + y*v
        crate::frac::lemma_fmul_comm(a[i], v[i]);
        crate::frac::lemma_fmul_distrib(v[i], x[i], y[i]);
        crate::frac::lemma_fmul_comm(v[i], x[i]);
        crate::frac::lemma_fmul_comm(v[i], y[i]);
        lemma_fadd_wf(x[i], y[i]);
        lemma_fmul_wf(v[i], fadd(x[i], y[i]));
    }
    lemma_fsum_congr(s, txy);
    lemma_fsum_add(tx, ty);
    lemma_fsum_wf(txy);
    lemma_fsum_wf(tx);
    lemma_fsum_wf(ty);
    lemma_fadd_wf(fsum(tx), fsum(ty));
    crate::frac::lemma_feq_trans(fsum(s), fsum(txy), fadd(fsum(tx), fsum(ty)));
}

/// Dotting a scaled row takes the factor out.
pub proof fn lemma_fdot_scale(f: Frac, p: Seq<Frac>, v: Seq<Frac>)
    requires
        p.len() == v.len(),
        f.wf(),
        seq_wf(p),
        seq_wf(v),
    ensures
        feq(fdot(Seq::new(p.len(), |i: int| fmul(f, p[i])), v), fmul(f, fdot(p, v))),
{
    let a = Seq::new(p.len(), |i: int| fmul(f, p[i]));
    let s = Seq::new(a.len(), |i: int| fmul(a[i], v[i]));
    let tp = Seq::new(p.len(), |i: int| fmul(p[i], v[i]));
    let ts = Seq::new(tp.len(), |i: int| fmul(f, tp[i]));
    assert forall|i: int| 0 <= i < tp.len() implies #[trigger] tp[i].wf() by {
        lemma_fmul_wf(p[i], v[i]);
    }
    assert forall|i: int| 0 <= i < s.len() implies #[trigger] s[i].wf() by {
        lemma_fmul_wf(f, p[i]);
        lemma_fmul_wf(a[i], v[i]);
    }
    assert forall|i: int| 0 <= i < ts.len() implies #[trigger] ts[i].wf() by {
        lemma_fmul_wf(f, tp[i]);
    }
    assert forall|i: int| 0 <= i < s.len() implies s[i] == ts[i] by {
        crate::frac::lemma_fmul_assoc(f, p[i], v[i]);
    }
    assert(s =~= ts);
    lemma_fsum_scale(f, tp);
}

/// A sum splits around any one position: the part before, the entry,
/// and the part after.
pub proof fn lemma_fsum_pick(s: Seq<Frac>, p: int)
    requires
        seq_wf(s),
        0 <= p < s.len(),
    ensures
        feq(fsum(s), fadd(fsum(s.take(p)), fadd(s[p], fsum(s.skip(p + 1))))),
{
    lemma_fsum_split(s, p);
    let tail = s.skip(p);
    assert(seq_wf(tail));
    lemma_fsum_split(tail, 1);
    lemma_fsum_singleton(tail.take(1));
    assert(tail.take(1)[0] == s[p]);
    assert(tail.skip(1) =~= s.skip(p + 1));
    let a = fsum(s.take(p));
    let b = fsum(s.skip(p + 1));
    assert(seq_wf(s.take(p)));
    assert(seq_wf(s.skip(p + 1)));
    lemma_fsum_wf(s);
    lemma_fsum_wf(s.take(p));
    lemma_fsum_wf(tail);
    lemma_fsum_wf(s.skip(p + 1));
    // fsum(tail) ~ (0 + s[p]) + b ~ s[p] + b
    lemma_zero_plus(s[p]);
    lemma_fadd_wf(fzero(), s[p]);
    lemma_fadd_wf(s[p], b);
    lemma_fadd_wf(fadd(fzero(), s[p]), b);
    lemma_fadd_congr(fadd(fzero(), s[p]), b, s[p], b);
    crate::frac::lemma_feq_trans(
        fsum(tail),
        fadd(fadd(fzero(), s[p]), b),
        fadd(s[p], b),
    );
    // fsum(s) ~ a + fsum(tail) ~ a + (s[p] + b)
    lemma_fadd_congr(a, fsum(tail), a, fadd(s[p], b));
    lemma_fadd_wf(a, fsum(tail));
    lemma_fadd_wf(a, fadd(s[p], b));
    crate::frac::lemma_feq_trans(fsum(s), fadd(a, fsum(tail)), fadd(a, fadd(s[p], b)));
}

/// The sum of a one-element sequence.
pub proof fn lemma_fsum_singleton(s: Seq<Frac>)
    requires
        s.len() == 1,
    ensures
        fsum(s) == fadd(fzero(), s[0]),
{
    assert(s.drop_last() =~= Seq::<Frac>::empty());
    assert(fsum(s.drop_last()) == fzero());
    assert(s.last() == s[0]);
}

/// `0 + a` equals `a`.
pub proof fn lemma_zero_plus(a: Frac)
    requires
        a.wf(),
    ensures
        feq(fadd(fzero(), a), a),
        fadd(fzero(), a).wf(),
{
    assert((0 * a.den + a.num * 1) * a.den == a.num * (1 * a.den)) by (nonlinear_arith);
}

/// If `x ~ 0 + v` and `y ~ 0`, then `x + y ~ v`.
proof fn lemma_zero_plus_pair(x: Frac, y: Frac, v: Frac)
    requires
        x.wf(),
        y.wf(),
        v.wf(),
        x == fadd(fzero(), v),
        feq(y, fzero()),
    ensures
        feq(fadd(x, y), v),
{
    lemma_zero_plus(v);
    crate::frac::lemma_fadd_zero(x, y);
    crate::frac::lemma_fadd_wf(x, y);
    crate::frac::lemma_feq_trans(fadd(x, y), x, v);
}

} // verus!
