//! Exact-rational Gauss-Jordan elimination and nullspace basis extraction.
//!
//! The solver takes a matrix of rationals, stored row-major with a known
//! column count, and returns, for each column, whether elimination found a
//! pivot in it (`false`) or the column is a free parameter (`true`),
//! together with one nullspace basis vector per free column. Every
//! returned basis vector is proved to lie in the nullspace of the input
//! matrix: it gives a zero dot product with every input row.

use vstd::prelude::*;

use crate::frac::{
    fadd, fdiv, feq, fmul, fneg, fone, fsub, fzero, lemma_fadd_congr, lemma_fadd_wf,
    lemma_fadd_zero, lemma_fdiv_cancel, lemma_fdiv_self, lemma_fdiv_wf, lemma_fdiv_zero,
    lemma_feq_sym, lemma_feq_trans, lemma_fmul_congr, lemma_fmul_one, lemma_fmul_wf,
    lemma_fmul_zero, lemma_fneg_cancel, lemma_fsub_cancel, Frac,
};
use crate::fracseq::{
    fdot, fsum, lemma_fdot_add, lemma_fdot_congr, lemma_fdot_scale, lemma_fdot_wf,
    lemma_fsum_cancel_pair, lemma_fsum_congr, lemma_fsum_wf, lemma_fsum_zero, seq_wf,
};
use crate::rational::Rat;

verus! {

/// The fractions a row of rationals denotes.
pub open spec fn rowm(r: Seq<Rat>) -> Seq<Frac> {
    Seq::new(r.len(), |i: int| r[i]@)
}

/// Every rational in the sequence denotes a well-formed fraction.
pub open spec fn row_wf(r: Seq<Rat>) -> bool {
    forall|i: int| 0 <= i < r.len() ==> (#[trigger] r[i]@).wf()
}

/// `row_wf` and `seq_wf` of the row's fractions coincide.
pub proof fn lemma_row_wf_rowm(r: Seq<Rat>)
    ensures
        row_wf(r) <==> seq_wf(rowm(r)),
{
    if row_wf(r) {
        assert forall|i: int| 0 <= i < rowm(r).len() implies (#[trigger] rowm(r)[i]).wf() by {
            assert(rowm(r)[i] == r[i]@);
        }
    }
    if seq_wf(rowm(r)) {
        assert forall|i: int| 0 <= i < r.len() implies (#[trigger] r[i]@).wf() by {
            assert(rowm(r)[i] == r[i]@);
        }
    }
}

/// The fractions a matrix of rationals denotes, row by row.
pub open spec fn matm(m: Seq<Vec<Rat>>) -> Seq<Seq<Frac>> {
    Seq::new(m.len(), |i: int| rowm(m[i]@))
}

/// The rows of a flat row-major fraction sequence.
pub open spec fn rows_of(f: Seq<Frac>, columns: int) -> Seq<Seq<Frac>> {
    Seq::new(
        ((f.len() as int) / columns) as nat,
        |r: int| f.subrange(r * columns, r * columns + columns),
    )
}

/// Every row has `columns` entries, all well-formed.
pub open spec fn mat_wf(m: Seq<Seq<Frac>>, columns: int) -> bool {
    forall|i: int|
        0 <= i < m.len() ==> (#[trigger] m[i]).len() == columns && seq_wf(m[i])
}

/// `v` gives a zero dot product with the row.
pub open spec fn row_kills(row: Seq<Frac>, v: Seq<Frac>) -> bool {
    feq(fdot(row, v), fzero())
}

/// `v` lies in the nullspace of `m`: it gives a zero dot product with
/// every row.
pub open spec fn in_nullspace(m: Seq<Seq<Frac>>, v: Seq<Frac>) -> bool {
    forall|i: int| 0 <= i < m.len() ==> row_kills(#[trigger] m[i], v)
}

/// The number of `true` entries in a flag sequence.
pub open spec fn count_true(s: Seq<bool>) -> int
    decreases s.len(),
{
    if s.len() == 0 {
        0
    } else {
        count_true(s.drop_last()) + if s.last() {
            1int
        } else {
            0int
        }
    }
}

/// One entry of a matrix of rationals, as a fraction.
pub open spec fn entry(m: Seq<Vec<Rat>>, i: int, q: int) -> Frac {
    m[i]@[q]@
}

pub proof fn lemma_count_true_push(s: Seq<bool>, b: bool)
    ensures
        count_true(s.push(b)) == count_true(s) + if b {
            1int
        } else {
            0int
        },
{
    assert(s.push(b).drop_last() =~= s);
    assert(s.push(b).last() == b);
}

pub proof fn lemma_count_true_bounds(s: Seq<bool>)
    ensures
        0 <= count_true(s) <= s.len(),
    decreases s.len(),
{
    if s.len() > 0 {
        lemma_count_true_bounds(s.drop_last());
    }
}

/// Extending a prefix by one position raises the count by the new flag.
pub proof fn lemma_count_take_step(s: Seq<bool>, k: int)
    requires
        0 <= k < s.len(),
    ensures
        count_true(s.take(k + 1)) == count_true(s.take(k)) + if s[k] {
            1int
        } else {
            0int
        },
{
    assert(s.take(k + 1) =~= s.take(k).push(s[k]));
    lemma_count_true_push(s.take(k), s[k]);
}

/// Counts over prefixes are monotone, in trues and falses alike.
pub proof fn lemma_count_take_mono(s: Seq<bool>, a: int, b: int)
    requires
        0 <= a <= b <= s.len(),
    ensures
        count_true(s.take(a)) <= count_true(s.take(b)),
        a - count_true(s.take(a)) <= b - count_true(s.take(b)),
    decreases b - a,
{
    if a < b {
        lemma_count_take_step(s, b - 1);
        lemma_count_take_mono(s, a, b - 1);
    }
}

/// Distinct positions of `false` flags have distinct false-counts, in order.
pub proof fn lemma_false_positions_ordered(s: Seq<bool>, x: int, y: int)
    requires
        0 <= x < y <= s.len(),
        !s[x],
    ensures
        x - count_true(s.take(x)) < y - count_true(s.take(y)),
{
    lemma_count_take_step(s, x);
    lemma_count_take_mono(s, x + 1, y);
}

/// A copy of a row with the same fractions.
fn clone_row(r: &Vec<Rat>) -> (out: Vec<Rat>)
    requires
        row_wf(r@),
    ensures
        out@.len() == r@.len(),
        row_wf(out@),
        forall|i: int| 0 <= i < r@.len() ==> out@[i]@ == #[trigger] r@[i]@,
{
    let mut out: Vec<Rat> = Vec::new();
    let mut i: usize = 0;
    while i < r.len()
        invariant
            row_wf(r@),
            0 <= i <= r@.len(),
            out@.len() == i,
            row_wf(out@),
            forall|j: int| 0 <= j < i ==> out@[j]@ == #[trigger] r@[j]@,
        decreases r@.len() - i,
    {
        out.push(r[i].clone_rat());
        i = i + 1;
    }
    out
}

/// Divides every entry of a row by the pivot value.
fn scale_row(r: &Vec<Rat>, piv: &Rat) -> (out: Vec<Rat>)
    requires
        piv@.wf(),
        !piv@.is_zero(),
        row_wf(r@),
    ensures
        out@.len() == r@.len(),
        row_wf(out@),
        forall|i: int| 0 <= i < r@.len() ==> feq(#[trigger] out@[i]@, fdiv(r@[i]@, piv@)),
{
    let mut out: Vec<Rat> = Vec::new();
    let mut i: usize = 0;
    while i < r.len()
        invariant
            piv@.wf(),
            !piv@.is_zero(),
            row_wf(r@),
            0 <= i <= r@.len(),
            out@.len() == i,
            forall|j: int| 0 <= j < i ==> feq(#[trigger] out@[j]@, fdiv(r@[j]@, piv@)),
            row_wf(out@),
        decreases r@.len() - i,
    {
        let q = r[i].div(piv);
        out.push(q);
        i = i + 1;
    }
    out
}

/// Subtracts `f` times the pivot row from a row, placing exact zero in
/// the pivot column `c`.
fn subtract_scaled(r: &Vec<Rat>, f: &Rat, p: &Vec<Rat>, c: usize) -> (out: Vec<Rat>)
    requires
        f@.wf(),
        p@.len() == r@.len(),
        (c as int) < r@.len(),
        row_wf(r@),
        row_wf(p@),
    ensures
        out@.len() == r@.len(),
        row_wf(out@),
        forall|i: int|
            0 <= i < r@.len() && i != c ==> feq(
                #[trigger] out@[i]@,
                fsub(r@[i]@, fmul(f@, p@[i]@)),
            ),
        feq(out@[c as int]@, fzero()),
{
    let mut out: Vec<Rat> = Vec::new();
    let mut i: usize = 0;
    while i < r.len()
        invariant
            f@.wf(),
            p@.len() == r@.len(),
            (c as int) < r@.len(),
            row_wf(r@),
            row_wf(p@),
            0 <= i <= r@.len(),
            out@.len() == i,
            row_wf(out@),
            forall|j: int|
                0 <= j < i && j != c ==> feq(#[trigger] out@[j]@, fsub(r@[j]@, fmul(f@, p@[j]@))),
            (c as int) < i ==> feq(out@[c as int]@, fzero()),
        decreases r@.len() - i,
    {
        let entry = if i == c {
            Rat::zero()
        } else {
            let prod = f.mul(&p[i]);
            let e = r[i].sub(&prod);
            proof {
                let fp = fmul(f@, p@[i as int]@);
                lemma_fmul_wf(f@, p@[i as int]@);
                crate::frac::lemma_fneg_congr(prod@, fp);
                lemma_fadd_congr(
                    r@[i as int]@,
                    fneg(prod@),
                    r@[i as int]@,
                    fneg(fp),
                );
                lemma_fadd_wf(r@[i as int]@, fneg(prod@));
                lemma_feq_trans(e@, fsub(r@[i as int]@, prod@), fsub(r@[i as int]@, fp));
            }
            e
        };
        out.push(entry);
        i = i + 1;
    }
    out
}

/// If each entry of `old` is the matching entry of `new` scaled by `piv`,
/// and `v` kills `new`, then `v` kills `old`.
proof fn lemma_recover_scaled(old: Seq<Frac>, new: Seq<Frac>, piv: Frac, v: Seq<Frac>)
    requires
        old.len() == new.len(),
        old.len() == v.len(),
        piv.wf(),
        seq_wf(old),
        seq_wf(new),
        seq_wf(v),
        forall|i: int| 0 <= i < old.len() ==> feq(#[trigger] old[i], fmul(piv, new[i])),
        row_kills(new, v),
    ensures
        row_kills(old, v),
{
    let scaled = Seq::new(new.len(), |i: int| fmul(piv, new[i]));
    assert forall|i: int| 0 <= i < scaled.len() implies #[trigger] scaled[i].wf() by {
        lemma_fmul_wf(piv, new[i]);
    }
    lemma_fdot_congr(old, v, scaled);
    lemma_fdot_scale(piv, new, v);
    lemma_fdot_wf(scaled, v);
    lemma_fdot_wf(new, v);
    lemma_fmul_wf(piv, fdot(new, v));
    lemma_fmul_zero(piv, fdot(new, v));
    // fdot(old, v) ~ fdot(scaled, v) ~ piv * fdot(new, v) ~ 0
    lemma_feq_trans(fdot(old, v), fdot(scaled, v), fmul(piv, fdot(new, v)));
    assert(feq(fmul(piv, fdot(new, v)), fzero())) by {
        let z = fdot(new, v);
        assert(z.num * 1 == 0 * z.den);
        assert(piv.num * z.num == 0) by (nonlinear_arith)
            requires
                z.num == 0,
        ;
    }
    lemma_feq_trans(fdot(old, v), fmul(piv, fdot(new, v)), fzero());
}

/// If each entry of `old` is the matching entry of `new` plus `f` times
/// the matching entry of `p`, and `v` kills `new` and `p`, then `v`
/// kills `old`.
proof fn lemma_recover_subtracted(
    old: Seq<Frac>,
    new: Seq<Frac>,
    f: Frac,
    p: Seq<Frac>,
    v: Seq<Frac>,
)
    requires
        old.len() == new.len(),
        old.len() == p.len(),
        old.len() == v.len(),
        f.wf(),
        seq_wf(old),
        seq_wf(new),
        seq_wf(p),
        seq_wf(v),
        forall|i: int| 0 <= i < old.len() ==> feq(#[trigger] old[i], fadd(new[i], fmul(f, p[i]))),
        row_kills(new, v),
        row_kills(p, v),
    ensures
        row_kills(old, v),
{
    let scaled = Seq::new(p.len(), |i: int| fmul(f, p[i]));
    let combined = Seq::new(new.len(), |i: int| fadd(new[i], scaled[i]));
    assert forall|i: int| 0 <= i < scaled.len() implies #[trigger] scaled[i].wf() by {
        lemma_fmul_wf(f, p[i]);
    }
    assert forall|i: int| 0 <= i < combined.len() implies #[trigger] combined[i].wf() by {
        lemma_fadd_wf(new[i], scaled[i]);
    }
    assert(forall|i: int| 0 <= i < old.len() ==> feq(#[trigger] old[i], combined[i]));
    lemma_fdot_congr(old, v, combined);
    lemma_fdot_add(new, scaled, v);
    assert(combined =~= Seq::new(new.len(), |i: int| fadd(new[i], scaled[i])));
    lemma_fdot_scale(f, p, v);
    lemma_fdot_wf(combined, v);
    lemma_fdot_wf(new, v);
    lemma_fdot_wf(scaled, v);
    lemma_fdot_wf(p, v);
    lemma_fadd_wf(fdot(new, v), fdot(scaled, v));
    // fdot(old) ~ fdot(combined) ~ fdot(new) + fdot(scaled)
    lemma_feq_trans(fdot(old, v), fdot(combined, v), fadd(fdot(new, v), fdot(scaled, v)));
    // fdot(scaled) ~ f * fdot(p) ~ 0
    lemma_fmul_wf(f, fdot(p, v));
    assert(feq(fmul(f, fdot(p, v)), fzero())) by {
        let z = fdot(p, v);
        assert(z.num * 1 == 0 * z.den);
        assert(f.num * z.num == 0) by (nonlinear_arith)
            requires
                z.num == 0,
        ;
    }
    lemma_feq_trans(fdot(scaled, v), fmul(f, fdot(p, v)), fzero());
    // fdot(new) + fdot(scaled) ~ 0 + 0 ~ 0
    lemma_fadd_congr(fdot(new, v), fdot(scaled, v), fzero(), fzero());
    assert(feq(fadd(fzero(), fzero()), fzero()));
    lemma_fadd_wf(fzero(), fzero());
    lemma_feq_trans(
        fadd(fdot(new, v), fdot(scaled, v)),
        fadd(fzero(), fzero()),
        fzero(),
    );
    lemma_feq_trans(fdot(old, v), fadd(fdot(new, v), fdot(scaled, v)), fzero());
}

/// At the moment a free column is found, the basis vector built for it
/// kills every row of the current matrix: in each already-pivoted row the
/// pivot-position term and the column-`c` term cancel, and every other
/// term vanishes.
#[verifier::rlimit(60)]
proof fn lemma_basis_kills(
    m: Seq<Vec<Rat>>,
    fl: Seq<bool>,
    pivots: Seq<int>,
    vm: Seq<Frac>,
    c: int,
    pr: int,
    columns: int,
)
    requires
        fl.len() == c,
        0 <= c < columns,
        pr == c - count_true(fl.take(c)),
        pivots.len() == pr,
        0 <= pr <= m.len(),
        forall|i: int| 0 <= i < m.len() ==> (#[trigger] m[i])@.len() == columns && row_wf(m[i]@),
        forall|j: int|
            0 <= j < pr ==> 0 <= #[trigger] pivots[j] < c && !fl[pivots[j]] && pivots[j]
                - count_true(fl.take(pivots[j])) == j,
        forall|i: int, j: int|
            0 <= i < m.len() && 0 <= j < pr ==> feq(
                #[trigger] entry(m, i, pivots[j]),
                if i == j {
                    fone()
                } else {
                    fzero()
                },
            ),
        forall|i: int| pr <= i < m.len() ==> (#[trigger] entry(m, i, c)).is_zero(),
        vm.len() == columns,
        seq_wf(vm),
        forall|q: int| 0 <= q < c && fl[q] ==> (#[trigger] vm[q]).is_zero(),
        forall|q: int|
            0 <= q < c && !fl[q] ==> feq(
                #[trigger] vm[q],
                fneg(entry(m, q - count_true(fl.take(q)), c)),
            ),
        feq(vm[c], fone()),
        forall|q: int| c < q < columns ==> (#[trigger] vm[q]).is_zero(),
    ensures
        in_nullspace(matm(m), vm),
{
    assert forall|i: int| 0 <= i < matm(m).len() implies row_kills(#[trigger] matm(m)[i], vm) by {
        let row = rowm(m[i]@);
        assert(matm(m)[i] == row);
        assert(forall|q: int| 0 <= q < columns ==> row[q] == #[trigger] m[i]@[q]@);
        lemma_row_wf_rowm(m[i]@);
        let terms = Seq::new(row.len(), |q: int| fmul(row[q], vm[q]));
        assert forall|q: int| 0 <= q < terms.len() implies (#[trigger] terms[q]).wf() by {
            lemma_fmul_wf(row[q], vm[q]);
        }
        if i < pr {
            let p1 = pivots[i];
            let x = entry(m, i, c);
            assert(x.wf());
            assert forall|q: int|
                0 <= q < columns && q != p1 && q != c implies feq(
                #[trigger] terms[q],
                fzero(),
            ) by {
                if q < c {
                    if fl[q] {
                        assert(vm[q].is_zero());
                        crate::frac::lemma_zero_feq(vm[q]);
                        lemma_fmul_zero(row[q], vm[q]);
                    } else {
                        let j = q - count_true(fl.take(q));
                        lemma_count_true_bounds(fl.take(q));
                        lemma_false_positions_ordered(fl, q, c);
                        assert(fl.take(c) =~= fl);
                        assert(fl.take(q).len() == q);
                        assert(0 <= j < pr);
                        assert(pivots[j] == q) by {
                            if pivots[j] < q {
                                lemma_false_positions_ordered(fl, pivots[j], q);
                            } else if pivots[j] > q {
                                lemma_false_positions_ordered(fl, q, pivots[j]);
                            }
                        }
                        assert(j != i);
                        assert(feq(entry(m, i, pivots[j]), fzero()));
                        assert(row[q] == entry(m, i, q));
                        lemma_fmul_zero(vm[q], row[q]);
                        assert(feq(fmul(row[q], vm[q]), fzero()));
                    }
                } else {
                    assert(c < q < columns);
                    assert(vm[q].is_zero());
                    crate::frac::lemma_zero_feq(vm[q]);
                    lemma_fmul_zero(row[q], vm[q]);
                }
            }
            // the pivot-position term is ~ -x
            assert(0 <= p1 < c && !fl[p1] && p1 - count_true(fl.take(p1)) == i);
            assert(feq(vm[p1], fneg(x)));
            assert(feq(entry(m, i, p1), fone()));
            assert(row[p1] == entry(m, i, p1));
            assert(terms[p1] == fmul(row[p1], vm[p1]));
            lemma_fmul_congr(row[p1], vm[p1], fone(), fneg(x));
            crate::frac::lemma_fmul_comm(fone(), fneg(x));
            lemma_fmul_one(fneg(x), fone());
            lemma_fmul_wf(fone(), fneg(x));
            lemma_feq_trans(terms[p1], fmul(fone(), fneg(x)), fneg(x));
            // the column-c term is ~ x
            assert(row[c] == x);
            assert(terms[c] == fmul(row[c], vm[c]));
            lemma_fmul_congr(row[c], vm[c], x, fone());
            lemma_fmul_one(x, fone());
            lemma_fmul_wf(x, fone());
            lemma_feq_trans(terms[c], fmul(x, fone()), x);
            // the two cancel
            lemma_fadd_congr(terms[p1], terms[c], fneg(x), x);
            lemma_fneg_cancel(x);
            lemma_fadd_wf(terms[p1], terms[c]);
            lemma_fadd_wf(fneg(x), x);
            lemma_feq_trans(fadd(terms[p1], terms[c]), fadd(fneg(x), x), fzero());
            lemma_fsum_cancel_pair(terms, p1, c);
            assert(fdot(row, vm) == fsum(terms));
        } else {
            assert forall|q: int| 0 <= q < columns implies feq(#[trigger] terms[q], fzero()) by {
                if q < c {
                    if fl[q] {
                        assert(vm[q].is_zero());
                        crate::frac::lemma_zero_feq(vm[q]);
                        lemma_fmul_zero(row[q], vm[q]);
                    } else {
                        let j = q - count_true(fl.take(q));
                        lemma_count_true_bounds(fl.take(q));
                        lemma_false_positions_ordered(fl, q, c);
                        assert(fl.take(c) =~= fl);
                        assert(0 <= j < pr);
                        assert(pivots[j] == q) by {
                            if pivots[j] < q {
                                lemma_false_positions_ordered(fl, pivots[j], q);
                            } else if pivots[j] > q {
                                lemma_false_positions_ordered(fl, q, pivots[j]);
                            }
                        }
                        assert(j < pr <= i);
                        assert(feq(entry(m, i, pivots[j]), fzero()));
                        lemma_fmul_zero(vm[q], row[q]);
                        assert(feq(fmul(row[q], vm[q]), fzero()));
                    }
                } else if q == c {
                    assert(entry(m, i, c).is_zero());
                    assert(row[c] == entry(m, i, c));
                    crate::frac::lemma_zero_feq(row[c]);
                    lemma_fmul_zero(vm[q], row[q]);
                } else {
                    assert(vm[q].is_zero());
                    crate::frac::lemma_zero_feq(vm[q]);
                    lemma_fmul_zero(row[q], vm[q]);
                }
            }
            lemma_fsum_zero(terms);
            assert(fdot(row, vm) == fsum(terms));
        }
    }
}

/// Swapping two rows preserves which vectors kill the matrix.
proof fn lemma_swap_preserves(mold: Seq<Seq<Frac>>, mnew: Seq<Seq<Frac>>, a: int, b: int)
    requires
        mold.len() == mnew.len(),
        0 <= a < mold.len(),
        0 <= b < mold.len(),
        mnew[a] == mold[b],
        mnew[b] == mold[a],
        forall|i: int| 0 <= i < mold.len() && i != a && i != b ==> #[trigger] mnew[i] == mold[i],
    ensures
        forall|v: Seq<Frac>| #[trigger] in_nullspace(mnew, v) ==> in_nullspace(mold, v),
{
    assert forall|v: Seq<Frac>| #[trigger] in_nullspace(mnew, v) implies in_nullspace(
        mold,
        v,
    ) by {
        assert forall|i: int| 0 <= i < mold.len() implies row_kills(#[trigger] mold[i], v) by {
            if i == a {
                assert(row_kills(mnew[b], v));
            } else if i == b {
                assert(row_kills(mnew[a], v));
            } else {
                assert(row_kills(mnew[i], v));
            }
        }
    }
}

/// Scaling one row by a nonzero pivot preserves which well-formed vectors
/// kill the matrix.
proof fn lemma_scale_preserves(
    mold: Seq<Seq<Frac>>,
    mnew: Seq<Seq<Frac>>,
    r: int,
    piv: Frac,
    columns: int,
)
    requires
        mold.len() == mnew.len(),
        0 <= r < mold.len(),
        piv.wf(),
        mat_wf(mold, columns),
        mat_wf(mnew, columns),
        forall|q: int| 0 <= q < columns ==> feq(#[trigger] mold[r][q], fmul(piv, mnew[r][q])),
        forall|i: int| 0 <= i < mold.len() && i != r ==> #[trigger] mnew[i] == mold[i],
    ensures
        forall|v: Seq<Frac>|
            v.len() == columns && seq_wf(v) && #[trigger] in_nullspace(mnew, v)
                ==> in_nullspace(mold, v),
{
    assert forall|v: Seq<Frac>|
        v.len() == columns && seq_wf(v) && #[trigger] in_nullspace(mnew, v) implies in_nullspace(
        mold,
        v,
    ) by {
        assert forall|i: int| 0 <= i < mold.len() implies row_kills(#[trigger] mold[i], v) by {
            if i == r {
                assert(row_kills(mnew[r], v));
                lemma_recover_scaled(mold[r], mnew[r], piv, v);
            } else {
                assert(row_kills(mnew[i], v));
            }
        }
    }
}

/// Subtracting a multiple of one row from another preserves which
/// well-formed vectors kill the matrix.
proof fn lemma_elim_preserves(
    mold: Seq<Seq<Frac>>,
    mnew: Seq<Seq<Frac>>,
    j: int,
    p: int,
    f: Frac,
    columns: int,
)
    requires
        mold.len() == mnew.len(),
        0 <= j < mold.len(),
        0 <= p < mold.len(),
        j != p,
        f.wf(),
        mat_wf(mold, columns),
        mat_wf(mnew, columns),
        mnew[p] == mold[p],
        forall|q: int|
            0 <= q < columns ==> feq(#[trigger] mold[j][q], fadd(mnew[j][q], fmul(f, mold[p][q]))),
        forall|i: int| 0 <= i < mold.len() && i != j ==> #[trigger] mnew[i] == mold[i],
    ensures
        forall|v: Seq<Frac>|
            v.len() == columns && seq_wf(v) && #[trigger] in_nullspace(mnew, v)
                ==> in_nullspace(mold, v),
{
    assert forall|v: Seq<Frac>|
        v.len() == columns && seq_wf(v) && #[trigger] in_nullspace(mnew, v) implies in_nullspace(
        mold,
        v,
    ) by {
        assert forall|i: int| 0 <= i < mold.len() implies row_kills(#[trigger] mold[i], v) by {
            if i == j {
                assert(row_kills(mnew[j], v));
                assert(row_kills(mnew[p], v));
                lemma_recover_subtracted(mold[j], mnew[j], f, mold[p], v);
            } else {
                assert(row_kills(mnew[i], v));
            }
        }
    }
}

/// Groups a flat row-major vector of rationals into rows.
fn split_rows(matrix: &Vec<Rat>, columns: usize, nrows: usize) -> (out: Vec<Vec<Rat>>)
    requires
        row_wf(matrix@),
        nrows * columns == matrix@.len(),
    ensures
        out@.len() == nrows,
        forall|r: int|
            0 <= r < nrows ==> (#[trigger] out@[r])@.len() == columns && row_wf(out@[r]@),
        forall|r: int, q: int|
            0 <= r < nrows && 0 <= q < columns ==> #[trigger] entry(out@, r, q) == matrix@[r
                * columns + q]@,
{
    let total = matrix.len();
    let mut out: Vec<Vec<Rat>> = Vec::new();
    let mut r: usize = 0;
    while r < nrows
        invariant
            row_wf(matrix@),
            nrows * columns == matrix@.len(),
            total == matrix@.len(),
            0 <= r <= nrows,
            out@.len() == r,
            forall|i: int|
                0 <= i < r ==> (#[trigger] out@[i])@.len() == columns && row_wf(out@[i]@),
            forall|i: int, q: int|
                0 <= i < r && 0 <= q < columns ==> #[trigger] entry(out@, i, q) == matrix@[i
                    * columns + q]@,
        decreases nrows - r,
    {
        proof {
            assert(r * columns + columns <= nrows * columns) by (nonlinear_arith)
                requires
                    r + 1 <= nrows,
                    columns >= 0,
            ;
            assert(r * columns >= 0) by (nonlinear_arith)
                requires
                    r >= 0,
                    columns >= 0,
            ;
        }
        let base: usize = r * columns;
        let mut row: Vec<Rat> = Vec::new();
        let mut q: usize = 0;
        while q < columns
            invariant
                row_wf(matrix@),
                0 <= q <= columns,
                row@.len() == q,
                base == r * columns,
                base + columns <= matrix@.len(),
                total == matrix@.len(),
                forall|j: int| 0 <= j < q ==> #[trigger] row@[j]@ == matrix@[base + j]@,
                row_wf(row@),
            decreases columns - q,
        {
            row.push(matrix[base + q].clone_rat());
            q = q + 1;
        }
        let ghost out0 = out@;
        out.push(row);
        proof {
            assert forall|i: int, qq: int|
                0 <= i < r + 1 && 0 <= qq < columns implies #[trigger] entry(out@, i, qq)
                == matrix@[i * columns + qq]@ by {
                if i < r {
                    assert(out@[i] == out0[i]);
                    assert(entry(out0, i, qq) == matrix@[i * columns + qq]@);
                } else {
                    assert(out@[i] == row);
                    assert(row@[qq]@ == matrix@[base + qq]@);
                }
            }
        }
        r = r + 1;
    }
    out
}

/// Builds the nullspace basis vector for the free column `c`: one in
/// position `c`, zero in every other free position and right of `c`, and
/// the negated column-`c` value of the matching pivot row in each pivot
/// position.
fn build_basis_vector(
    m: &Vec<Vec<Rat>>,
    flags: &Vec<bool>,
    c: usize,
    pr: usize,
    width: usize,
) -> (v: Vec<Rat>)
    requires
        flags@.len() == c,
        c < width,
        pr == c - count_true(flags@.take(c as int)),
        pr <= m@.len(),
        forall|i: int| 0 <= i < m@.len() ==> (#[trigger] m@[i])@.len() == width && row_wf(m@[i]@),
    ensures
        v@.len() == width,
        row_wf(v@),
        forall|q: int|
            0 <= q < c && flags@[q] ==> (#[trigger] v@[q]@).is_zero(),
        forall|q: int|
            0 <= q < c && !flags@[q] ==> feq(
                #[trigger] v@[q]@,
                fneg(entry(m@, q - count_true(flags@.take(q)), c as int)),
            ),
        feq(v@[c as int]@, fone()),
        forall|q: int| c < q < width ==> (#[trigger] v@[q]@).is_zero(),
{
    let ghost fl = flags@;
    let mut v: Vec<Rat> = Vec::new();
    let mut pi: usize = 0;
    let mut k: usize = 0;
    proof {
        assert(fl.take(0) =~= Seq::<bool>::empty());
    }
    while k < width
        invariant
            fl == flags@,
            fl.len() == c,
            c < width,
            pr == c - count_true(fl.take(c as int)),
            pr <= m@.len(),
            forall|i: int| 0 <= i < m@.len() ==> (#[trigger] m@[i])@.len() == width && row_wf(m@[i]@),
            0 <= k <= width,
            v@.len() == k,
            k <= c ==> pi == k - count_true(fl.take(k as int)),
            k > c ==> pi == pr,
            row_wf(v@),
            forall|q: int| 0 <= q < k && q < c && fl[q] ==> (#[trigger] v@[q]@).is_zero(),
            forall|q: int|
                0 <= q < k && q < c && !fl[q] ==> feq(
                    #[trigger] v@[q]@,
                    fneg(entry(m@, q - count_true(fl.take(q)), c as int)),
                ),
            k > c ==> feq(v@[c as int]@, fone()),
            forall|q: int| c < q < k ==> (#[trigger] v@[q]@).is_zero(),
        decreases width - k,
    {
        let ghost v0 = v@;
        if k < c {
            proof {
                lemma_count_take_step(fl, k as int);
                lemma_count_take_mono(fl, k as int + 1, c as int);
                lemma_count_true_bounds(fl.take(k as int));
            }
            if flags[k] {
                let z = Rat::zero();
                proof {
                    assert(z@.num * 1 == 0 * z@.den);
                }
                v.push(z);
            } else {
                let e = m[pi][c].neg();
                v.push(e);
                pi = pi + 1;
            }
        } else if k == c {
            v.push(Rat::one());
        } else {
            let z = Rat::zero();
            proof {
                assert(z@.num * 1 == 0 * z@.den);
            }
            v.push(z);
        }
        proof {
            assert(forall|q: int| 0 <= q < k ==> v@[q] == v0[q]);
        }
        k = k + 1;
    }
    v
}

/// Every entry of a well-formed matrix is a well-formed fraction.
proof fn lemma_entries_wf(m: Seq<Vec<Rat>>, nrows: int, columns: int)
    requires
        m.len() == nrows,
        forall|i: int| 0 <= i < nrows ==> (#[trigger] m[i])@.len() == columns && row_wf(m[i]@),
    ensures
        forall|i: int, q: int|
            0 <= i < nrows && 0 <= q < columns ==> (#[trigger] entry(m, i, q)).wf(),
{
    assert forall|i: int, q: int|
        0 <= i < nrows && 0 <= q < columns implies (#[trigger] entry(m, i, q)).wf() by {
        assert((m[i]@[q]@).wf());
    }
}

/// An index into the `kk`-th row of a flat row-major layout lies before
/// the `k`-th row for `kk < k`.
pub proof fn lemma_flat_index_bound(kk: int, jq: int, k: int, columns: int)
    requires
        0 <= kk < k,
        0 <= jq < columns,
    ensures
        0 <= kk * columns + jq < k * columns,
{
    assert(0 <= kk * columns + jq < k * columns) by (nonlinear_arith)
        requires
            0 <= kk < k,
            0 <= jq < columns,
    ;
}

/// A `true` at `ck` puts the count of the prefix strictly below the total.
pub proof fn lemma_count_true_at(s: Seq<bool>, ck: int)
    requires
        0 <= ck < s.len(),
        s[ck],
    ensures
        0 <= count_true(s.take(ck)) < count_true(s),
{
    lemma_count_true_bounds(s.take(ck));
    lemma_count_take_step(s, ck);
    lemma_count_take_mono(s, ck + 1, s.len() as int);
    assert(s.take(s.len() as int) =~= s);
}

/// The `k`-th vector of a flat row-major sequence of rationals.
pub open spec fn basis_vec(flat: Seq<Rat>, columns: int, k: int) -> Seq<Frac> {
    rowm(flat.subrange(k * columns, k * columns + columns))
}

/// Solutions are determined by their free coordinates: two well-formed
/// vectors in the nullspace of `m` that agree on every free column agree
/// everywhere. Together with the unit structure of the returned basis
/// vectors this is the spanning half of rank-nullity: any solution
/// coincides with the combination of the basis given by its own free
/// coordinates, so no solution is missed and the number of basis vectors
/// is exactly the dimension of the nullspace.
pub open spec fn solutions_determined(
    m: Seq<Seq<Frac>>,
    flags: Seq<bool>,
    v: Seq<Frac>,
    w: Seq<Frac>,
) -> bool {
    (v.len() == flags.len() && w.len() == flags.len() && seq_wf(v) && seq_wf(w) && in_nullspace(
        m,
        v,
    ) && in_nullspace(m, w) && (forall|c: int|
        0 <= c < flags.len() && flags[c] ==> feq(#[trigger] v[c], #[trigger] w[c]))) ==> (forall|
        c: int,
    |
        0 <= c < flags.len() ==> feq(#[trigger] v[c], #[trigger] w[c]))
}

/// In the fully reduced matrix, a pivot coordinate of any solution is
/// forced by the solution's free coordinates: the pivot row reads one at
/// its own column, zero at every other pivot column, so the dot product
/// pins the pivot coordinate against the free ones.
#[verifier::rlimit(60)]
proof fn lemma_pivot_coord_agrees(
    m: Seq<Vec<Rat>>,
    fl: Seq<bool>,
    pivots: Seq<int>,
    columns: int,
    pr: int,
    v: Seq<Frac>,
    w: Seq<Frac>,
    cc: int,
)
    requires
        fl.len() == columns,
        pivots.len() == pr,
        0 <= pr <= m.len(),
        forall|i: int| 0 <= i < m.len() ==> (#[trigger] m[i])@.len() == columns && row_wf(m[i]@),
        forall|j: int|
            0 <= j < pr ==> 0 <= #[trigger] pivots[j] < columns && !fl[pivots[j]] && pivots[j]
                - count_true(fl.take(pivots[j])) == j,
        forall|i: int, j: int|
            0 <= i < m.len() && 0 <= j < pr ==> feq(
                #[trigger] entry(m, i, pivots[j]),
                if i == j {
                    fone()
                } else {
                    fzero()
                },
            ),
        pr == columns - count_true(fl),
        v.len() == columns,
        w.len() == columns,
        seq_wf(v),
        seq_wf(w),
        in_nullspace(matm(m), v),
        in_nullspace(matm(m), w),
        forall|c: int| 0 <= c < columns && fl[c] ==> feq(#[trigger] v[c], #[trigger] w[c]),
        0 <= cc < columns,
        !fl[cc],
    ensures
        feq(v[cc], w[cc]),
{
    // the ordinal of this pivot column, and its row
    let j = cc - count_true(fl.take(cc));
    lemma_count_true_bounds(fl.take(cc));
    lemma_false_positions_ordered(fl, cc, columns);
    assert(fl.take(columns) =~= fl);
    assert(0 <= j < pr);
    assert(pivots[j] == cc) by {
        if pivots[j] < cc {
            lemma_false_positions_ordered(fl, pivots[j], cc);
        } else if pivots[j] > cc {
            lemma_false_positions_ordered(fl, cc, pivots[j]);
        }
    }
    let row = rowm(m[j]@);
    assert(matm(m)[j] == row);
    lemma_row_wf_rowm(m[j]@);
    assert(row.len() == columns);
    assert(forall|q: int| 0 <= q < columns ==> row[q] == #[trigger] m[j]@[q]@);
    let tv = Seq::new(row.len(), |q: int| fmul(row[q], v[q]));
    let tw = Seq::new(row.len(), |q: int| fmul(row[q], w[q]));
    assert forall|q: int| 0 <= q < columns implies (#[trigger] tv[q]).wf() by {
        lemma_fmul_wf(row[q], v[q]);
    }
    assert forall|q: int| 0 <= q < columns implies (#[trigger] tw[q]).wf() by {
        lemma_fmul_wf(row[q], w[q]);
    }
    assert(seq_wf(tv) && seq_wf(tw));
    assert(row_kills(matm(m)[j], v) && row_kills(matm(m)[j], w));
    assert(fdot(row, v) == fsum(tv));
    assert(fdot(row, w) == fsum(tw));
    lemma_fsum_wf(tv);
    lemma_fsum_wf(tw);
    // both dot products split around the pivot position
    crate::fracseq::lemma_fsum_pick(tv, cc);
    crate::fracseq::lemma_fsum_pick(tw, cc);
    let av = fsum(tv.take(cc));
    let bv = fsum(tv.skip(cc + 1));
    let aw = fsum(tw.take(cc));
    let bw = fsum(tw.skip(cc + 1));
    assert(seq_wf(tv.take(cc)) && seq_wf(tw.take(cc)) && seq_wf(tv.skip(cc + 1)) && seq_wf(
        tw.skip(cc + 1),
    ));
    lemma_fsum_wf(tv.take(cc));
    lemma_fsum_wf(tw.take(cc));
    lemma_fsum_wf(tv.skip(cc + 1));
    lemma_fsum_wf(tw.skip(cc + 1));
    // off the pivot position the term sequences agree: free columns by
    // hypothesis, other pivot columns because the row is zero there
    assert forall|q: int| 0 <= q < columns && q != cc implies feq(
        #[trigger] tv[q],
        #[trigger] tw[q],
    ) by {
        if fl[q] {
            lemma_fmul_congr(row[q], v[q], row[q], w[q]);
        } else {
            let j2 = q - count_true(fl.take(q));
            lemma_count_true_bounds(fl.take(q));
            lemma_false_positions_ordered(fl, q, columns);
            assert(0 <= j2 < pr);
            assert(pivots[j2] == q) by {
                if pivots[j2] < q {
                    lemma_false_positions_ordered(fl, pivots[j2], q);
                } else if pivots[j2] > q {
                    lemma_false_positions_ordered(fl, q, pivots[j2]);
                }
            }
            assert(j2 != j);
            assert(feq(entry(m, j, pivots[j2]), fzero()));
            assert(row[q] == entry(m, j, q));
            lemma_fmul_zero(v[q], row[q]);
            lemma_fmul_zero(w[q], row[q]);
            lemma_feq_sym(fmul(row[q], w[q]), fzero());
            lemma_feq_trans(tv[q], fzero(), tw[q]);
        }
    }
    assert forall|x: int| 0 <= x < tv.take(cc).len() implies feq(
        #[trigger] tv.take(cc)[x],
        tw.take(cc)[x],
    ) by {
        assert(tv.take(cc)[x] == tv[x] && tw.take(cc)[x] == tw[x]);
    }
    lemma_fsum_congr(tv.take(cc), tw.take(cc));
    assert forall|x: int| 0 <= x < tv.skip(cc + 1).len() implies feq(
        #[trigger] tv.skip(cc + 1)[x],
        tw.skip(cc + 1)[x],
    ) by {
        assert(tv.skip(cc + 1)[x] == tv[cc + 1 + x] && tw.skip(cc + 1)[x] == tw[cc + 1 + x]);
    }
    lemma_fsum_congr(tv.skip(cc + 1), tw.skip(cc + 1));
    // assemble the two zero sums with matched outer parts
    let sv = fadd(av, fadd(tv[cc], bv));
    let swv = fadd(av, fadd(tw[cc], bv));
    lemma_fadd_wf(tv[cc], bv);
    lemma_fadd_wf(tw[cc], bv);
    lemma_fadd_wf(tw[cc], bw);
    lemma_fadd_wf(av, fadd(tv[cc], bv));
    lemma_fadd_wf(av, fadd(tw[cc], bv));
    lemma_fadd_wf(aw, fadd(tw[cc], bw));
    assert(feq(sv, fzero())) by {
        lemma_feq_sym(fsum(tv), sv);
        lemma_feq_trans(sv, fsum(tv), fzero());
    }
    assert(feq(swv, fadd(aw, fadd(tw[cc], bw)))) by {
        lemma_feq_sym(av, aw);
        lemma_feq_sym(bv, bw);
        lemma_fadd_congr(tw[cc], bv, tw[cc], bw);
        lemma_fadd_congr(av, fadd(tw[cc], bv), aw, fadd(tw[cc], bw));
    }
    assert(feq(swv, fzero())) by {
        lemma_feq_sym(fsum(tw), fadd(aw, fadd(tw[cc], bw)));
        lemma_feq_trans(fadd(aw, fadd(tw[cc], bw)), fsum(tw), fzero());
        lemma_feq_trans(swv, fadd(aw, fadd(tw[cc], bw)), fzero());
    }
    crate::frac::lemma_cancel_middle(av, tv[cc], tw[cc], bv);
    // peel the unit entry of the pivot row
    assert(feq(entry(m, j, pivots[j]), fone()));
    assert(row[cc] == entry(m, j, cc));
    crate::frac::lemma_fmul_comm(row[cc], v[cc]);
    lemma_fmul_one(v[cc], row[cc]);
    crate::frac::lemma_fmul_comm(row[cc], w[cc]);
    lemma_fmul_one(w[cc], row[cc]);
    assert(feq(tv[cc], v[cc]));
    assert(feq(tw[cc], w[cc]));
    lemma_feq_sym(tv[cc], v[cc]);
    lemma_feq_trans(v[cc], tv[cc], tw[cc]);
    lemma_feq_trans(v[cc], tw[cc], w[cc]);
}

/// Packages the end state of elimination into the public determinacy
/// statement.
proof fn lemma_solutions_determined(
    m: Seq<Vec<Rat>>,
    fl: Seq<bool>,
    pivots: Seq<int>,
    orig: Seq<Seq<Frac>>,
    columns: int,
    pr: int,
)
    requires
        fl.len() == columns,
        pivots.len() == pr,
        0 <= pr <= m.len(),
        pr == columns - count_true(fl),
        forall|i: int| 0 <= i < m.len() ==> (#[trigger] m[i])@.len() == columns && row_wf(m[i]@),
        forall|j: int|
            0 <= j < pr ==> 0 <= #[trigger] pivots[j] < columns && !fl[pivots[j]] && pivots[j]
                - count_true(fl.take(pivots[j])) == j,
        forall|i: int, j: int|
            0 <= i < m.len() && 0 <= j < pr ==> feq(
                #[trigger] entry(m, i, pivots[j]),
                if i == j {
                    fone()
                } else {
                    fzero()
                },
            ),
        forall|v: Seq<Frac>|
            v.len() == columns && seq_wf(v) && #[trigger] in_nullspace(orig, v) ==> in_nullspace(
                matm(m),
                v,
            ),
    ensures
        forall|v: Seq<Frac>, w: Seq<Frac>| #[trigger] solutions_determined(orig, fl, v, w),
{
    assert forall|v: Seq<Frac>, w: Seq<Frac>| #[trigger] solutions_determined(
        orig,
        fl,
        v,
        w,
    ) by {
        if v.len() == fl.len() && w.len() == fl.len() && seq_wf(v) && seq_wf(w) && in_nullspace(
            orig,
            v,
        ) && in_nullspace(orig, w) && (forall|c: int|
            0 <= c < fl.len() && fl[c] ==> feq(#[trigger] v[c], #[trigger] w[c])) {
            assert(in_nullspace(matm(m), v));
            assert(in_nullspace(matm(m), w));
            assert forall|c: int| 0 <= c < fl.len() implies feq(
                #[trigger] v[c],
                #[trigger] w[c],
            ) by {
                if !fl[c] {
                    lemma_pivot_coord_agrees(m, fl, pivots, columns, pr, v, w, c);
                }
            }
        }
    }
}

/// Gauss-Jordan elimination over exact rationals.
///
/// `matrix` holds the rows one after another, each `columns` entries
/// long. The first result marks, for each column in left-to-right order,
/// whether elimination found a pivot in it (`false`) or the column is a
/// free parameter (`true`). The second result holds one nullspace basis
/// vector per free column, one after another, each `columns` entries
/// long; the vector for a free column holds one in that column and zero
/// in every other free column and every column right of it. Each basis
/// vector gives a zero dot product with every row of the input matrix.
pub fn nullspace(matrix: Vec<Rat>, columns: usize) -> (res: (Vec<bool>, Vec<Rat>))
    requires
        row_wf(matrix@),
        columns > 0 ==> (matrix@.len() as int) % (columns as int) == 0,
        columns == 0 ==> matrix@.len() == 0,
    ensures
        res.0@.len() == columns,
        res.1@.len() == count_true(res.0@) * columns,
        row_wf(res.1@),
        columns - count_true(res.0@) <= (matrix@.len() as int) / (if columns == 0 {
            1int
        } else {
            columns as int
        }),
        forall|k: int|
            0 <= k < count_true(res.0@) ==> in_nullspace(
                rows_of(rowm(matrix@), columns as int),
                #[trigger] basis_vec(res.1@, columns as int, k),
            ),
        forall|ck: int, k: int|
            0 <= ck < columns && res.0@[ck] && k == count_true(res.0@.take(ck)) ==> feq(
                #[trigger] basis_vec(res.1@, columns as int, k)[ck],
                fone(),
            ),
        forall|ck: int, k: int, q: int|
            #![trigger basis_vec(res.1@, columns as int, k)[q], res.0@.take(ck)]
            0 <= ck < columns && res.0@[ck] && k == count_true(res.0@.take(ck)) && ck < q < columns
                ==> (basis_vec(res.1@, columns as int, k)[q]).is_zero(),
        forall|ck: int, k: int, q: int|
            #![trigger basis_vec(res.1@, columns as int, k)[q], res.0@.take(ck)]
            0 <= ck < columns && res.0@[ck] && k == count_true(res.0@.take(ck)) && 0 <= q < ck
                && res.0@[q] ==> (basis_vec(res.1@, columns as int, k)[q]).is_zero(),
        forall|v: Seq<Frac>, w: Seq<Frac>| #[trigger] solutions_determined(
            rows_of(rowm(matrix@), columns as int),
            res.0@,
            v,
            w,
        ),
{
    if columns == 0 {
        let flags: Vec<bool> = Vec::new();
        let flat: Vec<Rat> = Vec::new();
        proof {
            assert forall|v: Seq<Frac>, w: Seq<Frac>| #[trigger] solutions_determined(
                rows_of(rowm(matrix@), columns as int),
                flags@,
                v,
                w,
            ) by {
                assert(flags@.len() == 0);
            }
        }
        return (flags, flat);
    }
    let nrows = matrix.len() / columns;
    proof {
        assert(nrows * columns == matrix@.len()) by (nonlinear_arith)
            requires
                columns > 0,
                (matrix@.len() as int) % (columns as int) == 0,
                nrows == matrix@.len() as int / columns as int,
        ;
    }
    let mut m = split_rows(&matrix, columns, nrows);
    let ghost orig = matm(m@);
    proof {
        // the rows of the flat input are exactly the grouped rows
        assert(orig =~= rows_of(rowm(matrix@), columns as int)) by {
            assert(rowm(matrix@).len() == matrix@.len());
            assert((matrix@.len() as int) / (columns as int) == nrows) by (nonlinear_arith)
                requires
                    columns > 0,
                    nrows * columns == matrix@.len(),
            ;
            assert forall|r: int| 0 <= r < nrows implies orig[r] =~= rows_of(
                rowm(matrix@),
                columns as int,
            )[r] by {
                assert(orig[r].len() == columns) by {
                    assert(orig[r] == rowm(m@[r]@));
                }
                assert(r * columns >= 0 && r * columns + columns <= matrix@.len())
                    by (nonlinear_arith)
                    requires
                        0 <= r < nrows,
                        columns > 0,
                        nrows * columns == matrix@.len(),
                ;
                assert forall|q: int| 0 <= q < columns implies orig[r][q] == rows_of(
                    rowm(matrix@),
                    columns as int,
                )[r][q] by {
                    assert(orig[r][q] == entry(m@, r, q));
                    assert(rows_of(rowm(matrix@), columns as int)[r] == rowm(matrix@).subrange(
                        r * (columns as int),
                        r * (columns as int) + (columns as int),
                    ));
                    assert(rowm(matrix@).subrange(
                        r * (columns as int),
                        r * (columns as int) + (columns as int),
                    )[q] == rowm(matrix@)[r * columns + q]);
                }
            }
        }
        assert(mat_wf(orig, columns as int)) by {
            assert forall|i: int| 0 <= i < orig.len() implies (#[trigger] orig[i]).len()
                == columns && seq_wf(orig[i]) by {
                assert(orig[i] == rowm(m@[i]@));
                lemma_row_wf_rowm(m@[i]@);
            }
        }
    }
    let mut flags: Vec<bool> = Vec::new();
    let mut basis: Vec<Vec<Rat>> = Vec::new();
    let mut pr: usize = 0;
    let ghost mut pivots: Seq<int> = Seq::empty();
    let mut c: usize = 0;
    proof {
        assert(flags@.take(0) =~= Seq::<bool>::empty());
    }
    while c < columns
        invariant
            columns > 0,
            m@.len() == nrows,
            forall|i: int| 0 <= i < nrows ==> (#[trigger] m@[i])@.len() == columns && row_wf(m@[i]@),
            mat_wf(orig, columns as int),
            orig.len() == nrows,
            0 <= c <= columns,
            flags@.len() == c,
            pr == c - count_true(flags@.take(c as int)),
            0 <= pr <= nrows,
            pivots.len() == pr,
            forall|j: int|
                0 <= j < pr ==> 0 <= #[trigger] pivots[j] < c && !flags@[pivots[j]] && pivots[j]
                    - count_true(flags@.take(pivots[j])) == j,
            forall|i: int, j: int|
                0 <= i < nrows && 0 <= j < pr ==> feq(
                    #[trigger] entry(m@, i, pivots[j]),
                    if i == j {
                        fone()
                    } else {
                        fzero()
                    },
                ),
            forall|v: Seq<Frac>|
                v.len() == columns && seq_wf(v) && #[trigger] in_nullspace(matm(m@), v)
                    ==> in_nullspace(orig, v),
            forall|v: Seq<Frac>|
                v.len() == columns && seq_wf(v) && #[trigger] in_nullspace(orig, v)
                    ==> in_nullspace(matm(m@), v),
            basis@.len() == count_true(flags@),
            forall|k: int|
                0 <= k < basis@.len() ==> (#[trigger] basis@[k])@.len() == columns && row_wf(
                    basis@[k]@,
                ),
            forall|k: int|
                0 <= k < basis@.len() ==> in_nullspace(orig, rowm((#[trigger] basis@[k])@)),
            forall|ck: int, k: int|
                0 <= ck < c && flags@[ck] && k == count_true(flags@.take(ck)) ==> feq(
                    #[trigger] entry(basis@, k, ck),
                    fone(),
                ),
            forall|ck: int, k: int, q: int|
                #![trigger entry(basis@, k, q), flags@.take(ck)]
                0 <= ck < c && flags@[ck] && k == count_true(flags@.take(ck)) && ck < q < columns
                    ==> (entry(basis@, k, q)).is_zero(),
            forall|ck: int, k: int, q: int|
                #![trigger entry(basis@, k, q), flags@.take(ck)]
                0 <= ck < c && flags@[ck] && k == count_true(flags@.take(ck)) && 0 <= q < ck
                    && flags@[q] ==> (entry(basis@, k, q)).is_zero(),
        decreases columns - c,
    {
        // scan for the first nonzero entry in column c, at or below pr
        let mut rfind: usize = pr;
        let mut found: Option<usize> = None;
        while rfind < nrows && found.is_none()
            invariant
                m@.len() == nrows,
                forall|i: int|
                    0 <= i < nrows ==> (#[trigger] m@[i])@.len() == columns && row_wf(m@[i]@),
                (c as int) < columns,
                pr <= rfind <= nrows,
                forall|i: int| pr <= i < rfind ==> (#[trigger] entry(m@, i, c as int)).is_zero(),
                found matches Some(r) ==> pr <= r < nrows && rfind == r && !(entry(
                    m@,
                    r as int,
                    c as int,
                )).is_zero(),
            decreases nrows - rfind + (if found is None {
                1int
            } else {
                0int
            }),
        {
            if !m[rfind][c].is_zero_rat() {
                found = Some(rfind);
            } else {
                rfind = rfind + 1;
            }
        }
        match found {
            None => {
                // free column: emit a basis vector
                let v = build_basis_vector(&m, &flags, c, pr, columns);
                proof {
                    let vm = rowm(v@);
                    assert(vm.len() == columns);
                    lemma_row_wf_rowm(v@);
                    assert forall|q: int| 0 <= q < columns implies vm[q] == v@[q]@ by {}
                    lemma_basis_kills(
                        m@,
                        flags@,
                        pivots,
                        vm,
                        c as int,
                        pr as int,
                        columns as int,
                    );
                    assert(in_nullspace(matm(m@), vm));
                    assert(in_nullspace(orig, vm));
                }
                let ghost flags0 = flags@;
                let ghost basis0 = basis@;
                flags.push(true);
                basis.push(v);
                proof {
                    lemma_count_true_push(flags0, true);
                    assert(flags@.take(c as int) =~= flags0);
                    assert(flags@.take(c as int + 1) =~= flags@);
                    assert(count_true(flags@.take(c as int)) == count_true(
                        flags0.take(c as int),
                    )) by {
                        assert(flags0.take(c as int) =~= flags0);
                    }
                    // pivot characterization survives: prefixes below c unchanged
                    assert forall|j: int| 0 <= j < pr implies 0 <= #[trigger] pivots[j] < c + 1
                        && !flags@[pivots[j]] && pivots[j] - count_true(
                        flags@.take(pivots[j]),
                    ) == j by {
                        assert(flags@.take(pivots[j]) =~= flags0.take(pivots[j]));
                    }
                    // basis structure for old and new vectors
                    assert forall|ck: int, k: int|
                        0 <= ck < c + 1 && flags@[ck] && k == count_true(
                            flags@.take(ck),
                        ) implies feq(#[trigger] entry(basis@, k, ck), fone()) by {
                        if ck < c {
                            assert(flags@.take(ck) =~= flags0.take(ck));
                            assert(flags0[ck]);
                            lemma_count_true_at(flags0, ck);
                            assert(k < basis0.len());
                            assert(basis@[k] == basis0[k]);
                            assert(feq(entry(basis0, k, ck), fone()));
                        } else {
                            assert(ck == c);
                            assert(flags@.take(ck) =~= flags0);
                            assert(k == count_true(flags0) == basis0.len());
                            assert(basis@[k] == v);
                        }
                    }
                    assert forall|ck: int, k: int, q: int|
                        #![trigger entry(basis@, k, q), flags@.take(ck)]
                        0 <= ck < c + 1 && flags@[ck] && k == count_true(flags@.take(ck)) && ck < q
                            < columns implies (entry(basis@, k, q)).is_zero() by {
                        if ck < c {
                            assert(flags@.take(ck) =~= flags0.take(ck));
                            assert(flags0[ck]);
                            lemma_count_true_at(flags0, ck);
                            assert(basis@[k] == basis0[k]);
                            assert(entry(basis0, k, q).is_zero());
                        } else {
                            assert(ck == c);
                            assert(flags@.take(ck) =~= flags0);
                            assert(k == count_true(flags0) == basis0.len());
                            assert(basis@[k] == v);
                            assert(v@[q]@.is_zero());
                        }
                    }
                    assert forall|ck: int, k: int, q: int|
                        #![trigger entry(basis@, k, q), flags@.take(ck)]
                        0 <= ck < c + 1 && flags@[ck] && k == count_true(flags@.take(ck)) && 0 <= q
                            < ck && flags@[q] implies (entry(basis@, k, q)).is_zero() by {
                        if ck < c {
                            assert(flags@.take(ck) =~= flags0.take(ck));
                            assert(flags0[ck]);
                            lemma_count_true_at(flags0, ck);
                            assert(basis@[k] == basis0[k]);
                            assert(entry(basis0, k, q).is_zero());
                        } else {
                            assert(ck == c);
                            assert(flags@.take(ck) =~= flags0);
                            assert(k == count_true(flags0) == basis0.len());
                            assert(basis@[k] == v);
                            assert(flags0[q]);
                            assert(v@[q]@.is_zero());
                        }
                    }
                }
            },
            Some(rnz) => {
                // pivot column: swap, scale, eliminate
                let ghost m_before = m@;
                if rnz != pr {
                    let rowa = clone_row(&m[pr]);
                    let rowb = clone_row(&m[rnz]);
                    m[pr] = rowb;
                    m[rnz] = rowa;
                    proof {
                        assert forall|i: int|
                            0 <= i < nrows implies (#[trigger] m@[i])@.len() == columns && row_wf(
                            m@[i]@,
                        ) by {
                            if i == pr {
                                assert(forall|t: int|
                                    0 <= t < columns ==> m@[pr as int]@[t]@ == #[trigger] m_before[
                                    rnz as int]@[t]@);
                            } else if i == rnz {
                                assert(forall|t: int|
                                    0 <= t < columns ==> m@[rnz as int]@[t]@ == #[trigger] m_before[
                                    pr as int]@[t]@);
                            }
                        }
                        assert forall|q: int| 0 <= q < columns implies entry(m@, pr as int, q)
                            == entry(m_before, rnz as int, q) && entry(m@, rnz as int, q) == entry(
                            m_before,
                            pr as int,
                            q,
                        ) by {}
                        assert(rowm(m@[pr as int]@) =~= rowm(m_before[rnz as int]@));
                        assert(rowm(m@[rnz as int]@) =~= rowm(m_before[pr as int]@));
                        lemma_swap_preserves(
                            matm(m_before),
                            matm(m@),
                            pr as int,
                            rnz as int,
                        );
                        assert(matm(m@)[pr as int] == matm(m_before)[rnz as int]);
                        assert(matm(m@)[rnz as int] == matm(m_before)[pr as int]);
                        assert forall|i: int|
                            0 <= i < nrows && i != pr && i != rnz implies #[trigger] matm(m@)[i]
                            == matm(m_before)[i] by {}
                        assert forall|v: Seq<Frac>|
                            v.len() == columns && seq_wf(v) && #[trigger] in_nullspace(
                                matm(m@),
                                v,
                            ) implies in_nullspace(orig, v) by {
                            assert(in_nullspace(matm(m_before), v));
                        }
                        // a swap also carries solutions forward
                        lemma_swap_preserves(
                            matm(m@),
                            matm(m_before),
                            pr as int,
                            rnz as int,
                        );
                        assert forall|v: Seq<Frac>|
                            v.len() == columns && seq_wf(v) && #[trigger] in_nullspace(
                                orig,
                                v,
                            ) implies in_nullspace(matm(m@), v) by {
                            assert(in_nullspace(matm(m_before), v));
                        }
                        // pivot-column structure: the swapped rows both lie at or
                        // below pr, so neither is a pivot row
                        assert forall|i: int, j: int|
                            0 <= i < nrows && 0 <= j < pr implies feq(
                            #[trigger] entry(m@, i, pivots[j]),
                            if i == j {
                                fone()
                            } else {
                                fzero()
                            },
                        ) by {
                            if i == pr {
                                assert(feq(entry(m_before, rnz as int, pivots[j]), fzero()));
                            } else if i == rnz {
                                assert(feq(entry(m_before, pr as int, pivots[j]), fzero()));
                            } else {
                                assert(feq(
                                    entry(m_before, i, pivots[j]),
                                    if i == j {
                                        fone()
                                    } else {
                                        fzero()
                                    },
                                ));
                            }
                        }
                        assert(!(entry(m@, pr as int, c as int)).is_zero());
                    }
                }
                let ghost m_swapped = m@;
                proof {
                    lemma_entries_wf(m_swapped, nrows as int, columns as int);
                    assert(!(entry(m@, pr as int, c as int)).is_zero());
                }
                let piv = m[pr][c].clone_rat();
                let scaled = scale_row(&m[pr], &piv);
                m[pr] = scaled;
                proof {
                    assert(piv@ == entry(m_swapped, pr as int, c as int));
                    assert(piv@.wf());
                    assert forall|i: int|
                        0 <= i < nrows implies (#[trigger] m@[i])@.len() == columns && row_wf(
                        m@[i]@,
                    ) by {
                        if i == pr {
                        } else {
                            assert(m@[i] == m_swapped[i]);
                        }
                    }
                    // old row entries are piv times the new ones
                    assert forall|q: int| 0 <= q < columns implies feq(
                        #[trigger] matm(m_swapped)[pr as int][q],
                        fmul(piv@, matm(m@)[pr as int][q]),
                    ) by {
                        let oldq = entry(m_swapped, pr as int, q);
                        let newq = entry(m@, pr as int, q);
                        assert(matm(m_swapped)[pr as int][q] == oldq);
                        assert(matm(m@)[pr as int][q] == newq);
                        assert(feq(newq, fdiv(oldq, piv@)));
                        lemma_fdiv_wf(oldq, piv@);
                        lemma_fdiv_cancel(oldq, piv@);
                        lemma_fmul_congr(piv@, newq, piv@, fdiv(oldq, piv@));
                        lemma_fmul_wf(piv@, fdiv(oldq, piv@));
                        lemma_fmul_wf(piv@, newq);
                        lemma_feq_trans(fmul(piv@, newq), fmul(piv@, fdiv(oldq, piv@)), oldq);
                        lemma_feq_sym(fmul(piv@, newq), oldq);
                    }
                    assert(mat_wf(matm(m_swapped), columns as int) && mat_wf(
                        matm(m@),
                        columns as int,
                    )) by {
                        assert forall|i: int| 0 <= i < nrows implies (#[trigger] matm(m@)[i]).len()
                            == columns && seq_wf(matm(m@)[i]) && (matm(m_swapped)[i]).len()
                            == columns && seq_wf(matm(m_swapped)[i]) by {
                            assert(matm(m@)[i] == rowm(m@[i]@));
                            assert(matm(m_swapped)[i] == rowm(m_swapped[i]@));
                            lemma_row_wf_rowm(m@[i]@);
                            lemma_row_wf_rowm(m_swapped[i]@);
                        }
                    }
                    assert forall|i: int| 0 <= i < nrows && i != pr implies #[trigger] matm(
                        m@,
                    )[i] == matm(m_swapped)[i] by {}
                    lemma_scale_preserves(
                        matm(m_swapped),
                        matm(m@),
                        pr as int,
                        piv@,
                        columns as int,
                    );
                    assert forall|v: Seq<Frac>|
                        v.len() == columns && seq_wf(v) && #[trigger] in_nullspace(
                            matm(m@),
                            v,
                        ) implies in_nullspace(orig, v) by {
                        assert(in_nullspace(matm(m_swapped), v));
                    }
                    // scaling also carries solutions forward: the new row is
                    // the reciprocal multiple of the old one
                    let recip = fdiv(fone(), piv@);
                    crate::frac::lemma_fdiv_wf(fone(), piv@);
                    assert forall|q: int| 0 <= q < columns implies feq(
                        #[trigger] matm(m@)[pr as int][q],
                        fmul(recip, matm(m_swapped)[pr as int][q]),
                    ) by {
                        let oldq = entry(m_swapped, pr as int, q);
                        let newq = entry(m@, pr as int, q);
                        assert(matm(m@)[pr as int][q] == newq);
                        assert(matm(m_swapped)[pr as int][q] == oldq);
                        assert(feq(newq, fdiv(oldq, piv@)));
                        crate::frac::lemma_fdiv_as_mul(oldq, piv@);
                        crate::frac::lemma_fdiv_wf(oldq, piv@);
                        lemma_fmul_wf(recip, oldq);
                        lemma_feq_trans(newq, fdiv(oldq, piv@), fmul(recip, oldq));
                    }
                    lemma_scale_preserves(
                        matm(m@),
                        matm(m_swapped),
                        pr as int,
                        recip,
                        columns as int,
                    );
                    assert forall|v: Seq<Frac>|
                        v.len() == columns && seq_wf(v) && #[trigger] in_nullspace(
                            orig,
                            v,
                        ) implies in_nullspace(matm(m@), v) by {
                        assert(in_nullspace(matm(m_swapped), v));
                    }
                    // pivot columns of the scaled row stay zero; its own column
                    // becomes one
                    assert forall|i: int, j: int|
                        0 <= i < nrows && 0 <= j < pr implies feq(
                        #[trigger] entry(m@, i, pivots[j]),
                        if i == j {
                            fone()
                        } else {
                            fzero()
                        },
                    ) by {
                        if i == pr {
                            let oldq = entry(m_swapped, pr as int, pivots[j]);
                            assert(feq(oldq, fzero()));
                            assert(feq(entry(m@, i, pivots[j]), fdiv(oldq, piv@)));
                            lemma_fdiv_zero(oldq, piv@);
                            lemma_fdiv_wf(oldq, piv@);
                            lemma_feq_trans(entry(m@, i, pivots[j]), fdiv(oldq, piv@), fzero());
                        } else {
                            assert(feq(
                                entry(m_swapped, i, pivots[j]),
                                if i == j {
                                    fone()
                                } else {
                                    fzero()
                                },
                            ));
                        }
                    }
                    assert(feq(entry(m@, pr as int, c as int), fone())) by {
                        let x = entry(m_swapped, pr as int, c as int);
                        assert(feq(entry(m@, pr as int, c as int), fdiv(x, piv@)));
                        assert(piv@ == x);
                        lemma_fdiv_self(x);
                        lemma_fdiv_wf(x, piv@);
                        lemma_feq_trans(entry(m@, pr as int, c as int), fdiv(x, x), fone());
                    }
                }
                // eliminate column c from every other row
                let mut j: usize = 0;
                while j < nrows
                    invariant
                        columns > 0,
                        (c as int) < columns,
                        pr < nrows,
                        0 <= j <= nrows,
                        m@.len() == nrows,
                        forall|i: int|
                            0 <= i < nrows ==> (#[trigger] m@[i])@.len() == columns && row_wf(
                                m@[i]@,
                            ),
                        mat_wf(orig, columns as int),
                        orig.len() == nrows,
                        pivots.len() == pr,
                        forall|jj: int|
                            0 <= jj < pr ==> 0 <= #[trigger] pivots[jj] < c,
                        forall|i: int, jj: int|
                            0 <= i < nrows && 0 <= jj < pr ==> feq(
                                #[trigger] entry(m@, i, pivots[jj]),
                                if i == jj {
                                    fone()
                                } else {
                                    fzero()
                                },
                            ),
                        feq(entry(m@, pr as int, c as int), fone()),
                        forall|i: int|
                            0 <= i < j && i != pr ==> (#[trigger] entry(m@, i, c as int)).is_zero(),
                        forall|v: Seq<Frac>|
                            v.len() == columns && seq_wf(v) && #[trigger] in_nullspace(matm(m@), v)
                                ==> in_nullspace(orig, v),
                        forall|v: Seq<Frac>|
                            v.len() == columns && seq_wf(v) && #[trigger] in_nullspace(orig, v)
                                ==> in_nullspace(matm(m@), v),
                    decreases nrows - j,
                {
                    if j != pr {
                        let ghost m_old = m@;
                        let fco = m[j][c].clone_rat();
                        let newrow = subtract_scaled(&m[j], &fco, &m[pr], c);
                        m[j] = newrow;
                        proof {
                            let jj = j as int;
                            let pp = pr as int;
                            lemma_entries_wf(m_old, nrows as int, columns as int);
                            assert forall|i: int|
                                0 <= i < nrows implies (#[trigger] m@[i])@.len() == columns
                                && row_wf(m@[i]@) by {
                                if i == jj {
                                } else {
                                    assert(m@[i] == m_old[i]);
                                }
                            }
                            lemma_entries_wf(m@, nrows as int, columns as int);
                            assert(mat_wf(matm(m_old), columns as int) && mat_wf(
                                matm(m@),
                                columns as int,
                            )) by {
                                assert forall|i: int|
                                    0 <= i < nrows implies (#[trigger] matm(m@)[i]).len()
                                    == columns && seq_wf(matm(m@)[i]) && (matm(m_old)[i]).len()
                                    == columns && seq_wf(matm(m_old)[i]) by {
                                    assert(matm(m@)[i] == rowm(m@[i]@));
                                    assert(matm(m_old)[i] == rowm(m_old[i]@));
                                    lemma_row_wf_rowm(m@[i]@);
                                    lemma_row_wf_rowm(m_old[i]@);
                                }
                            }
                            assert forall|i: int|
                                0 <= i < nrows && i != jj implies #[trigger] matm(m@)[i] == matm(
                                m_old,
                            )[i] by {}
                            // old row j is the new row plus fco times the pivot row
                            assert forall|q: int| 0 <= q < columns implies feq(
                                #[trigger] matm(m_old)[jj][q],
                                fadd(matm(m@)[jj][q], fmul(fco@, matm(m_old)[pp][q])),
                            ) by {
                                let oldq = entry(m_old, jj, q);
                                let newq = entry(m@, jj, q);
                                let pq = entry(m_old, pp, q);
                                assert(matm(m_old)[jj][q] == oldq);
                                assert(matm(m@)[jj][q] == newq);
                                assert(matm(m_old)[pp][q] == pq);
                                lemma_fmul_wf(fco@, pq);
                                if q != c {
                                    assert(feq(newq, fsub(oldq, fmul(fco@, pq))));
                                    lemma_fsub_cancel(oldq, fmul(fco@, pq));
                                    lemma_fadd_wf(oldq, fneg(fmul(fco@, pq)));
                                    lemma_fadd_congr(
                                        newq,
                                        fmul(fco@, pq),
                                        fsub(oldq, fmul(fco@, pq)),
                                        fmul(fco@, pq),
                                    );
                                    lemma_fadd_wf(newq, fmul(fco@, pq));
                                    lemma_fadd_wf(fsub(oldq, fmul(fco@, pq)), fmul(fco@, pq));
                                    lemma_feq_trans(
                                        fadd(newq, fmul(fco@, pq)),
                                        fadd(fsub(oldq, fmul(fco@, pq)), fmul(fco@, pq)),
                                        oldq,
                                    );
                                    lemma_feq_sym(fadd(newq, fmul(fco@, pq)), oldq);
                                } else {
                                    // the column-c entry: fco is the old value and
                                    // the pivot entry is one
                                    assert(fco@ == oldq);
                                    assert(feq(pq, fone()));
                                    assert(feq(newq, fzero()));
                                    lemma_fmul_one(fco@, pq);
                                    lemma_fmul_wf(fco@, pq);
                                    lemma_fadd_congr(newq, fmul(fco@, pq), fzero(), oldq);
                                    crate::fracseq::lemma_zero_plus(oldq);
                                    lemma_fadd_wf(newq, fmul(fco@, pq));
                                    lemma_fadd_wf(fzero(), oldq);
                                    lemma_fmul_wf(fco@, pq);
                                    lemma_feq_trans(
                                        fadd(newq, fmul(fco@, pq)),
                                        fadd(fzero(), oldq),
                                        oldq,
                                    );
                                    lemma_feq_sym(fadd(newq, fmul(fco@, pq)), oldq);
                                }
                            }
                            lemma_elim_preserves(
                                matm(m_old),
                                matm(m@),
                                jj,
                                pp,
                                fco@,
                                columns as int,
                            );
                            assert forall|v: Seq<Frac>|
                                v.len() == columns && seq_wf(v) && #[trigger] in_nullspace(
                                    matm(m@),
                                    v,
                                ) implies in_nullspace(orig, v) by {
                                assert(in_nullspace(matm(m_old), v));
                            }
                            // the subtraction also carries solutions forward:
                            // the new row is the old one plus the negated
                            // multiple of the untouched pivot row
                            assert forall|q: int| 0 <= q < columns implies feq(
                                #[trigger] matm(m@)[jj][q],
                                fadd(matm(m_old)[jj][q], fmul(fneg(fco@), matm(m@)[pp][q])),
                            ) by {
                                let oldq = entry(m_old, jj, q);
                                let newq = entry(m@, jj, q);
                                let pq = entry(m_old, pp, q);
                                assert(matm(m_old)[jj][q] == oldq);
                                assert(matm(m@)[jj][q] == newq);
                                assert(matm(m@)[pp][q] == pq);
                                crate::frac::lemma_fneg_mul(fco@, pq);
                                lemma_fmul_wf(fco@, pq);
                                if q != c {
                                    assert(feq(newq, fsub(oldq, fmul(fco@, pq))));
                                    assert(fsub(oldq, fmul(fco@, pq)) == fadd(
                                        oldq,
                                        fmul(fneg(fco@), pq),
                                    ));
                                } else {
                                    assert(fco@ == oldq);
                                    assert(feq(pq, fone()));
                                    assert(feq(newq, fzero()));
                                    lemma_fmul_one(fneg(fco@), pq);
                                    lemma_fmul_wf(fneg(fco@), pq);
                                    lemma_fadd_congr(
                                        oldq,
                                        fmul(fneg(fco@), pq),
                                        oldq,
                                        fneg(oldq),
                                    );
                                    lemma_fneg_cancel(oldq);
                                    lemma_fadd_wf(oldq, fmul(fneg(fco@), pq));
                                    lemma_fadd_wf(oldq, fneg(oldq));
                                    lemma_feq_trans(
                                        fadd(oldq, fmul(fneg(fco@), pq)),
                                        fadd(oldq, fneg(oldq)),
                                        fzero(),
                                    );
                                    lemma_feq_sym(
                                        fadd(oldq, fmul(fneg(fco@), pq)),
                                        fzero(),
                                    );
                                    lemma_feq_trans(
                                        newq,
                                        fzero(),
                                        fadd(oldq, fmul(fneg(fco@), pq)),
                                    );
                                }
                            }
                            lemma_elim_preserves(
                                matm(m@),
                                matm(m_old),
                                jj,
                                pp,
                                fneg(fco@),
                                columns as int,
                            );
                            assert forall|v: Seq<Frac>|
                                v.len() == columns && seq_wf(v) && #[trigger] in_nullspace(
                                    orig,
                                    v,
                                ) implies in_nullspace(matm(m@), v) by {
                                assert(in_nullspace(matm(m_old), v));
                            }
                            // pivot columns keep their structure: the pivot row has
                            // zero there, so the subtraction changes nothing
                            assert forall|i: int, kk: int|
                                0 <= i < nrows && 0 <= kk < pr implies feq(
                                #[trigger] entry(m@, i, pivots[kk]),
                                if i == kk {
                                    fone()
                                } else {
                                    fzero()
                                },
                            ) by {
                                if i == jj {
                                    let oldq = entry(m_old, jj, pivots[kk]);
                                    let pq = entry(m_old, pp, pivots[kk]);
                                    let g = fmul(fco@, pq);
                                    assert(feq(pq, fzero()));
                                    assert(feq(
                                        entry(m@, jj, pivots[kk]),
                                        fsub(oldq, g),
                                    ));
                                    lemma_fmul_wf(fco@, pq);
                                    assert(feq(g, fzero())) by {
                                        crate::frac::lemma_feq_zero(pq);
                                        assert(fco@.num * pq.num == 0) by (nonlinear_arith)
                                            requires
                                                pq.num == 0,
                                        ;
                                        crate::frac::lemma_zero_feq(g);
                                    }
                                    crate::frac::lemma_fsub_zero(oldq, g);
                                    lemma_fadd_wf(oldq, fneg(g));
                                    lemma_feq_trans(
                                        entry(m@, jj, pivots[kk]),
                                        fsub(oldq, g),
                                        oldq,
                                    );
                                    assert(feq(
                                        oldq,
                                        if jj == kk {
                                            fone()
                                        } else {
                                            fzero()
                                        },
                                    ));
                                    lemma_feq_trans(
                                        entry(m@, jj, pivots[kk]),
                                        oldq,
                                        if jj == kk {
                                            fone()
                                        } else {
                                            fzero()
                                        },
                                    );
                                } else {
                                    assert(entry(m@, i, pivots[kk]) == entry(
                                        m_old,
                                        i,
                                        pivots[kk],
                                    ));
                                }
                            }
                            assert(entry(m@, jj, c as int).is_zero()) by {
                                crate::frac::lemma_feq_zero(entry(m@, jj, c as int));
                            }
                            assert forall|i: int|
                                0 <= i < j + 1 && i != pr implies (#[trigger] entry(
                                m@,
                                i,
                                c as int,
                            )).is_zero() by {
                                if i != jj {
                                    assert(entry(m@, i, c as int) == entry(m_old, i, c as int));
                                }
                            }
                            assert(feq(entry(m@, pr as int, c as int), fone()));
                        }
                    }
                    j = j + 1;
                }
                // record the pivot
                let ghost flags0 = flags@;
                let ghost basis0 = basis@;
                flags.push(false);
                proof {
                    pivots = pivots.push(c as int);
                }
                pr = pr + 1;
                proof {
                    lemma_count_true_push(flags0, false);
                    assert(flags@.take(c as int + 1) =~= flags@);
                    assert(flags0.take(c as int) =~= flags0);
                    assert(flags@.take(c as int) =~= flags0);
                    assert forall|jj: int| 0 <= jj < pr implies 0 <= #[trigger] pivots[jj] < c + 1
                        && !flags@[pivots[jj]] && pivots[jj] - count_true(
                        flags@.take(pivots[jj]),
                    ) == jj by {
                        if jj < pr - 1 {
                            assert(pivots[jj] < c);
                            assert(!flags0[pivots[jj]]);
                            assert(flags@.take(pivots[jj]) =~= flags0.take(pivots[jj]));
                        } else {
                            assert(pivots[jj] == c);
                            assert(flags@.take(c as int) =~= flags0);
                        }
                    }
                    assert forall|i: int, jj: int|
                        0 <= i < nrows && 0 <= jj < pr implies feq(
                        #[trigger] entry(m@, i, pivots[jj]),
                        if i == jj {
                            fone()
                        } else {
                            fzero()
                        },
                    ) by {
                        if jj < pr - 1 {
                        } else {
                            assert(pivots[jj] == c);
                            if i == pr - 1 {
                                assert(feq(entry(m@, i, c as int), fone()));
                            } else {
                                assert(entry(m@, i, c as int).is_zero());
                                crate::frac::lemma_zero_feq(entry(m@, i, c as int));
                            }
                        }
                    }
                    // basis structure survives: the new flag is false
                    assert forall|ck: int, k: int|
                        0 <= ck < c + 1 && flags@[ck] && k == count_true(
                            flags@.take(ck),
                        ) implies feq(#[trigger] entry(basis@, k, ck), fone()) by {
                        assert(ck < c);
                        assert(flags@.take(ck) =~= flags0.take(ck));
                        assert(flags0[ck]);
                        assert(feq(entry(basis0, k, ck), fone()));
                    }
                    assert forall|ck: int, k: int, q: int|
                        #![trigger entry(basis@, k, q), flags@.take(ck)]
                        0 <= ck < c + 1 && flags@[ck] && k == count_true(flags@.take(ck)) && ck < q
                            < columns implies (entry(basis@, k, q)).is_zero() by {
                        assert(ck < c);
                        assert(flags@.take(ck) =~= flags0.take(ck));
                        assert(flags0[ck]);
                        assert(entry(basis0, k, q).is_zero());
                    }
                    assert forall|ck: int, k: int, q: int|
                        #![trigger entry(basis@, k, q), flags@.take(ck)]
                        0 <= ck < c + 1 && flags@[ck] && k == count_true(flags@.take(ck)) && 0 <= q
                            < ck && flags@[q] implies (entry(basis@, k, q)).is_zero() by {
                        assert(ck < c);
                        assert(flags@.take(ck) =~= flags0.take(ck));
                        assert(flags0[ck]);
                        assert(entry(basis0, k, q).is_zero());
                    }
                }
            },
        }
        c = c + 1;
    }
    // flatten the basis vectors
    let nb = basis.len();
    let mut flat: Vec<Rat> = Vec::new();
    let mut k: usize = 0;
    while k < nb
        invariant
            basis@.len() == nb,
            forall|kk: int|
                0 <= kk < nb ==> (#[trigger] basis@[kk])@.len() == columns && row_wf(basis@[kk]@),
            0 <= k <= nb,
            flat@.len() == k * columns,
            row_wf(flat@),
            forall|kk: int, q: int|
                0 <= kk < k && 0 <= q < columns ==> flat@[kk * columns + q]@ == #[trigger] entry(
                    basis@,
                    kk,
                    q,
                ),
        decreases nb - k,
    {
        proof {
            assert(k * columns + columns == (k + 1) * columns) by (nonlinear_arith);
            assert(k * columns >= 0 && (k + 1) * columns <= nb * columns) by (nonlinear_arith)
                requires
                    0 <= k < nb,
                    columns >= 0,
            ;
        }
        let row = &basis[k];
        let mut q: usize = 0;
        while q < columns
            invariant
                0 <= q <= columns,
                row@.len() == columns,
                row_wf(row@),
                flat@.len() == k * columns + q,
                row_wf(flat@),
                forall|j: int| 0 <= j < q ==> flat@[k * columns + j]@ == #[trigger] row@[j]@,
                forall|kk: int, jq: int|
                    0 <= kk < k && 0 <= jq < columns ==> flat@[kk * columns + jq]@
                        == #[trigger] entry(basis@, kk, jq),
                basis@.len() == nb,
                forall|kk: int|
                    0 <= kk < nb ==> (#[trigger] basis@[kk])@.len() == columns && row_wf(
                        basis@[kk]@,
                    ),
                row == basis@[k as int],
                k < nb,
            decreases columns - q,
        {
            proof {
                assert forall|kk: int, jq: int|
                    0 <= kk < k && 0 <= jq < columns implies 0 <= #[trigger] (kk * columns + jq)
                        < k * columns by {
                    lemma_flat_index_bound(kk, jq, k as int, columns as int);
                }
            }
            flat.push(row[q].clone_rat());
            q = q + 1;
        }
        proof {
            assert forall|kk: int, jq: int|
                0 <= kk < k + 1 && 0 <= jq < columns implies flat@[kk * columns + jq]@
                == #[trigger] entry(basis@, kk, jq) by {
                if kk < k {
                    lemma_flat_index_bound(kk, jq, k as int, columns as int);
                } else {
                    assert(flat@[k * columns + jq]@ == row@[jq]@);
                }
            }
        }
        k = k + 1;
    }
    proof {
        assert(count_true(flags@) == nb);
        assert(flags@.len() == columns);
        // per-vector views of the flat result
        assert forall|kk: int| 0 <= kk < nb implies basis_vec(flat@, columns as int, kk) =~= rowm(
            (#[trigger] basis@[kk])@,
        ) by {
            assert(kk * columns >= 0 && kk * columns + columns <= nb * columns)
                by (nonlinear_arith)
                requires
                    0 <= kk < nb,
                    columns > 0,
            ;
            assert forall|q: int|
                0 <= q < columns implies basis_vec(flat@, columns as int, kk)[q] == rowm(
                basis@[kk]@,
            )[q] by {
                assert(flat@.subrange(
                    kk * (columns as int),
                    kk * (columns as int) + columns as int,
                )[q] == flat@[kk * columns + q]);
                assert(flat@[kk * columns + q]@ == entry(basis@, kk, q));
            }
        }
        assert forall|kk: int| 0 <= kk < count_true(flags@) implies in_nullspace(
            rows_of(rowm(matrix@), columns as int),
            #[trigger] basis_vec(flat@, columns as int, kk),
        ) by {
            assert(in_nullspace(orig, rowm(basis@[kk]@)));
        }
        // final basis structure, restated over the flat vector
        assert forall|ck: int, k2: int|
            0 <= ck < columns && flags@[ck] && k2 == count_true(flags@.take(ck)) implies feq(
            #[trigger] basis_vec(flat@, columns as int, k2)[ck],
            fone(),
        ) by {
            lemma_count_true_at(flags@, ck);
            assert(feq(entry(basis@, k2, ck), fone()));
            assert(basis_vec(flat@, columns as int, k2) =~= rowm(basis@[k2]@));
            assert(basis_vec(flat@, columns as int, k2)[ck] == entry(basis@, k2, ck));
        }
        assert forall|ck: int, k2: int, q: int|
            #![trigger basis_vec(flat@, columns as int, k2)[q], flags@.take(ck)]
            0 <= ck < columns && flags@[ck] && k2 == count_true(flags@.take(ck)) && ck < q
                < columns implies (basis_vec(flat@, columns as int, k2)[q]).is_zero() by {
            lemma_count_true_at(flags@, ck);
            assert(basis_vec(flat@, columns as int, k2) =~= rowm(basis@[k2]@));
            assert(basis_vec(flat@, columns as int, k2)[q] == entry(basis@, k2, q));
            assert(entry(basis@, k2, q).is_zero());
        }
        assert forall|ck: int, k2: int, q: int|
            #![trigger basis_vec(flat@, columns as int, k2)[q], flags@.take(ck)]
            0 <= ck < columns && flags@[ck] && k2 == count_true(flags@.take(ck)) && 0 <= q < ck
                && flags@[q] implies (basis_vec(flat@, columns as int, k2)[q]).is_zero() by {
            lemma_count_true_at(flags@, ck);
            assert(basis_vec(flat@, columns as int, k2) =~= rowm(basis@[k2]@));
            assert(basis_vec(flat@, columns as int, k2)[q] == entry(basis@, k2, q));
            assert(entry(basis@, k2, q).is_zero());
        }
        assert((matrix@.len() as int) / (columns as int) == nrows) by (nonlinear_arith)
            requires
                columns > 0,
                nrows * columns == matrix@.len(),
        ;
        assert(flags@.take(columns as int) =~= flags@);
        assert(columns - count_true(flags@) == pr);
        // any two solutions agreeing on the free columns agree everywhere
        lemma_solutions_determined(m@, flags@, pivots, orig, columns as int, pr as int);
        assert forall|v: Seq<Frac>, w: Seq<Frac>| #[trigger] solutions_determined(
            rows_of(rowm(matrix@), columns as int),
            flags@,
            v,
            w,
        ) by {
            assert(solutions_determined(orig, flags@, v, w));
        }
    }
    (flags, flat)
}

} // verus!
