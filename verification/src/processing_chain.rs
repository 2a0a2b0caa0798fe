//! Setups and processing chains: machine populations running recipes,
//! aggregated flows, and the equilibrium speed derivation.

use vstd::prelude::*;

use crate::frac::{
    f_int, fadd, fdiv, feq, flt, fmul, fone, fzero, lemma_fadd_congr, lemma_fadd_wf,
    lemma_fdiv_congr, lemma_fdiv_wf, lemma_feq_trans, lemma_fmul_congr, lemma_fmul_wf, Frac,
};
use crate::machine::{abs_int, ClockedMachines, MachinePowerError, Machines, Voltage};
use crate::fracseq::fdot;
use crate::nullspace::{basis_vec, count_true, in_nullspace, nullspace, row_wf, rowm, rows_of};
use crate::rational::Rat;
use crate::recipe::{list_has, Product, Recipe};

verus! {

/// A per-setup priority weight; the default weight is one, and weight
/// zero disables the setup's contribution.
#[derive(Clone, Copy, Debug, PartialEq, Eq, Structural)]
pub struct Weight(pub u64);

impl Default for Weight {
    fn default() -> (r: Weight)
        ensures
            r.0 == 1,
    {
        Weight(1)
    }
}

/// One recipe together with the machine population processing it and a
/// priority weight.
#[derive(Clone, Debug)]
pub struct Setup {
    pub recipe: Recipe,
    pub machines: Machines,
    pub weight: Weight,
}

impl Setup {
    pub open spec fn wf(self) -> bool {
        self.recipe.wf() && self.machines.wf()
    }

    /// The speed at which this setup runs its recipe, or `None` when the
    /// machine kind does not match the recipe's power requirement.
    pub open spec fn speed_spec(self) -> Option<Frac> {
        if self.recipe.eu_per_tick == 0 {
            match self.machines {
                Machines::Eco(n) => Some(f_int(n as int)),
                Machines::Power(_) => None,
            }
        } else {
            match self.machines {
                Machines::Power(cms) => Some(
                    ClockedMachines::speed_spec(
                        cms.machines@,
                        Voltage::from_eu_spec(abs_int(self.recipe.eu_per_tick as int)),
                    ),
                ),
                Machines::Eco(_) => None,
            }
        }
    }

    /// The per-second flow of a good through this setup: the recipe's net
    /// per-cycle quantity over the cycle duration, scaled by the setup
    /// speed; zero flow when the machine kind mismatches.
    pub open spec fn rate_spec(self, name: Seq<char>) -> Frac {
        match self.speed_spec() {
            Some(sp) => fmul(
                fdiv(f_int(self.recipe.net_count(name)), self.recipe.seconds_spec()),
                sp,
            ),
            None => fzero(),
        }
    }

    /// The energy this setup draws per tick, or zero on a mismatch.
    pub open spec fn eu_spec(self) -> Frac {
        if self.recipe.eu_per_tick == 0 {
            fzero()
        } else {
            match self.machines {
                Machines::Power(cms) => f_int(
                    ClockedMachines::eu_spec(cms.machines@, self.recipe.eu_per_tick as int),
                ),
                Machines::Eco(_) => fzero(),
            }
        }
    }

    /// How fast this setup processes its recipe; a mismatch between the
    /// machine kind and the recipe's power requirement is an error.
    pub fn speed_factor(&self) -> (r: Result<Rat, MachinePowerError>)
        requires
            self.wf(),
        ensures
            match r {
                Ok(v) => self.speed_spec() matches Some(s) && v@.wf() && feq(v@, s),
                Err(e) => self.speed_spec() is None && e == (if self.recipe.eu_per_tick == 0 {
                    MachinePowerError::RequiresEco
                } else {
                    MachinePowerError::RequiresPower
                }),
            },
    {
        self.machines.speed_factor(self.recipe.voltage())
    }

    /// The per-second flow of one good through this setup; zero on a
    /// power mismatch.
    pub fn rate_of(&self, product: &Product) -> (r: Rat)
        requires
            self.wf(),
        ensures
            r@.wf(),
            feq(r@, self.rate_spec(product.name@)),
    {
        match self.speed_factor() {
            Err(_) => Rat::zero(),
            Ok(sp) => {
                let net = self.recipe.net_count_of(product);
                let secs = self.recipe.seconds();
                let per_sec = net.div(&secs);
                let r = per_sec.mul(&sp);
                proof {
                    let nf = f_int(self.recipe.net_count(product.name@));
                    let sf = self.recipe.seconds_spec();
                    let spv = self.speed_spec()->Some_0;
                    match &self.machines {
                        Machines::Power(cms) => {
                            if self.recipe.eu_per_tick != 0 {
                                crate::machine::lemma_speed_spec_wf(
                                    cms.machines@,
                                    Voltage::from_eu_spec(
                                        abs_int(self.recipe.eu_per_tick as int),
                                    ),
                                );
                            }
                        },
                        Machines::Eco(_) => {},
                    }
                    assert(spv.wf());
                    lemma_fdiv_congr(net@, secs@, nf, sf);
                    lemma_fdiv_wf(net@, secs@);
                    lemma_fdiv_wf(nf, sf);
                    lemma_feq_trans(per_sec@, fdiv(net@, secs@), fdiv(nf, sf));
                    lemma_fmul_congr(per_sec@, sp@, fdiv(nf, sf), spv);
                    lemma_fmul_wf(per_sec@, sp@);
                    lemma_fmul_wf(fdiv(nf, sf), spv);
                    lemma_feq_trans(r@, fmul(per_sec@, sp@), fmul(fdiv(nf, sf), spv));
                }
                r
            },
        }
    }

    /// The energy this setup draws per tick; zero on a power mismatch.
    pub fn eu_per_tick(&self) -> (r: Rat)
        requires
            self.wf(),
        ensures
            r@.wf(),
            feq(r@, self.eu_spec()),
    {
        match self.machines.eu_per_tick(self.recipe.eu_per_tick) {
            Ok(v) => v,
            Err(_) => Rat::zero(),
        }
    }

    /// The per-second flow of every good the recipe touches, each good
    /// once; empty on a power mismatch.
    pub fn products_per_sec(&self) -> (r: Vec<(Product, Rat)>)
        requires
            self.wf(),
        ensures
            self.speed_spec() is None ==> r@.len() == 0,
            forall|i: int, j: int|
                0 <= i < j < r@.len() ==> (#[trigger] r@[i]).0.name@ != (#[trigger] r@[j]).0.name@,
            forall|i: int|
                0 <= i < r@.len() ==> (#[trigger] r@[i]).1@.wf() && feq(
                    r@[i].1@,
                    self.rate_spec(r@[i].0.name@),
                ),
            self.speed_spec() is Some ==> rates_cover(self.recipe, r@),
    {
        let mut out: Vec<(Product, Rat)> = Vec::new();
        match self.speed_factor() {
            Err(_) => out,
            Ok(_) => {
                let all = self.recipe.products();
                let goods = dedup_products(&all);
                let n = goods.len();
                let mut i: usize = 0;
                while i < n
                    invariant
                        self.wf(),
                        n == goods@.len(),
                        0 <= i <= n,
                        out@.len() == i,
                        forall|a: int, b: int|
                            0 <= a < b < goods@.len() ==> (#[trigger] goods@[a]).name@ != (
                            #[trigger] goods@[b]).name@,
                        forall|j: int|
                            0 <= j < i ==> (#[trigger] out@[j]).0.name@ == goods@[j].name@,
                        forall|j: int|
                            0 <= j < i ==> (#[trigger] out@[j]).1@.wf() && feq(
                                out@[j].1@,
                                self.rate_spec(out@[j].0.name@),
                            ),
                    decreases n - i,
                {
                    let rate = self.rate_of(&goods[i]);
                    out.push((goods[i].duplicate(), rate));
                    i = i + 1;
                }
                proof {
                    assert forall|a: int, b: int|
                        0 <= a < b < out@.len() implies (#[trigger] out@[a]).0.name@ != (
                    #[trigger] out@[b]).0.name@ by {
                        assert(goods@[a].name@ != goods@[b].name@);
                    }
                    let nc = self.recipe.consumed@.len() as int;
                    assert forall|name: Seq<char>|
                        #![trigger list_has(self.recipe.consumed@, name)]
                        #![trigger list_has(self.recipe.produced@, name)]
                        (list_has(self.recipe.consumed@, name) || list_has(
                            self.recipe.produced@,
                            name,
                        )) implies pair_has_name(out@, name) by {
                        let ai: int = if list_has(self.recipe.consumed@, name) {
                            choose|x: int|
                                0 <= x < self.recipe.consumed@.len() && (
                                #[trigger] self.recipe.consumed@[x]).product.name@ == name
                        } else {
                            nc + choose|x: int|
                                0 <= x < self.recipe.produced@.len() && (
                                #[trigger] self.recipe.produced@[x]).product.name@ == name
                        };
                        assert(all@[ai].name@ == name);
                        assert(has_name(goods@, all@[ai].name@));
                        let j0 = choose|j: int|
                            0 <= j < goods@.len() && (#[trigger] goods@[j]).name@ == all@[
                            ai].name@;
                        assert(out@[j0].0.name@ == name);
                    }
                    assert forall|name: Seq<char>|
                        #[trigger] pair_has_name(out@, name) implies (list_has(
                        self.recipe.consumed@,
                        name,
                    ) || list_has(self.recipe.produced@, name)) by {
                        let t0 = choose|t: int|
                            0 <= t < out@.len() && (#[trigger] out@[t]).0.name@ == name;
                        assert(goods@[t0].name@ == name);
                        assert(has_name(all@, goods@[t0].name@));
                        let a0 = choose|a: int|
                            0 <= a < all@.len() && (#[trigger] all@[a]).name@ == goods@[t0].name@;
                        if a0 < nc {
                            assert(self.recipe.consumed@[a0].product.name@ == name);
                        } else {
                            assert(all@[nc + (a0 - nc)].name@ == self.recipe.produced@[a0
                                - nc].product.name@);
                            assert(self.recipe.produced@[a0 - nc].product.name@ == name);
                        }
                    }
                    assert(rates_cover(self.recipe, out@));
                }
                out
            },
        }
    }
}

/// Whether some product in the list has the name.
pub open spec fn has_name(out: Seq<Product>, name: Seq<char>) -> bool {
    exists|j: int| 0 <= j < out.len() && (#[trigger] out[j]).name@ == name
}

/// Whether some keyed pair in the list has the name.
pub open spec fn pair_has_name(out: Seq<(Product, Rat)>, name: Seq<char>) -> bool {
    exists|j: int| 0 <= j < out.len() && (#[trigger] out[j]).0.name@ == name
}

/// The rate list names exactly the goods the recipe touches.
pub open spec fn rates_cover(recipe: Recipe, out: Seq<(Product, Rat)>) -> bool {
    &&& forall|name: Seq<char>|
        #![trigger list_has(recipe.consumed@, name)]
        #![trigger list_has(recipe.produced@, name)]
        (list_has(recipe.consumed@, name) || list_has(recipe.produced@, name)) ==> pair_has_name(
            out,
            name,
        )
    &&& forall|name: Seq<char>|
        #[trigger] pair_has_name(out, name) ==> (list_has(recipe.consumed@, name) || list_has(
            recipe.produced@,
            name,
        ))
}

/// Pairwise distinct good names.
pub open spec fn names_distinct(out: Seq<Product>) -> bool {
    forall|i: int, j: int|
        0 <= i < j < out.len() ==> (#[trigger] out[i]).name@ != (#[trigger] out[j]).name@
}

/// Every name of `list` occurs in `out`.
pub open spec fn names_cover(list: Seq<Product>, out: Seq<Product>) -> bool {
    forall|i: int| 0 <= i < list.len() ==> has_name(out, (#[trigger] list[i]).name@)
}

/// Every name of `out` comes from `list`.
pub open spec fn names_from(list: Seq<Product>, out: Seq<Product>) -> bool {
    forall|j: int| 0 <= j < out.len() ==> has_name(list, (#[trigger] out[j]).name@)
}

/// Keeps the first occurrence of each distinct good name.
pub fn dedup_products(list: &Vec<Product>) -> (r: Vec<Product>)
    ensures
        names_distinct(r@),
        names_cover(list@, r@),
        names_from(list@, r@),
{
    let n = list.len();
    let mut out: Vec<Product> = Vec::new();
    let mut i: usize = 0;
    while i < n
        invariant
            n == list@.len(),
            0 <= i <= n,
            names_distinct(out@),
            names_cover(list@.take(i as int), out@),
            names_from(list@, out@),
        decreases n - i,
    {
        proof {
            assert(forall|a: int|
                0 <= a < i ==> (#[trigger] list@.take(i as int)[a]) == list@[a]);
        }
        let mut seen = false;
        let m = out.len();
        let mut j: usize = 0;
        while j < m && !seen
            invariant
                m == out@.len(),
                0 <= j <= m,
                n == list@.len(),
                i < n,
                seen ==> exists|t: int|
                    0 <= t < out@.len() && (#[trigger] out@[t]).name@ == list@[i as int].name@,
                !seen ==> forall|t: int|
                    0 <= t < j ==> (#[trigger] out@[t]).name@ != list@[i as int].name@,
            decreases m - j + (if seen {
                0int
            } else {
                1int
            }),
        {
            if out[j].same(&list[i]) {
                seen = true;
            } else {
                j = j + 1;
            }
        }
        let ghost out0 = out@;
        if !seen {
            out.push(list[i].duplicate());
        }
        proof {
            let pre = list@.take(i as int);
            let pre2 = list@.take(i as int + 1);
            assert(forall|a: int| 0 <= a < i + 1 ==> (#[trigger] pre2[a]) == list@[a]);
            assert(forall|a: int| 0 <= a < i ==> (#[trigger] pre[a]) == list@[a]);
            assert forall|a: int| 0 <= a < pre2.len() implies has_name(
                out@,
                (#[trigger] pre2[a]).name@,
            ) by {
                if a < i {
                    assert(has_name(out0, pre[a].name@));
                    let j0 = choose|j: int|
                        0 <= j < out0.len() && (#[trigger] out0[j]).name@ == pre[a].name@;
                    assert(out@[j0].name@ == pre2[a].name@);
                } else {
                    if seen {
                        let t0 = choose|t: int|
                            0 <= t < out0.len() && (#[trigger] out0[t]).name@ == list@[
                            i as int].name@;
                        assert(out@[t0].name@ == pre2[a].name@);
                    } else {
                        assert(out@[out@.len() - 1].name@ == pre2[a].name@);
                    }
                }
            }
            assert(names_cover(pre2, out@));
            assert forall|j: int| 0 <= j < out@.len() implies has_name(
                list@,
                (#[trigger] out@[j]).name@,
            ) by {
                if j < out0.len() {
                    assert(has_name(list@, out0[j].name@));
                    assert(out@[j].name@ == out0[j].name@);
                } else {
                    assert(list@[i as int].name@ == out@[j].name@);
                }
            }
            assert(names_from(list@, out@));
        }
        i = i + 1;
    }
    proof {
        assert(list@.take(n as int) =~= list@);
    }
    out
}

/// Every setup in the sequence is well-formed.
pub open spec fn setups_wf(setups: Seq<Setup>) -> bool {
    forall|i: int| 0 <= i < setups.len() ==> (#[trigger] setups[i]).wf()
}

/// The per-second flows of one good across all setups, as a row vector.
pub open spec fn chain_row(setups: Seq<Setup>, name: Seq<char>) -> Seq<Frac> {
    Seq::new(setups.len(), |i: int| setups[i].rate_spec(name))
}

/// Whether a setup's recipe consumes or produces the good.
pub open spec fn setup_touches(s: Setup, name: Seq<char>) -> bool {
    list_has(s.recipe.consumed@, name) || list_has(s.recipe.produced@, name)
}

/// Whether any setup's recipe touches the good.
pub open spec fn chain_touches(setups: Seq<Setup>, name: Seq<char>) -> bool {
    exists|i: int| 0 <= i < setups.len() && #[trigger] setup_touches(setups[i], name)
}

/// Whether a setup among the first `t` touches the good.
pub open spec fn touched_by_prefix(setups: Seq<Setup>, t: int, name: Seq<char>) -> bool {
    exists|i: int| 0 <= i < t && i < setups.len() && #[trigger] setup_touches(setups[i], name)
}

/// Whether some setup's recipe lists the good as produced.
pub open spec fn someone_produces(setups: Seq<Setup>, name: Seq<char>) -> bool {
    exists|i: int| 0 <= i < setups.len() && list_has((#[trigger] setups[i]).recipe.produced@, name)
}

/// Whether some setup's recipe lists the good as consumed.
pub open spec fn someone_consumes(setups: Seq<Setup>, name: Seq<char>) -> bool {
    exists|i: int| 0 <= i < setups.len() && list_has((#[trigger] setups[i]).recipe.consumed@, name)
}

/// A good is implicit when it is produced and consumed inside the chain
/// and not declared an explicit input or output; such goods must balance.
pub open spec fn implicit_good(setups: Seq<Setup>, explicit: Seq<Product>, name: Seq<char>) -> bool {
    someone_produces(setups, name) && someone_consumes(setups, name) && !has_name(explicit, name)
}

/// The total flow of one good over a chain prefix, at given speeds.
pub open spec fn flow_spec(setups: Seq<Setup>, sp: Seq<Frac>, name: Seq<char>) -> Frac
    decreases setups.len(),
{
    if setups.len() == 0 {
        fzero()
    } else {
        fadd(
            flow_spec(setups.drop_last(), sp.drop_last(), name),
            fmul(setups.last().rate_spec(name), sp[setups.len() - 1]),
        )
    }
}

/// The total energy draw over a chain prefix, at given speeds.
pub open spec fn eu_flow_spec(setups: Seq<Setup>, sp: Seq<Frac>) -> Frac
    decreases setups.len(),
{
    if setups.len() == 0 {
        fzero()
    } else {
        fadd(
            eu_flow_spec(setups.drop_last(), sp.drop_last()),
            fmul(setups.last().eu_spec(), sp[setups.len() - 1]),
        )
    }
}

/// The nullspace description of a chain: for each setup, whether its
/// column was free, and the nullspace basis vectors, flat row-major.
#[derive(Debug)]
pub struct Speeds {
    /// For each setup, whether its speed is a free parameter that the
    /// weighting then fixes.
    pub weighted_setups: Vec<bool>,
    /// The basis vectors, one per free setup, each as long as the chain.
    pub speeds: Vec<Rat>,
}

/// What the cached or returned `Speeds` says about a chain: each basis
/// vector balances every implicit good, and the basis has unit-vector
/// structure over the free columns.
pub open spec fn speeds_ok(setups: Seq<Setup>, explicit: Seq<Product>, s: Speeds) -> bool {
    let n = setups.len() as int;
    let nb = count_true(s.weighted_setups@);
    &&& s.weighted_setups@.len() == n
    &&& s.speeds@.len() == nb * n
    &&& row_wf(s.speeds@)
    &&& forall|k: int, name: Seq<char>|
        0 <= k < nb && #[trigger] implicit_good(setups, explicit, name) ==> feq(
            fdot(chain_row(setups, name), #[trigger] basis_vec(s.speeds@, n, k)),
            fzero(),
        )
    &&& forall|ck: int, k: int|
        0 <= ck < n && s.weighted_setups@[ck] && k == count_true(s.weighted_setups@.take(ck))
            ==> feq(#[trigger] basis_vec(s.speeds@, n, k)[ck], fone())
    &&& forall|ck: int, k: int, q: int|
        #![trigger basis_vec(s.speeds@, n, k)[q], s.weighted_setups@.take(ck)]
        0 <= ck < n && s.weighted_setups@[ck] && k == count_true(s.weighted_setups@.take(ck)) && ck
            < q < n ==> (basis_vec(s.speeds@, n, k)[q]).is_zero()
    &&& forall|ck: int, k: int, q: int|
        #![trigger basis_vec(s.speeds@, n, k)[q], s.weighted_setups@.take(ck)]
        0 <= ck < n && s.weighted_setups@[ck] && k == count_true(s.weighted_setups@.take(ck)) && 0
            <= q < ck && s.weighted_setups@[q] ==> (basis_vec(s.speeds@, n, k)[q]).is_zero()
    &&& (forall|name: Seq<char>| !(#[trigger] implicit_good(setups, explicit, name))) ==> nb == n
    &&& pivots_bounded(setups, explicit, s.weighted_setups@)
    &&& forall|v: Seq<Frac>, w: Seq<Frac>| #[trigger] balanced_determined(
        setups,
        explicit,
        s.weighted_setups@,
        v,
        w,
    )
}

/// Balancing speed assignments are determined by the free setups: two
/// well-formed assignments that both net every implicit good to zero and
/// agree on every free setup agree on every setup. This is the spanning
/// half of the solver's correctness, lifted to the chain: the basis
/// vectors, one per free setup, reach every balancing assignment.
pub open spec fn balanced_determined(
    setups: Seq<Setup>,
    explicit: Seq<Product>,
    flags: Seq<bool>,
    v: Seq<Frac>,
    w: Seq<Frac>,
) -> bool {
    (v.len() == setups.len() && w.len() == setups.len() && flags.len() == setups.len()
        && crate::fracseq::seq_wf(v) && crate::fracseq::seq_wf(w) && (forall|name: Seq<char>|
        #[trigger] implicit_good(setups, explicit, name) ==> feq(
            fdot(chain_row(setups, name), v),
            fzero(),
        )) && (forall|name: Seq<char>|
        #[trigger] implicit_good(setups, explicit, name) ==> feq(
            fdot(chain_row(setups, name), w),
            fzero(),
        )) && (forall|c: int|
        0 <= c < flags.len() && flags[c] ==> feq(#[trigger] v[c], #[trigger] w[c]))) ==> (forall|
        c: int,
    |
        0 <= c < setups.len() ==> feq(#[trigger] v[c], #[trigger] w[c]))
}

/// Elimination pivots one column per balance row, so the number of
/// pivoted setups is at most the number of distinct implicit goods; in
/// particular, with fewer implicit goods than setups some free setup and
/// its basis vector must exist. This is the lower bound that rules out a
/// result which pivots everything and returns no basis at all.
pub open spec fn pivots_bounded(setups: Seq<Setup>, explicit: Seq<Product>, flags: Seq<bool>) -> bool {
    exists|gs: Seq<Seq<char>>|
        #![trigger gs.len()]
        (forall|a: int, b: int| 0 <= a < b < gs.len() ==> #[trigger] gs[a] != #[trigger] gs[b]) && (
        forall|i: int| 0 <= i < gs.len() ==> implicit_good(setups, explicit, #[trigger] gs[i]))
            && setups.len() - count_true(flags) <= gs.len()
}

/// Computes the nullspace description of a chain: one balance row per
/// implicit good, solved by elimination.
fn compute_speeds(setups: &Vec<Setup>, explicit: &Vec<Product>) -> (s: Speeds)
    requires
        setups_wf(setups@),
    ensures
        speeds_ok(setups@, explicit@, s),
{
    let n = setups.len();
    let ghost sq = setups@;
    // gather the distinct goods any setup touches
    let all = chain_products(setups);
    // keep the goods that are produced and consumed and not explicit
    let mut goods: Vec<Product> = Vec::new();
    let gn = all.len();
    let mut g: usize = 0;
    while g < gn
        invariant
            setups_wf(setups@),
            gn == all@.len(),
            names_distinct(all@),
            0 <= g <= gn,
            forall|j: int|
                0 <= j < goods@.len() ==> implicit_good(
                    setups@,
                    explicit@,
                    (#[trigger] goods@[j]).name@,
                ),
            forall|name: Seq<char>|
                #[trigger] implicit_good(setups@, explicit@, name) && has_name_pre(all@, g as int, name)
                    ==> has_name(goods@, name),
            names_distinct(goods@),
            forall|j: int|
                0 <= j < goods@.len() ==> has_name_pre(
                    all@,
                    g as int,
                    (#[trigger] goods@[j]).name@,
                ),
        decreases gn - g,
    {
        let ghost goods0 = goods@;
        let produced = chain_produces(setups, &all[g]);
        let consumed = chain_consumes(setups, &all[g]);
        let listed = contains_name(explicit, &all[g]);
        if produced && consumed && !listed {
            goods.push(all[g].duplicate());
        }
        proof {
            assert forall|name: Seq<char>|
                #[trigger] implicit_good(setups@, explicit@, name) && has_name_pre(
                    all@,
                    g as int + 1,
                    name,
                ) implies has_name(goods@, name) by {
                if has_name_pre(all@, g as int, name) {
                    assert(has_name(goods0, name));
                    let x0 = choose|x: int|
                        0 <= x < goods0.len() && (#[trigger] goods0[x]).name@ == name;
                    assert(goods@[x0].name@ == name);
                } else {
                    assert(all@[g as int].name@ == name);
                    assert(goods@[goods@.len() - 1].name@ == name);
                }
            }
            assert forall|a: int, b: int|
                0 <= a < b < goods@.len() implies (#[trigger] goods@[a]).name@ != (
            #[trigger] goods@[b]).name@ by {
                if b < goods0.len() {
                    assert(goods0[a].name@ != goods0[b].name@);
                } else {
                    assert(has_name_pre(all@, g as int, goods0[a].name@));
                    let x0 = choose|x: int|
                        0 <= x < g && x < all@.len() && (#[trigger] all@[x]).name@ == goods0[
                        a].name@;
                    assert(all@[x0].name@ != all@[g as int].name@);
                    assert(goods@[b].name@ == all@[g as int].name@);
                }
            }
            assert forall|j: int| 0 <= j < goods@.len() implies has_name_pre(
                all@,
                g as int + 1,
                (#[trigger] goods@[j]).name@,
            ) by {
                if j < goods0.len() {
                    assert(has_name_pre(all@, g as int, goods0[j].name@));
                    let x0 = choose|x: int|
                        0 <= x < g && x < all@.len() && (#[trigger] all@[x]).name@ == goods0[
                        j].name@;
                    assert(0 <= x0 < g + 1 && x0 < all@.len() && all@[x0].name@ == goods@[
                    j].name@);
                } else {
                    assert(0 <= g < g + 1 && (g as int) < all@.len() && all@[g as int].name@
                        == goods@[j].name@);
                }
            }
        }
        g = g + 1;
    }
    // build the balance matrix, one row per implicit good
    let rows = goods.len();
    let mut matrix: Vec<Rat> = Vec::new();
    let mut r: usize = 0;
    while r < rows
        invariant
            setups_wf(setups@),
            n == setups@.len(),
            rows == goods@.len(),
            0 <= r <= rows,
            matrix@.len() == r * n,
            row_wf(matrix@),
            forall|j: int|
                0 <= j < goods@.len() ==> implicit_good(
                    setups@,
                    explicit@,
                    (#[trigger] goods@[j]).name@,
                ),
            forall|name: Seq<char>|
                #[trigger] implicit_good(setups@, explicit@, name) && has_name_pre(
                    all@,
                    all@.len() as int,
                    name,
                ) ==> has_name(goods@, name),
            forall|rr: int, i: int|
                0 <= rr < r && 0 <= i < n ==> feq(
                    #[trigger] matrix@[rr * n + i]@,
                    setups@[i].rate_spec(goods@[rr].name@),
                ),
            forall|i: int, name: Seq<char>|
                0 <= i < setups@.len() && #[trigger] setup_touches(setups@[i], name) ==> has_name(
                    all@,
                    name,
                ),
        decreases rows - r,
    {
        let mut i: usize = 0;
        while i < n
            invariant
                setups_wf(setups@),
                n == setups@.len(),
                rows == goods@.len(),
                r < rows,
                0 <= i <= n,
                matrix@.len() == r * n + i,
                row_wf(matrix@),
                forall|rr: int, q: int|
                    0 <= rr < r && 0 <= q < n ==> feq(
                        #[trigger] matrix@[rr * n + q]@,
                        setups@[q].rate_spec(goods@[rr].name@),
                    ),
                forall|q: int|
                    0 <= q < i ==> feq(
                        #[trigger] matrix@[r * n + q]@,
                        setups@[q].rate_spec(goods@[r as int].name@),
                    ),
            decreases n - i,
        {
            proof {
                crate::nullspace::lemma_flat_index_bound(r as int, i as int, rows as int, n as int);
            }
            let rate = setups[i].rate_of(&goods[r]);
            matrix.push(rate);
            proof {
                assert forall|rr: int, q: int|
                    0 <= rr < r && 0 <= q < n implies feq(
                    #[trigger] matrix@[rr * n + q]@,
                    setups@[q].rate_spec(goods@[rr].name@),
                ) by {
                    crate::nullspace::lemma_flat_index_bound(rr, q, r as int, n as int);
                }
            }
            i = i + 1;
        }
        proof {
            assert(r * n + n == (r + 1) * n) by (nonlinear_arith);
        }
        r = r + 1;
    }
    proof {
        assert(matrix@.len() == rows * n);
        if n == 0 {
            assert(rows * 0 == 0) by (nonlinear_arith);
        } else {
            assert((rows * n) % (n as int) == 0) by (nonlinear_arith)
                requires
                    n > 0,
            ;
        }
    }
    proof {
        if n == 0 {
            if rows > 0 {
                assert(implicit_good(setups@, explicit@, goods@[0].name@));
                assert(someone_produces(setups@, goods@[0].name@));
                let i0 = choose|i: int|
                    0 <= i < setups@.len() && list_has(
                        (#[trigger] setups@[i]).recipe.produced@,
                        goods@[0].name@,
                    );
                assert(false);
            }
            assert(matrix@.len() == 0);
        }
    }
    let ghost mflat = matrix@;
    let (flags, basis) = nullspace(matrix, n);
    let s = Speeds { weighted_setups: flags, speeds: basis };
    proof {
        let nb = count_true(s.weighted_setups@);
        let nn = n as int;
        // every implicit good's row is one of the matrix rows, so every
        // basis vector balances it
        assert forall|k: int, name: Seq<char>|
            0 <= k < nb && #[trigger] implicit_good(setups@, explicit@, name) implies feq(
            fdot(chain_row(setups@, name), #[trigger] basis_vec(s.speeds@, nn, k)),
            fzero(),
        ) by {
            // the good appears in the deduplicated list
            assert(someone_produces(setups@, name));
            let ip = choose|i: int|
                0 <= i < setups@.len() && list_has((#[trigger] setups@[i]).recipe.produced@, name);
            assert(setup_touches(setups@[ip], name));
            assert(has_name(all@, name));
            assert(has_name_pre(all@, all@.len() as int, name)) by {
                let x0 = choose|x: int| 0 <= x < all@.len() && (#[trigger] all@[x]).name@ == name;
                assert(all@[x0].name@ == name);
            }
            assert(has_name(goods@, name));
            let rr = choose|x: int| 0 <= x < goods@.len() && (#[trigger] goods@[x]).name@ == name;
            // the matrix row rr denotes the chain row of the good
            let mrow = rows_of(rowm(mflat), nn)[rr];
            assert(n > 0) by {
                assert(0 <= ip < setups@.len());
            }
            assert(mflat.len() == rows * n);
            vstd::arithmetic::div_mod::lemma_div_by_multiple(rows as int, nn);
            assert((rows as int) * nn == rows * n) by (nonlinear_arith)
                requires
                    nn == n as int,
            ;
            assert((mflat.len() as int) / nn == rows);
            assert(rowm(mflat).len() == mflat.len());
            assert(rows_of(rowm(mflat), nn).len() == rows);
            assert(0 <= rr * nn && rr * nn + nn <= rows * nn) by (nonlinear_arith)
                requires
                    0 <= rr < rows,
                    nn > 0,
            ;
            assert(in_nullspace(rows_of(rowm(mflat), nn), basis_vec(s.speeds@, nn, k)));
            assert(crate::nullspace::row_kills(mrow, basis_vec(s.speeds@, nn, k)));
            assert(mrow =~= rowm(mflat).subrange(rr * nn, rr * nn + nn));
            assert(mrow.len() == nn);
            assert forall|q: int| 0 <= q < nn implies feq(
                #[trigger] mrow[q],
                chain_row(setups@, name)[q],
            ) by {
                crate::nullspace::lemma_flat_index_bound(rr, q, rows as int, nn);
                assert(mrow[q] == rowm(mflat)[rr * nn + q]);
                assert(rowm(mflat)[rr * nn + q] == mflat[rr * nn + q]@);
                assert(feq(mflat[rr * nn + q]@, setups@[q].rate_spec(goods@[rr].name@)));
            }
            // transfer the zero dot product across pointwise equality
            assert(crate::fracseq::seq_wf(mrow)) by {
                assert forall|q: int| 0 <= q < mrow.len() implies (#[trigger] mrow[q]).wf() by {
                    crate::nullspace::lemma_flat_index_bound(rr, q, rows as int, nn);
                    assert(mrow[q] == mflat[rr * nn + q]@);
                }
            }
            assert(crate::fracseq::seq_wf(chain_row(setups@, name))) by {
                assert forall|q: int|
                    0 <= q < chain_row(setups@, name).len() implies (#[trigger] chain_row(
                    setups@,
                    name,
                )[q]).wf() by {
                    lemma_rate_spec_wf(setups@[q], name);
                }
            }
            assert(s.speeds@.len() == nb * nn) by {
                assert(nb * n == nb * nn) by (nonlinear_arith)
                    requires
                        nn == n as int,
                ;
            }
            assert(0 <= k * nn && k * nn + nn <= nb * nn) by (nonlinear_arith)
                requires
                    0 <= k < nb,
                    nn > 0,
            ;
            assert(basis_vec(s.speeds@, nn, k).len() == nn);
            assert(crate::fracseq::seq_wf(basis_vec(s.speeds@, nn, k))) by {
                assert forall|q: int|
                    0 <= q < nn implies (#[trigger] basis_vec(s.speeds@, nn, k)[q]).wf() by {
                    crate::nullspace::lemma_flat_index_bound(k, q, nb, nn);
                    assert(basis_vec(s.speeds@, nn, k)[q] == s.speeds@[k * nn + q]@);
                }
            }
            crate::fracseq::lemma_fdot_congr(
                mrow,
                basis_vec(s.speeds@, nn, k),
                chain_row(setups@, name),
            );
            crate::frac::lemma_feq_sym(
                fdot(mrow, basis_vec(s.speeds@, nn, k)),
                fdot(chain_row(setups@, name), basis_vec(s.speeds@, nn, k)),
            );
            crate::fracseq::lemma_fdot_wf(chain_row(setups@, name), basis_vec(s.speeds@, nn, k));
            crate::fracseq::lemma_fdot_wf(mrow, basis_vec(s.speeds@, nn, k));
            crate::frac::lemma_feq_trans(
                fdot(chain_row(setups@, name), basis_vec(s.speeds@, nn, k)),
                fdot(mrow, basis_vec(s.speeds@, nn, k)),
                fzero(),
            );
        }
        // the pivot count is bounded by the number of balance rows, and
        // the rows list distinct implicit goods
        assert(pivots_bounded(setups@, explicit@, s.weighted_setups@)) by {
            let gs = Seq::new(goods@.len(), |j: int| goods@[j].name@);
            assert forall|a: int, b: int|
                0 <= a < b < gs.len() implies #[trigger] gs[a] != #[trigger] gs[b] by {
                assert(gs[a] == goods@[a].name@ && gs[b] == goods@[b].name@);
                assert(goods@[a].name@ != goods@[b].name@);
            }
            assert forall|i: int| 0 <= i < gs.len() implies implicit_good(
                setups@,
                explicit@,
                #[trigger] gs[i],
            ) by {
                assert(gs[i] == goods@[i].name@);
            }
            if n > 0 {
                vstd::arithmetic::div_mod::lemma_div_by_multiple(rows as int, n as int);
                assert((rows as int) * (n as int) == rows * n) by (nonlinear_arith);
                assert((mflat.len() as int) / (n as int) == rows);
                assert((mflat.len() as int) / (if n == 0 {
                    1int
                } else {
                    n as int
                }) == rows);
                assert(n - count_true(s.weighted_setups@) <= rows);
                assert(gs.len() == rows);
            } else {
                crate::nullspace::lemma_count_true_bounds(s.weighted_setups@);
            }
        }
        // spanning: any two balancing assignments that agree on the free
        // setups agree everywhere, because every implicit good has a row
        // in the solved matrix
        assert forall|v: Seq<Frac>, w: Seq<Frac>| #[trigger] balanced_determined(
            setups@,
            explicit@,
            s.weighted_setups@,
            v,
            w,
        ) by {
            let fl = s.weighted_setups@;
            if v.len() == setups@.len() && w.len() == setups@.len() && fl.len() == setups@.len()
                && crate::fracseq::seq_wf(v) && crate::fracseq::seq_wf(w) && (forall|
                name: Seq<char>,
            |
                #[trigger] implicit_good(setups@, explicit@, name) ==> feq(
                    fdot(chain_row(setups@, name), v),
                    fzero(),
                )) && (forall|name: Seq<char>|
                #[trigger] implicit_good(setups@, explicit@, name) ==> feq(
                    fdot(chain_row(setups@, name), w),
                    fzero(),
                )) && (forall|c: int|
                0 <= c < fl.len() && fl[c] ==> feq(#[trigger] v[c], #[trigger] w[c])) {
                if n > 0 {
                    vstd::arithmetic::div_mod::lemma_div_by_multiple(rows as int, nn);
                    assert((rows as int) * nn == rows * n) by (nonlinear_arith)
                        requires
                            nn == n as int,
                    ;
                    assert((mflat.len() as int) / nn == rows);
                    assert(rowm(mflat).len() == mflat.len());
                    assert(rows_of(rowm(mflat), nn).len() == rows);
                    assert forall|i: int|
                        0 <= i < rows_of(rowm(mflat), nn).len() implies crate::nullspace::row_kills(
                        #[trigger] rows_of(rowm(mflat), nn)[i],
                        v,
                    ) && crate::nullspace::row_kills(rows_of(rowm(mflat), nn)[i], w) by {
                        let name = goods@[i].name@;
                        let mrow = rows_of(rowm(mflat), nn)[i];
                        assert(0 <= i * nn && i * nn + nn <= rows * nn) by (nonlinear_arith)
                            requires
                                0 <= i < rows,
                                nn > 0,
                        ;
                        assert(mrow =~= rowm(mflat).subrange(i * nn, i * nn + nn));
                        assert(mrow.len() == nn);
                        assert forall|q: int| 0 <= q < nn implies feq(
                            #[trigger] mrow[q],
                            chain_row(setups@, name)[q],
                        ) by {
                            crate::nullspace::lemma_flat_index_bound(i, q, rows as int, nn);
                            assert(mrow[q] == rowm(mflat)[i * nn + q]);
                            assert(rowm(mflat)[i * nn + q] == mflat[i * nn + q]@);
                            assert(feq(mflat[i * nn + q]@, setups@[q].rate_spec(goods@[i].name@)));
                        }
                        assert(crate::fracseq::seq_wf(mrow)) by {
                            assert forall|q: int|
                                0 <= q < mrow.len() implies (#[trigger] mrow[q]).wf() by {
                                crate::nullspace::lemma_flat_index_bound(i, q, rows as int, nn);
                                assert(mrow[q] == mflat[i * nn + q]@);
                            }
                        }
                        assert(crate::fracseq::seq_wf(chain_row(setups@, name))) by {
                            assert forall|q: int|
                                0 <= q < chain_row(setups@, name).len() implies (
                            #[trigger] chain_row(setups@, name)[q]).wf() by {
                                lemma_rate_spec_wf(setups@[q], name);
                            }
                        }
                        assert(implicit_good(setups@, explicit@, name));
                        assert(feq(fdot(chain_row(setups@, name), v), fzero()));
                        assert(feq(fdot(chain_row(setups@, name), w), fzero()));
                        crate::fracseq::lemma_fdot_congr(mrow, v, chain_row(setups@, name));
                        crate::fracseq::lemma_fdot_congr(mrow, w, chain_row(setups@, name));
                        crate::fracseq::lemma_fdot_wf(mrow, v);
                        crate::fracseq::lemma_fdot_wf(mrow, w);
                        crate::fracseq::lemma_fdot_wf(chain_row(setups@, name), v);
                        crate::fracseq::lemma_fdot_wf(chain_row(setups@, name), w);
                        crate::frac::lemma_feq_trans(
                            fdot(mrow, v),
                            fdot(chain_row(setups@, name), v),
                            fzero(),
                        );
                        crate::frac::lemma_feq_trans(
                            fdot(mrow, w),
                            fdot(chain_row(setups@, name), w),
                            fzero(),
                        );
                    }
                    assert(in_nullspace(rows_of(rowm(mflat), nn), v));
                    assert(in_nullspace(rows_of(rowm(mflat), nn), w));
                    assert(crate::nullspace::solutions_determined(
                        rows_of(rowm(mflat), nn),
                        fl,
                        v,
                        w,
                    ));
                }
            }
        }
        // with no implicit good there is no balance row, so every column
        // is free
        if forall|name: Seq<char>| !(#[trigger] implicit_good(setups@, explicit@, name)) {
            assert(rows == 0) by {
                if rows > 0 {
                    assert(implicit_good(setups@, explicit@, goods@[0].name@));
                }
            }
            if n > 0 {
                assert(mflat.len() == 0) by {
                    assert(rows * n == 0) by (nonlinear_arith)
                        requires
                            rows == 0,
                    ;
                }
                assert((mflat.len() as int) / (if n == 0 {
                    1int
                } else {
                    n as int
                }) == 0);
                crate::nullspace::lemma_count_true_bounds(s.weighted_setups@);
                assert(count_true(s.weighted_setups@) == n);
            } else {
                assert(s.weighted_setups@.len() == 0);
            }
        }
    }
    s
}

/// Whether the name occurs among the first `g` entries.
pub open spec fn has_name_pre(all: Seq<Product>, g: int, name: Seq<char>) -> bool {
    exists|x: int| 0 <= x < g && x < all.len() && (#[trigger] all[x]).name@ == name
}

/// A setup's per-second rate of a good is a well-formed fraction.
pub proof fn lemma_rate_spec_wf(s: Setup, name: Seq<char>)
    requires
        s.wf(),
    ensures
        s.rate_spec(name).wf(),
{
    match s.speed_spec() {
        Some(sp) => {
            assert(sp.wf()) by {
                match s.machines {
                    Machines::Power(cms) => {
                        if s.recipe.eu_per_tick != 0 {
                            crate::machine::lemma_speed_spec_wf(
                                cms.machines@,
                                Voltage::from_eu_spec(abs_int(s.recipe.eu_per_tick as int)),
                            );
                        }
                    },
                    Machines::Eco(_) => {},
                }
            }
            crate::frac::lemma_fdiv_wf(f_int(s.recipe.net_count(name)), s.recipe.seconds_spec());
            crate::frac::lemma_fmul_wf(
                fdiv(f_int(s.recipe.net_count(name)), s.recipe.seconds_spec()),
                sp,
            );
        },
        None => {},
    }
}

/// The final relative speed of every setup.
#[derive(Debug)]
pub struct WeightedSpeeds {
    /// One relative speed per setup; the fastest is one, unless the
    /// weighting collapsed everything to zero.
    pub speeds: Vec<Rat>,
}

impl WeightedSpeeds {
    /// The relative speeds, one per setup.
    pub fn speeds(&self) -> (r: &Vec<Rat>)
        ensures
            r == &self.speeds,
    {
        &self.speeds
    }
}

/// The position of the `k`-th free column.
pub open spec fn nth_free(flags: Seq<bool>, k: int) -> int {
    choose|ck: int| 0 <= ck < flags.len() && flags[ck] && count_true(flags.take(ck)) == k
}

/// The weighting accumulator after folding the first `k` basis vectors:
/// it starts at all ones, and each vector multiplies in, entry by entry,
/// its own components scaled by its free setup's weight.
pub open spec fn ws_acc(basis: Seq<Rat>, flags: Seq<bool>, setups: Seq<Setup>, k: int) -> Seq<Frac>
    decreases k,
{
    if k <= 0 {
        Seq::new(setups.len(), |i: int| fone())
    } else {
        let prev = ws_acc(basis, flags, setups, k - 1);
        let ck = nth_free(flags, k - 1);
        Seq::new(
            setups.len(),
            |i: int|
                fmul(
                    prev[i],
                    fmul(
                        basis_vec(basis, setups.len() as int, k - 1)[i],
                        f_int(setups[ck].weight.0 as int),
                    ),
                ),
        )
    }
}

/// Whether `mx` indexes a maximal entry.
pub open spec fn is_max(acc: Seq<Frac>, mx: int) -> bool {
    0 <= mx < acc.len() && forall|j: int| 0 <= j < acc.len() ==> !flt(acc[mx], #[trigger] acc[j])
}

/// What the final speed vector says about a chain and its nullspace
/// description: with no pivot at all the result is all ones; otherwise
/// the accumulator, normalized by its maximum entry when that is
/// nonzero.
pub open spec fn weighted_ok(setups: Seq<Setup>, s: Speeds, w: Seq<Frac>) -> bool {
    let n = setups.len() as int;
    let nb = count_true(s.weighted_setups@);
    let acc = ws_acc(s.speeds@, s.weighted_setups@, setups, nb);
    &&& w.len() == n
    &&& (forall|i: int| 0 <= i < n ==> (#[trigger] w[i]).wf())
    &&& if nb == n {
        forall|i: int| 0 <= i < n ==> feq(#[trigger] w[i], fone())
    } else if exists|mx: int| #[trigger] is_max(acc, mx) && !acc[mx].is_zero() {
        exists|mx: int|
            #[trigger] is_max(acc, mx) && !acc[mx].is_zero() && (forall|i: int|
                0 <= i < n ==> feq(#[trigger] w[i], fdiv(acc[i], acc[mx])))
    } else {
        forall|i: int| 0 <= i < n ==> feq(#[trigger] w[i], acc[i])
    }
}

/// The accumulator entries are well-formed.
pub proof fn lemma_ws_acc_wf(basis: Seq<Rat>, flags: Seq<bool>, setups: Seq<Setup>, k: int, n: int)
    requires
        n == setups.len(),
        row_wf(basis),
        0 <= k,
        forall|j: int| 0 <= j < k ==> 0 <= #[trigger] ((j + 1) * n) <= basis.len(),
    ensures
        ws_acc(basis, flags, setups, k).len() == n,
        forall|i: int| 0 <= i < n ==> (#[trigger] ws_acc(basis, flags, setups, k)[i]).wf(),
    decreases k,
{
    if k > 0 {
        lemma_ws_acc_wf(basis, flags, setups, k - 1, n);
        let prev = ws_acc(basis, flags, setups, k - 1);
        let acc = ws_acc(basis, flags, setups, k);
        assert(0 <= ((k - 1) + 1) * n <= basis.len());
        assert(((k - 1) + 1) * n == k * n) by (nonlinear_arith);
        assert(0 <= k * n <= basis.len());
        assert forall|i: int| 0 <= i < n implies (#[trigger] acc[i]).wf() by {
            assert(0 <= (k - 1) * n && (k - 1) * n + n <= k * n) by (nonlinear_arith)
                requires
                    k >= 1,
                    n >= 0,
            ;
            assert(basis_vec(basis, n, k - 1)[i] == basis[(k - 1) * n + i]@);
            crate::frac::lemma_fmul_wf(
                basis_vec(basis, n, k - 1)[i],
                f_int(setups[nth_free(flags, k - 1)].weight.0 as int),
            );
            crate::frac::lemma_fmul_wf(
                prev[i],
                fmul(
                    basis_vec(basis, n, k - 1)[i],
                    f_int(setups[nth_free(flags, k - 1)].weight.0 as int),
                ),
            );
        }
    }
}

/// The `k`-th free column is uniquely determined.
pub proof fn lemma_nth_free(flags: Seq<bool>, k: int, ck: int)
    requires
        0 <= ck < flags.len(),
        flags[ck],
        count_true(flags.take(ck)) == k,
    ensures
        nth_free(flags, k) == ck,
{
    assert(exists|c: int| 0 <= c < flags.len() && flags[c] && count_true(flags.take(c)) == k) by {
        assert(flags[ck] && count_true(flags.take(ck)) == k);
    }
    let c2 = nth_free(flags, k);
    if c2 < ck {
        lemma_true_positions_ordered(flags, c2, ck);
    } else if c2 > ck {
        lemma_true_positions_ordered(flags, ck, c2);
    }
}

/// Distinct positions of `true` flags have distinct counts, in order.
pub proof fn lemma_true_positions_ordered(s: Seq<bool>, x: int, y: int)
    requires
        0 <= x < y <= s.len(),
        s[x],
    ensures
        count_true(s.take(x)) < count_true(s.take(y)),
{
    crate::nullspace::lemma_count_take_step(s, x);
    crate::nullspace::lemma_count_take_mono(s, x + 1, y);
}

/// Not all less-than: the order of fractions is transitive.
pub proof fn lemma_fle_trans(a: Frac, b: Frac, c: Frac)
    requires
        a.wf(),
        b.wf(),
        c.wf(),
        !flt(b, a),
        !flt(c, b),
    ensures
        !flt(c, a),
{
    assert(a.num * c.den <= c.num * a.den) by (nonlinear_arith)
        requires
            a.num * b.den <= b.num * a.den,
            b.num * c.den <= c.num * b.den,
            a.den > 0,
            b.den > 0,
            c.den > 0,
    ;
}

/// Computes the final speed vector from the nullspace description.
fn compute_weighted(s: &Speeds, setups: &Vec<Setup>) -> (w: WeightedSpeeds)
    requires
        s.weighted_setups@.len() == setups@.len(),
        s.speeds@.len() == count_true(s.weighted_setups@) * setups@.len(),
        row_wf(s.speeds@),
    ensures
        weighted_ok(setups@, *s, rowm(w.speeds@)),
        w.speeds@.len() == setups@.len(),
        row_wf(w.speeds@),
{
    let n = setups.len();
    let total = s.speeds.len();
    let ghost fl = s.weighted_setups@;
    let ghost nb = count_true(fl);
    let ghost nn = n as int;
    proof {
        crate::nullspace::lemma_count_true_bounds(fl);
    }
    // are all columns free?
    let mut all_free = true;
    let mut t: usize = 0;
    while t < n
        invariant
            fl == s.weighted_setups@,
            fl.len() == n,
            0 <= t <= n,
            all_free == (count_true(fl.take(t as int)) == t),
        decreases n - t,
    {
        proof {
            crate::nullspace::lemma_count_take_step(fl, t as int);
            crate::nullspace::lemma_count_true_bounds(fl.take(t as int));
        }
        if !s.weighted_setups[t] {
            all_free = false;
        }
        t = t + 1;
    }
    proof {
        assert(fl.take(n as int) =~= fl);
    }
    if all_free {
        let mut out: Vec<Rat> = Vec::new();
        let mut i: usize = 0;
        while i < n
            invariant
                0 <= i <= n,
                out@.len() == i,
                row_wf(out@),
                forall|j: int| 0 <= j < i ==> feq(#[trigger] out@[j]@, fone()),
            decreases n - i,
        {
            out.push(Rat::one());
            i = i + 1;
        }
        proof {
            assert forall|j: int| 0 <= j < n implies feq(#[trigger] rowm(out@)[j], fone()) by {
                assert(rowm(out@)[j] == out@[j]@);
            }
            assert(rowm(out@).len() == n);
            assert forall|j: int| 0 <= j < n implies (#[trigger] rowm(out@)[j]).wf() by {
                assert(rowm(out@)[j] == out@[j]@);
            }
        }
        return WeightedSpeeds { speeds: out };
    }
    // fold the basis vectors into the accumulator
    let mut acc: Vec<Rat> = Vec::new();
    let mut i: usize = 0;
    while i < n
        invariant
            0 <= i <= n,
            acc@.len() == i,
            row_wf(acc@),
            forall|j: int| 0 <= j < i ==> feq(#[trigger] acc@[j]@, fone()),
        decreases n - i,
    {
        acc.push(Rat::one());
        i = i + 1;
    }
    let ghost basis = s.speeds@;
    proof {
        assert(fl.take(0) =~= Seq::<bool>::empty());
        assert forall|j: int| 0 <= j < n implies feq(
            #[trigger] acc@[j]@,
            ws_acc(basis, fl, setups@, 0)[j],
        ) by {
            assert(ws_acc(basis, fl, setups@, 0)[j] == fone());
        }
    }
    let mut k: usize = 0;
    let mut ck: usize = 0;
    while ck < n
        invariant
            fl == s.weighted_setups@,
            basis == s.speeds@,
            fl.len() == n,
            n == setups@.len(),
            nb == count_true(fl),
            nn == n as int,
            s.speeds@.len() == nb * n,
            total == s.speeds@.len(),
            row_wf(s.speeds@),
            0 <= ck <= n,
            k == count_true(fl.take(ck as int)),
            0 <= k <= nb,
            acc@.len() == n,
            row_wf(acc@),
            forall|j: int|
                0 <= j < n ==> feq(#[trigger] acc@[j]@, ws_acc(basis, fl, setups@, k as int)[j]),
        decreases n - ck,
    {
        proof {
            crate::nullspace::lemma_count_take_step(fl, ck as int);
            crate::nullspace::lemma_count_take_mono(fl, ck as int + 1, n as int);
            assert(fl.take(n as int) =~= fl);
        }
        if s.weighted_setups[ck] {
            let wr = Rat::from_u64(setups[ck].weight.0);
            let ghost k0 = k as int;
            let ghost prev = ws_acc(basis, fl, setups@, k0);
            let ghost cur = ws_acc(basis, fl, setups@, k0 + 1);
            proof {
                lemma_nth_free(fl, k0, ck as int);
                lemma_ws_acc_bounds(basis, fl, setups@, k0, nn, nb);
            }
            let mut j: usize = 0;
            while j < n
                invariant
                    fl == s.weighted_setups@,
                    basis == s.speeds@,
                    n == setups@.len(),
                    nn == n as int,
                    nb == count_true(fl),
                    s.speeds@.len() == nb * n,
                    total == s.speeds@.len(),
                    row_wf(s.speeds@),
                    0 <= j <= n,
                    acc@.len() == n,
                    row_wf(acc@),
                    ck < n,
                    fl[ck as int],
                    k0 == count_true(fl.take(ck as int)),
                    0 <= k0 < nb,
                    nth_free(fl, k0) == ck as int,
                    k as int == k0,
                    prev == ws_acc(basis, fl, setups@, k0),
                    cur == ws_acc(basis, fl, setups@, k0 + 1),
                    wr@.wf(),
                    feq(wr@, f_int(setups@[ck as int].weight.0 as int)),
                    forall|t2: int| j <= t2 < n ==> feq(#[trigger] acc@[t2]@, prev[t2]),
                    forall|t2: int| 0 <= t2 < j ==> feq(#[trigger] acc@[t2]@, cur[t2]),
                decreases n - j,
            {
                proof {
                    assert(0 <= k0 * nn && k0 * nn + nn <= nb * nn) by (nonlinear_arith)
                        requires
                            0 <= k0 < nb,
                            nn > 0,
                    ;
                    assert(nb * nn == nb * n) by (nonlinear_arith)
                        requires
                            nn == n as int,
                    ;
                    crate::nullspace::lemma_flat_index_bound(k0, j as int, nb, nn);
                }
                proof {
                    assert((k as int) * (n as int) + (j as int) < nb * nn) by (nonlinear_arith)
                        requires
                            k as int == k0,
                            n as int == nn,
                            0 <= k0 < nb,
                            0 <= (j as int) < nn,
                    ;
                    assert(nb * nn == s.speeds@.len()) by (nonlinear_arith)
                        requires
                            nn == n as int,
                            s.speeds@.len() == nb * n,
                    ;
                }
                let bv = &s.speeds[k * n + j];
                let scaled = bv.mul(&wr);
                let updated = acc[j].mul(&scaled);
                proof {
                    let bvf = basis_vec(basis, nn, k0)[j as int];
                    assert(bvf == basis[k0 * nn + j]@);
                    assert(k0 * nn + j == k * n + j);
                    let wf_ = f_int(setups@[ck as int].weight.0 as int);
                    lemma_fmul_congr(bv@, wr@, bvf, wf_);
                    lemma_fmul_wf(bv@, wr@);
                    lemma_fmul_wf(bvf, wf_);
                    lemma_feq_trans(scaled@, fmul(bv@, wr@), fmul(bvf, wf_));
                    lemma_ws_acc_wf_all(basis, fl, setups@, k0, nn, nb);
                    lemma_fmul_congr(acc@[j as int]@, scaled@, prev[j as int], fmul(bvf, wf_));
                    lemma_fmul_wf(acc@[j as int]@, scaled@);
                    lemma_fmul_wf(prev[j as int], fmul(bvf, wf_));
                    lemma_feq_trans(
                        updated@,
                        fmul(acc@[j as int]@, scaled@),
                        fmul(prev[j as int], fmul(bvf, wf_)),
                    );
                    assert(cur[j as int] == fmul(prev[j as int], fmul(bvf, wf_)));
                }
                acc[j] = updated;
                j = j + 1;
            }
            proof {
                assert(k as int == k0 && k0 < nb);
                crate::nullspace::lemma_count_true_bounds(fl);
            }
            k = k + 1;
        }
        ck = ck + 1;
    }
    proof {
        assert(k == nb);
    }
    // normalize by the maximum entry if it is nonzero
    proof {
        lemma_ws_acc_wf_all(basis, fl, setups@, nb, nn, nb);
    }
    let ghost accs = ws_acc(basis, fl, setups@, nb);
    let mut mx: usize = 0;
    let mut i2: usize = 1;
    proof {
        assert(n >= 1) by {
            assert(count_true(fl.take(n as int)) != n);
            assert(fl.take(n as int) =~= fl);
        }
    }
    while i2 < n
        invariant
            n == setups@.len(),
            0 <= mx < n,
            1 <= i2 <= n,
            acc@.len() == n,
            row_wf(acc@),
            forall|j: int| 0 <= j < n ==> feq(#[trigger] acc@[j]@, accs[j]),
            accs.len() == n,
            forall|j: int| 0 <= j < n ==> (#[trigger] accs[j]).wf(),
            forall|j: int| 0 <= j < i2 ==> !flt(acc@[mx as int]@, #[trigger] acc@[j]@),
        decreases n - i2,
    {
        if acc[mx].lt(&acc[i2]) {
            let ghost oldmx = mx as int;
            mx = i2;
            proof {
                assert forall|j: int| 0 <= j < i2 + 1 implies !flt(
                    acc@[mx as int]@,
                    #[trigger] acc@[j]@,
                ) by {
                    if j < i2 {
                        lemma_fle_trans(acc@[j]@, acc@[oldmx]@, acc@[mx as int]@);
                    }
                }
            }
        }
        i2 = i2 + 1;
    }
    proof {
        // the exec maximum is a maximum of the spec accumulator
        assert(is_max(accs, mx as int)) by {
            assert forall|j: int| 0 <= j < n implies !flt(accs[mx as int], #[trigger] accs[j]) by {
                assert(!flt(acc@[mx as int]@, acc@[j]@));
                lemma_flt_congr(acc@[mx as int]@, acc@[j]@, accs[mx as int], accs[j]);
            }
        }
    }
    let mut out: Vec<Rat> = Vec::new();
    if !acc[mx].is_zero_rat() {
        proof {
            assert(!accs[mx as int].is_zero()) by {
                if accs[mx as int].is_zero() {
                    crate::frac::lemma_zero_feq(accs[mx as int]);
                    crate::frac::lemma_feq_trans(acc@[mx as int]@, accs[mx as int], fzero());
                    crate::frac::lemma_feq_zero(acc@[mx as int]@);
                }
            }
        }
        let mut i3: usize = 0;
        while i3 < n
            invariant
                n == setups@.len(),
                0 <= mx < n,
                0 <= i3 <= n,
                acc@.len() == n,
                row_wf(acc@),
                forall|j: int| 0 <= j < n ==> feq(#[trigger] acc@[j]@, accs[j]),
                accs.len() == n,
                forall|j: int| 0 <= j < n ==> (#[trigger] accs[j]).wf(),
                !acc@[mx as int]@.is_zero(),
                !accs[mx as int].is_zero(),
                out@.len() == i3,
                row_wf(out@),
                forall|j: int|
                    0 <= j < i3 ==> feq(#[trigger] out@[j]@, fdiv(accs[j], accs[mx as int])),
            decreases n - i3,
        {
            let q = acc[i3].div(&acc[mx]);
            proof {
                crate::frac::lemma_fdiv_congr(
                    acc@[i3 as int]@,
                    acc@[mx as int]@,
                    accs[i3 as int],
                    accs[mx as int],
                );
                crate::frac::lemma_fdiv_wf(acc@[i3 as int]@, acc@[mx as int]@);
                crate::frac::lemma_fdiv_wf(accs[i3 as int], accs[mx as int]);
                crate::frac::lemma_feq_zero_carries(acc@[mx as int]@, accs[mx as int]);
                lemma_feq_trans(
                    q@,
                    fdiv(acc@[i3 as int]@, acc@[mx as int]@),
                    fdiv(accs[i3 as int], accs[mx as int]),
                );
            }
            out.push(q);
            i3 = i3 + 1;
        }
        proof {
            assert forall|j: int| 0 <= j < n implies feq(
                #[trigger] rowm(out@)[j],
                fdiv(accs[j], accs[mx as int]),
            ) by {
                assert(rowm(out@)[j] == out@[j]@);
            }
            assert forall|j: int| 0 <= j < n implies (#[trigger] rowm(out@)[j]).wf() by {
                assert(rowm(out@)[j] == out@[j]@);
            }
            assert(is_max(accs, mx as int) && !accs[mx as int].is_zero());
        }
        WeightedSpeeds { speeds: out }
    } else {
        proof {
            // the maximum is zero, so no maximum is nonzero
            assert(feq(acc@[mx as int]@, accs[mx as int]));
            assert(acc@[mx as int]@.is_zero());
            assert(accs[mx as int].is_zero()) by {
                crate::frac::lemma_zero_feq(acc@[mx as int]@);
                crate::frac::lemma_feq_sym(acc@[mx as int]@, accs[mx as int]);
                crate::frac::lemma_feq_trans(accs[mx as int], acc@[mx as int]@, fzero());
                crate::frac::lemma_feq_zero(accs[mx as int]);
            }
            assert forall|m2: int| #[trigger] is_max(accs, m2) implies accs[m2].is_zero() by {
                // two maxima denote the same value
                assert(!flt(accs[mx as int], accs[m2]));
                assert(!flt(accs[m2], accs[mx as int]));
                assert(accs[m2].num * accs[mx as int].den == accs[mx as int].num * accs[m2].den);
                assert(accs[m2].num == 0) by (nonlinear_arith)
                    requires
                        accs[m2].num * accs[mx as int].den == accs[mx as int].num * accs[m2].den,
                        accs[mx as int].num == 0,
                        accs[mx as int].den > 0,
                        accs[m2].den > 0,
                ;
            }
        }
        let mut i3: usize = 0;
        while i3 < n
            invariant
                n == setups@.len(),
                0 <= i3 <= n,
                acc@.len() == n,
                row_wf(acc@),
                accs.len() == n,
                forall|j: int| 0 <= j < n ==> feq(#[trigger] acc@[j]@, accs[j]),
                out@.len() == i3,
                row_wf(out@),
                forall|j: int| 0 <= j < i3 ==> feq(#[trigger] out@[j]@, accs[j]),
            decreases n - i3,
        {
            out.push(acc[i3].clone_rat());
            i3 = i3 + 1;
        }
        proof {
            assert forall|j: int| 0 <= j < n implies feq(#[trigger] rowm(out@)[j], accs[j]) by {
                assert(rowm(out@)[j] == out@[j]@);
            }
            assert forall|j: int| 0 <= j < n implies (#[trigger] rowm(out@)[j]).wf() by {
                assert(rowm(out@)[j] == out@[j]@);
            }
        }
        WeightedSpeeds { speeds: out }
    }
}

/// Index bounds needed by the accumulator.
proof fn lemma_ws_acc_bounds(basis: Seq<Rat>, fl: Seq<bool>, setups: Seq<Setup>, k: int, nn: int, nb: int)
    requires
        basis.len() == nb * nn,
        0 <= k < nb,
        nn >= 0,
    ensures
        0 <= (k + 1) * nn <= basis.len(),
{
    assert(0 <= (k + 1) * nn <= nb * nn) by (nonlinear_arith)
        requires
            0 <= k < nb,
            nn >= 0,
    ;
}

/// The accumulator is well-formed at every step up to `k`.
proof fn lemma_ws_acc_wf_all(basis: Seq<Rat>, fl: Seq<bool>, setups: Seq<Setup>, k: int, nn: int, nb: int)
    requires
        nn == setups.len(),
        basis.len() == nb * nn,
        row_wf(basis),
        0 <= k <= nb,
    ensures
        ws_acc(basis, fl, setups, k).len() == nn,
        forall|i: int| 0 <= i < nn ==> (#[trigger] ws_acc(basis, fl, setups, k)[i]).wf(),
{
    assert forall|j: int| 0 <= j < k implies 0 <= #[trigger] ((j + 1) * nn) <= basis.len() by {
        assert(0 <= (j + 1) * nn <= nb * nn) by (nonlinear_arith)
            requires
                0 <= j < k <= nb,
                nn >= 0,
        ;
    }
    lemma_ws_acc_wf(basis, fl, setups, k, nn);
}

/// Strict order respects equality of fractions.
pub proof fn lemma_flt_congr(a: Frac, b: Frac, a2: Frac, b2: Frac)
    requires
        a.wf(),
        b.wf(),
        a2.wf(),
        b2.wf(),
        feq(a, a2),
        feq(b, b2),
        !flt(a, b),
    ensures
        !flt(a2, b2),
{
    assert(b2.num * a2.den <= a2.num * b2.den) by (nonlinear_arith)
        requires
            b.num * a.den <= a.num * b.den,
            a.num * a2.den == a2.num * a.den,
            b.num * b2.den == b2.num * b.den,
            a.den > 0,
            b.den > 0,
            a2.den > 0,
            b2.den > 0,
    ;
}

/// Whether any setup's recipe lists the good as produced.
pub fn chain_produces(setups: &Vec<Setup>, product: &Product) -> (r: bool)
    ensures
        r == someone_produces(setups@, product.name@),
{
    let n = setups.len();
    let mut i: usize = 0;
    while i < n
        invariant
            n == setups@.len(),
            0 <= i <= n,
            forall|j: int|
                0 <= j < i ==> !list_has((#[trigger] setups@[j]).recipe.produced@, product.name@),
        decreases n - i,
    {
        if setups[i].recipe.produces(product) {
            return true;
        }
        i = i + 1;
    }
    false
}

/// Whether any setup's recipe lists the good as consumed.
pub fn chain_consumes(setups: &Vec<Setup>, product: &Product) -> (r: bool)
    ensures
        r == someone_consumes(setups@, product.name@),
{
    let n = setups.len();
    let mut i: usize = 0;
    while i < n
        invariant
            n == setups@.len(),
            0 <= i <= n,
            forall|j: int|
                0 <= j < i ==> !list_has((#[trigger] setups@[j]).recipe.consumed@, product.name@),
        decreases n - i,
    {
        if setups[i].recipe.consumes(product) {
            return true;
        }
        i = i + 1;
    }
    false
}

/// Aggregate flows: the total energy draw per tick and the per-second
/// net flow of every good, at some speed assignment.
#[derive(Debug)]
pub struct Products {
    pub eu_per_tick: Rat,
    pub products_per_sec: Vec<(Product, Rat)>,
}

/// A collection of setups processing goods, together with the goods
/// declared as explicit inputs or outputs of the whole chain, and the
/// memoized equilibrium results.
#[derive(Debug)]
pub struct ProcessingChain {
    setups: Vec<Setup>,
    explicit_io: Vec<Product>,
    speeds_cache: Option<Speeds>,
    weighted_cache: Option<WeightedSpeeds>,
}

impl ProcessingChain {
    /// The setups, in order.
    pub closed spec fn setups_spec(self) -> Seq<Setup> {
        self.setups@
    }

    /// The goods exempted from balancing.
    pub closed spec fn explicit_io_spec(self) -> Seq<Product> {
        self.explicit_io@
    }

    /// The memoized nullspace description, if any.
    pub closed spec fn speeds_cache_spec(self) -> Option<Speeds> {
        self.speeds_cache
    }

    /// The memoized final speeds, if any.
    pub closed spec fn weighted_cache_spec(self) -> Option<WeightedSpeeds> {
        self.weighted_cache
    }

    /// Setups are well-formed, and whatever is memoized describes the
    /// current chain.
    pub open spec fn wf(self) -> bool {
        &&& setups_wf(self.setups_spec())
        &&& match self.speeds_cache_spec() {
            Some(s) => speeds_ok(self.setups_spec(), self.explicit_io_spec(), s),
            None => true,
        }
        &&& match (self.weighted_cache_spec(), self.speeds_cache_spec()) {
            (Some(w), Some(s)) => weighted_ok(self.setups_spec(), s, rowm(w.speeds@))
                && w.speeds@.len() == self.setups_spec().len() && row_wf(w.speeds@),
            (Some(_), None) => false,
            _ => true,
        }
    }

    /// An empty chain.
    pub fn new() -> (r: ProcessingChain)
        ensures
            r.wf(),
            r.setups_spec().len() == 0,
            r.explicit_io_spec().len() == 0,
    {
        ProcessingChain {
            setups: Vec::new(),
            explicit_io: Vec::new(),
            speeds_cache: None,
            weighted_cache: None,
        }
    }

    /// The setups, in order.
    pub fn setups(&self) -> (r: &Vec<Setup>)
        ensures
            r@ == self.setups_spec(),
    {
        &self.setups
    }

    /// The goods exempted from balancing.
    pub fn explicit_io(&self) -> (r: &Vec<Product>)
        ensures
            r@ == self.explicit_io_spec(),
    {
        &self.explicit_io
    }

    /// Appends a setup; a structural edit, so both memoized results are
    /// dropped.
    pub fn push_setup(&mut self, s: Setup)
        requires
            old(self).wf(),
            s.wf(),
        ensures
            final(self).wf(),
            final(self).setups_spec() == old(self).setups_spec().push(s),
            final(self).explicit_io_spec() == old(self).explicit_io_spec(),
            final(self).speeds_cache_spec() is None,
            final(self).weighted_cache_spec() is None,
    {
        self.speeds_cache = None;
        self.weighted_cache = None;
        self.setups.push(s);
    }

    /// Removes the setup at `index`; a structural edit.
    pub fn remove_setup(&mut self, index: usize) -> (r: Setup)
        requires
            old(self).wf(),
            index < old(self).setups_spec().len(),
        ensures
            final(self).wf(),
            final(self).setups_spec() == old(self).setups_spec().remove(index as int),
            r == old(self).setups_spec()[index as int],
            final(self).explicit_io_spec() == old(self).explicit_io_spec(),
            final(self).speeds_cache_spec() is None,
            final(self).weighted_cache_spec() is None,
    {
        self.speeds_cache = None;
        self.weighted_cache = None;
        self.setups.remove(index)
    }

    /// Changes one setup's weight. This cannot move the balance point,
    /// so the nullspace description is kept; only the final speeds are
    /// dropped.
    pub fn set_weight(&mut self, index: usize, weight: Weight)
        requires
            old(self).wf(),
            index < old(self).setups_spec().len(),
        ensures
            final(self).wf(),
            final(self).setups_spec() == old(self).setups_spec().update(
                index as int,
                Setup {
                    weight,
                    ..old(self).setups_spec()[index as int]
                },
            ),
            final(self).explicit_io_spec() == old(self).explicit_io_spec(),
            final(self).speeds_cache_spec() == old(self).speeds_cache_spec(),
            final(self).weighted_cache_spec() is None,
    {
        self.weighted_cache = None;
        self.setups[index].weight = weight;
        proof {
            let olds = old(self).setups_spec();
            let news = self.setups_spec();
            assert(news =~= olds.update(
                index as int,
                Setup { weight, ..olds[index as int] },
            ));
            assert forall|i: int| 0 <= i < news.len() implies (#[trigger] news[i]).wf() by {
                assert(olds[i].wf());
            }
            match old(self).speeds_cache_spec() {
                Some(s) => {
                    lemma_weight_change_keeps_speeds(olds, news, self.explicit_io_spec(), s);
                },
                None => {},
            }
        }
    }

    /// Adds a good to the explicit input/output set; a structural edit.
    pub fn add_explicit_io(&mut self, product: Product)
        requires
            old(self).wf(),
        ensures
            final(self).wf(),
            final(self).setups_spec() == old(self).setups_spec(),
            final(self).explicit_io_spec() == old(self).explicit_io_spec().push(product),
            final(self).speeds_cache_spec() is None,
            final(self).weighted_cache_spec() is None,
    {
        self.speeds_cache = None;
        self.weighted_cache = None;
        self.explicit_io.push(product);
    }

    /// Removes every entry of that name from the explicit set; a
    /// structural edit.
    pub fn remove_explicit_io(&mut self, product: &Product)
        requires
            old(self).wf(),
        ensures
            final(self).wf(),
            final(self).setups_spec() == old(self).setups_spec(),
            final(self).explicit_io_spec() == without_name(
                old(self).explicit_io_spec(),
                product.name@,
            ),
            forall|j: int|
                0 <= j < final(self).explicit_io_spec().len() ==> (#[trigger] final(self).explicit_io_spec()[j]).name@
                    != product.name@,
            final(self).speeds_cache_spec() is None,
            final(self).weighted_cache_spec() is None,
    {
        self.speeds_cache = None;
        self.weighted_cache = None;
        let ghost ex0 = self.explicit_io@;
        let n = self.explicit_io.len();
        let mut kept: Vec<Product> = Vec::new();
        let mut i: usize = 0;
        proof {
            assert(ex0.take(0) =~= Seq::<Product>::empty());
        }
        while i < n
            invariant
                n == self.explicit_io@.len(),
                ex0 == self.explicit_io@,
                0 <= i <= n,
                kept@ == without_name(ex0.take(i as int), product.name@),
                self.setups@ == old(self).setups_spec(),
                setups_wf(self.setups@),
                self.speeds_cache is None,
                self.weighted_cache is None,
            decreases n - i,
        {
            let ghost pre = ex0.take(i as int);
            let ghost pre2 = ex0.take(i as int + 1);
            proof {
                assert(pre2.drop_last() =~= pre);
                assert(pre2.last() == ex0[i as int]);
            }
            if !self.explicit_io[i].same(product) {
                // keep the entry itself, so the kept list is exactly the
                // original sequence without the removed name
                let entry = Product { name: self.explicit_io[i].name.clone() };
                proof {
                    assert(entry.name@ == ex0[i as int].name@);
                }
                kept.push(entry);
                proof {
                    assert(kept@ =~= without_name(pre, product.name@).push(entry));
                    assert(without_name(pre2, product.name@) == without_name(
                        pre,
                        product.name@,
                    ).push(ex0[i as int]) || entry == ex0[i as int]);
                    lemma_without_name_push_keep(pre, ex0[i as int], product.name@, entry);
                    assert(kept@ == without_name(pre2, product.name@));
                }
            }
            i = i + 1;
        }
        proof {
            assert(ex0.take(n as int) =~= ex0);
        }
        self.explicit_io = kept;
        proof {
            lemma_without_name_no_match(ex0, product.name@);
        }
    }

    /// Renames a good across every setup and the explicit set; a
    /// structural edit, so both memoized results are dropped.
    pub fn replace_product(&mut self, from: &Product, to: &Product)
        requires
            old(self).wf(),
        ensures
            final(self).wf(),
            final(self).setups_spec().len() == old(self).setups_spec().len(),
            forall|i: int|
                0 <= i < old(self).setups_spec().len() ==> (#[trigger] final(self).setups_spec()[
                i]).machines == old(self).setups_spec()[i].machines && final(self).setups_spec()[
                i].weight == old(self).setups_spec()[i].weight && crate::recipe::recipe_renamed(
                    old(self).setups_spec()[i].recipe,
                    final(self).setups_spec()[i].recipe,
                    from.name@,
                    to.name@,
                ),
            final(self).explicit_io_spec().len() == old(self).explicit_io_spec().len(),
            forall|j: int|
                0 <= j < old(self).explicit_io_spec().len() ==> (#[trigger] final(self).explicit_io_spec()[
                j]).name@ == crate::recipe::renamed(
                    old(self).explicit_io_spec()[j].name@,
                    from.name@,
                    to.name@,
                ),
            final(self).speeds_cache_spec() is None,
            final(self).weighted_cache_spec() is None,
    {
        self.speeds_cache = None;
        self.weighted_cache = None;
        let n = self.setups.len();
        let mut i: usize = 0;
        while i < n
            invariant
                n == self.setups@.len(),
                n == old(self).setups_spec().len(),
                0 <= i <= n,
                forall|t: int| i <= t < n ==> #[trigger] self.setups@[t] == old(self).setups@[t],
                forall|t: int|
                    0 <= t < i ==> (#[trigger] self.setups@[t]).machines == old(self).setups@[
                    t].machines && self.setups@[t].weight == old(self).setups@[t].weight
                        && crate::recipe::recipe_renamed(
                        old(self).setups@[t].recipe,
                        self.setups@[t].recipe,
                        from.name@,
                        to.name@,
                    ),
                setups_wf(old(self).setups@),
                self.explicit_io@ == old(self).explicit_io@,
                self.speeds_cache is None,
                self.weighted_cache is None,
            decreases n - i,
        {
            self.setups[i].recipe.replace_product(from, to);
            i = i + 1;
        }
        let m = self.explicit_io.len();
        let mut out: Vec<Product> = Vec::new();
        let mut j: usize = 0;
        while j < m
            invariant
                m == self.explicit_io@.len(),
                self.explicit_io@ == old(self).explicit_io@,
                0 <= j <= m,
                out@.len() == j,
                forall|t: int|
                    0 <= t < j ==> (#[trigger] out@[t]).name@ == crate::recipe::renamed(
                        self.explicit_io@[t].name@,
                        from.name@,
                        to.name@,
                    ),
                self.setups@.len() == old(self).setups_spec().len(),
                forall|t: int|
                    0 <= t < self.setups@.len() ==> (#[trigger] self.setups@[t]).machines == old(
                        self,
                    ).setups@[t].machines && self.setups@[t].weight == old(self).setups@[t].weight
                        && crate::recipe::recipe_renamed(
                        old(self).setups@[t].recipe,
                        self.setups@[t].recipe,
                        from.name@,
                        to.name@,
                    ),
                setups_wf(old(self).setups@),
                self.speeds_cache is None,
                self.weighted_cache is None,
            decreases m - j,
        {
            if self.explicit_io[j].same(from) {
                out.push(to.duplicate());
            } else {
                out.push(self.explicit_io[j].duplicate());
            }
            j = j + 1;
        }
        self.explicit_io = out;
        proof {
            assert forall|t: int| 0 <= t < self.setups@.len() implies (
            #[trigger] self.setups@[t]).wf() by {
                assert(old(self).setups@[t].wf());
            }
        }
    }

    /// The distinct goods any setup touches.
    pub fn products(&self) -> (r: Vec<Product>)
        ensures
            names_distinct(r@),
            forall|j: int|
                0 <= j < r@.len() ==> chain_touches(self.setups_spec(), (#[trigger] r@[j]).name@),
            forall|i: int, name: Seq<char>|
                0 <= i < self.setups_spec().len() && #[trigger] setup_touches(
                    self.setups_spec()[i],
                    name,
                ) ==> has_name(r@, name),
    {
        chain_products(&self.setups)
    }

    /// Whether any setup produces the good.
    pub fn produces(&self, product: &Product) -> (r: bool)
        ensures
            r == someone_produces(self.setups_spec(), product.name@),
    {
        chain_produces(&self.setups, product)
    }

    /// Whether any setup consumes the good.
    pub fn consumes(&self, product: &Product) -> (r: bool)
        ensures
            r == someone_consumes(self.setups_spec(), product.name@),
    {
        chain_consumes(&self.setups, product)
    }

    /// The aggregate flows with every setup running at full speed: at
    /// some speed vector in which every entry is one.
    pub fn products_with_max_speeds(&self) -> (r: Products)
        requires
            self.wf(),
        ensures
            exists|sp: Seq<Frac>|
                sp.len() == self.setups_spec().len() && (forall|i: int|
                    0 <= i < sp.len() ==> (#[trigger] sp[i]).wf() && feq(sp[i], fone()))
                    && #[trigger] products_ok(self.setups_spec(), sp, r),
    {
        let n = self.setups.len();
        let mut ones: Vec<Rat> = Vec::new();
        let mut i: usize = 0;
        while i < n
            invariant
                0 <= i <= n,
                ones@.len() == i,
                row_wf(ones@),
                forall|j: int| 0 <= j < i ==> feq(#[trigger] ones@[j]@, fone()),
            decreases n - i,
        {
            ones.push(Rat::one());
            i = i + 1;
        }
        let r = aggregate_products(&self.setups, &ones);
        proof {
            let sp = rowm(ones@);
            assert(sp.len() == n);
            assert forall|j: int| 0 <= j < sp.len() implies (#[trigger] sp[j]).wf() && feq(
                sp[j],
                fone(),
            ) by {
                assert(sp[j] == ones@[j]@);
            }
            assert(products_ok(self.setups_spec(), sp, r));
        }
        r
    }

    /// The aggregate flows at the given relative speeds.
    pub fn products_with_speeds(&self, speeds: &WeightedSpeeds) -> (r: Products)
        requires
            self.wf(),
            speeds.speeds@.len() == self.setups_spec().len(),
            row_wf(speeds.speeds@),
        ensures
            products_ok(self.setups_spec(), rowm(speeds.speeds@), r),
    {
        aggregate_products(&self.setups, &speeds.speeds)
    }

    /// The nullspace description of the chain, memoized: cleared by
    /// structural edits and kept across weight changes. A warm call
    /// leaves the memo untouched and hands back its value, so repeated
    /// calls without an intervening edit return the same description.
    pub fn speeds(&mut self) -> (r: Speeds)
        requires
            old(self).wf(),
        ensures
            final(self).wf(),
            final(self).setups_spec() == old(self).setups_spec(),
            final(self).explicit_io_spec() == old(self).explicit_io_spec(),
            final(self).weighted_cache_spec() == old(self).weighted_cache_spec(),
            old(self).speeds_cache_spec() is Some ==> final(self).speeds_cache_spec() == old(
                self,
            ).speeds_cache_spec(),
            speeds_ok(final(self).setups_spec(), final(self).explicit_io_spec(), r),
            final(self).speeds_cache_spec() matches Some(c) && speeds_ok(
                final(self).setups_spec(),
                final(self).explicit_io_spec(),
                c,
            ) && c.weighted_setups@ == r.weighted_setups@ && c.speeds@.len() == r.speeds@.len() && (
            forall|i: int| 0 <= i < r.speeds@.len() ==> c.speeds@[i]@ == #[trigger] r.speeds@[i]@),
    {
        let have = self.speeds_cache.is_some();
        if !have {
            let s = compute_speeds(&self.setups, &self.explicit_io);
            self.speeds_cache = Some(s);
        }
        match &self.speeds_cache {
            Some(c) => {
                let copy = copy_speeds(c);
                proof {
                    lemma_speeds_ok_transfer(
                        self.setups_spec(),
                        self.explicit_io_spec(),
                        *c,
                        copy,
                    );
                }
                copy
            },
            None => {
                proof {
                    assert(false);
                }
                Speeds { weighted_setups: Vec::new(), speeds: Vec::new() }
            },
        }
    }

    /// The final relative speed of every setup, memoized: any edit to the
    /// chain, including a weight change, clears it. A warm call leaves
    /// both memos untouched and hands back the memoized vector, so
    /// repeated calls without an intervening edit return the same speeds.
    pub fn weighted_speeds(&mut self) -> (r: WeightedSpeeds)
        requires
            old(self).wf(),
        ensures
            final(self).wf(),
            final(self).setups_spec() == old(self).setups_spec(),
            final(self).explicit_io_spec() == old(self).explicit_io_spec(),
            r.speeds@.len() == final(self).setups_spec().len(),
            row_wf(r.speeds@),
            final(self).speeds_cache_spec() matches Some(s) && speeds_ok(
                final(self).setups_spec(),
                final(self).explicit_io_spec(),
                s,
            ) && weighted_ok(final(self).setups_spec(), s, rowm(r.speeds@)),
            old(self).weighted_cache_spec() is Some ==> final(self).weighted_cache_spec() == old(
                self,
            ).weighted_cache_spec() && final(self).speeds_cache_spec() == old(
                self,
            ).speeds_cache_spec(),
            old(self).speeds_cache_spec() is Some ==> final(self).speeds_cache_spec() == old(
                self,
            ).speeds_cache_spec(),
            final(self).weighted_cache_spec() matches Some(wc) && wc.speeds@.len()
                == r.speeds@.len() && (forall|i: int|
                0 <= i < r.speeds@.len() ==> wc.speeds@[i]@ == #[trigger] r.speeds@[i]@),
    {
        let have = self.weighted_cache.is_some();
        if !have {
            let s = self.speeds();
            let w = compute_weighted(&s, &self.setups);
            proof {
                let c = self.speeds_cache_spec()->Some_0;
                lemma_weighted_ok_transfer(self.setups_spec(), s, c, rowm(w.speeds@));
            }
            self.weighted_cache = Some(w);
        }
        match &self.weighted_cache {
            Some(w) => {
                let copy = copy_weighted(w);
                proof {
                    assert(rowm(copy.speeds@) =~= rowm(w.speeds@));
                    assert forall|i: int|
                        0 <= i < copy.speeds@.len() implies (#[trigger] copy.speeds@[i]@).wf() by {
                        assert(copy.speeds@[i]@ == w.speeds@[i]@);
                    }
                }
                copy
            },
            None => {
                proof {
                    assert(false);
                }
                WeightedSpeeds { speeds: Vec::new() }
            },
        }
    }
}

/// A weight-only edit leaves every rate unchanged, so the nullspace
/// description still describes the chain.
proof fn lemma_weight_change_keeps_speeds(
    olds: Seq<Setup>,
    news: Seq<Setup>,
    explicit: Seq<Product>,
    s: Speeds,
)
    requires
        speeds_ok(olds, explicit, s),
        news.len() == olds.len(),
        forall|i: int|
            0 <= i < olds.len() ==> (#[trigger] news[i]).recipe == olds[i].recipe && news[i].machines
                == olds[i].machines,
    ensures
        speeds_ok(news, explicit, s),
{
    let n = olds.len() as int;
    let nb = count_true(s.weighted_setups@);
    assert forall|name: Seq<char>| #[trigger] chain_row(news, name) == chain_row(olds, name) by {
        assert forall|i: int| 0 <= i < n implies (#[trigger] news[i]).rate_spec(name) == olds[
        i].rate_spec(name) by {
            assert(news[i].speed_spec() == olds[i].speed_spec());
        }
        assert(chain_row(news, name) =~= chain_row(olds, name));
    }
    assert forall|name: Seq<char>| #[trigger] implicit_good(news, explicit, name) == implicit_good(
        olds,
        explicit,
        name,
    ) by {
        assert(someone_produces(news, name) == someone_produces(olds, name)) by {
            if someone_produces(news, name) {
                let i = choose|i: int|
                    0 <= i < news.len() && list_has((#[trigger] news[i]).recipe.produced@, name);
                assert(list_has(olds[i].recipe.produced@, name));
            }
            if someone_produces(olds, name) {
                let i = choose|i: int|
                    0 <= i < olds.len() && list_has((#[trigger] olds[i]).recipe.produced@, name);
                assert(list_has(news[i].recipe.produced@, name));
            }
        }
        assert(someone_consumes(news, name) == someone_consumes(olds, name)) by {
            if someone_consumes(news, name) {
                let i = choose|i: int|
                    0 <= i < news.len() && list_has((#[trigger] news[i]).recipe.consumed@, name);
                assert(list_has(olds[i].recipe.consumed@, name));
            }
            if someone_consumes(olds, name) {
                let i = choose|i: int|
                    0 <= i < olds.len() && list_has((#[trigger] olds[i]).recipe.consumed@, name);
                assert(list_has(news[i].recipe.consumed@, name));
            }
        }
    }
    assert forall|k: int, name: Seq<char>|
        0 <= k < nb && #[trigger] implicit_good(news, explicit, name) implies feq(
        fdot(chain_row(news, name), #[trigger] basis_vec(s.speeds@, n, k)),
        fzero(),
    ) by {
        assert(implicit_good(olds, explicit, name));
        assert(feq(fdot(chain_row(olds, name), basis_vec(s.speeds@, n, k)), fzero()));
        assert(chain_row(news, name) == chain_row(olds, name));
    }
    if forall|name: Seq<char>| !(#[trigger] implicit_good(news, explicit, name)) {
        assert forall|name: Seq<char>| !(#[trigger] implicit_good(olds, explicit, name)) by {
            assert(implicit_good(news, explicit, name) == implicit_good(olds, explicit, name));
        }
    }
    assert forall|v: Seq<Frac>, w: Seq<Frac>| #[trigger] balanced_determined(
        news,
        explicit,
        s.weighted_setups@,
        v,
        w,
    ) by {
        let fl = s.weighted_setups@;
        if v.len() == news.len() && w.len() == news.len() && fl.len() == news.len()
            && crate::fracseq::seq_wf(v) && crate::fracseq::seq_wf(w) && (forall|name: Seq<char>|
            #[trigger] implicit_good(news, explicit, name) ==> feq(
                fdot(chain_row(news, name), v),
                fzero(),
            )) && (forall|name: Seq<char>|
            #[trigger] implicit_good(news, explicit, name) ==> feq(
                fdot(chain_row(news, name), w),
                fzero(),
            )) && (forall|c: int|
            0 <= c < fl.len() && fl[c] ==> feq(#[trigger] v[c], #[trigger] w[c])) {
            assert forall|name: Seq<char>|
                #[trigger] implicit_good(olds, explicit, name) implies feq(
                fdot(chain_row(olds, name), v),
                fzero(),
            ) && feq(fdot(chain_row(olds, name), w), fzero()) by {
                assert(implicit_good(news, explicit, name) == implicit_good(olds, explicit, name));
                assert(feq(fdot(chain_row(news, name), v), fzero()));
                assert(feq(fdot(chain_row(news, name), w), fzero()));
                assert(chain_row(news, name) == chain_row(olds, name));
            }
            assert(balanced_determined(olds, explicit, fl, v, w));
        }
    }
    assert(pivots_bounded(news, explicit, s.weighted_setups@)) by {
        let gs = choose|gs: Seq<Seq<char>>|
            #![trigger gs.len()]
            (forall|a: int, b: int| 0 <= a < b < gs.len() ==> #[trigger] gs[a] != #[trigger] gs[b])
                && (forall|i: int|
                0 <= i < gs.len() ==> implicit_good(olds, explicit, #[trigger] gs[i]))
                && olds.len() - count_true(s.weighted_setups@) <= gs.len();
        assert forall|i: int| 0 <= i < gs.len() implies implicit_good(
            news,
            explicit,
            #[trigger] gs[i],
        ) by {
            assert(implicit_good(olds, explicit, gs[i]));
        }
        assert(news.len() - count_true(s.weighted_setups@) <= gs.len());
    }
}

/// The sequence with every product of the given name removed, in order.
pub open spec fn without_name(s: Seq<Product>, name: Seq<char>) -> Seq<Product>
    decreases s.len(),
{
    if s.len() == 0 {
        Seq::empty()
    } else {
        let rest = without_name(s.drop_last(), name);
        if s.last().name@ == name {
            rest
        } else {
            rest.push(s.last())
        }
    }
}

/// No product of the removed name survives the removal.
pub proof fn lemma_without_name_no_match(s: Seq<Product>, name: Seq<char>)
    ensures
        forall|j: int|
            0 <= j < without_name(s, name).len() ==> (#[trigger] without_name(s, name)[j]).name@
                != name,
    decreases s.len(),
{
    if s.len() > 0 {
        lemma_without_name_no_match(s.drop_last(), name);
        let rest = without_name(s.drop_last(), name);
        assert forall|j: int|
            0 <= j < without_name(s, name).len() implies (#[trigger] without_name(s, name)[
        j]).name@ != name by {
            if s.last().name@ == name {
                assert(without_name(s, name)[j] == rest[j]);
            } else {
                if j < rest.len() {
                    assert(without_name(s, name)[j] == rest[j]);
                } else {
                    assert(without_name(s, name)[j] == s.last());
                }
            }
        }
    }
}

/// A kept entry with the same fields extends the removal of the prefix.
proof fn lemma_without_name_push_keep(pre: Seq<Product>, last: Product, name: Seq<char>, entry: Product)
    requires
        last.name@ != name,
        entry == last,
    ensures
        without_name(pre.push(last), name) == without_name(pre, name).push(entry),
{
    assert(pre.push(last).drop_last() =~= pre);
    assert(pre.push(last).last() == last);
}

/// A vector of ones.
pub open spec fn all_ones(n: int) -> Seq<Frac> {
    Seq::new(n as nat, |i: int| fone())
}

/// What an aggregate result says: the energy draw and each good's flow
/// are the folds over the setups at the given speeds, with one entry per
/// touched good.
pub open spec fn products_ok(setups: Seq<Setup>, sp: Seq<Frac>, r: Products) -> bool {
    &&& r.eu_per_tick@.wf()
    &&& feq(r.eu_per_tick@, eu_flow_spec(setups, sp))
    &&& forall|i: int, j: int|
        0 <= i < j < r.products_per_sec@.len() ==> (#[trigger] r.products_per_sec@[i]).0.name@ != (
        #[trigger] r.products_per_sec@[j]).0.name@
    &&& forall|i: int|
        0 <= i < r.products_per_sec@.len() ==> (#[trigger] r.products_per_sec@[i]).1@.wf() && feq(
            r.products_per_sec@[i].1@,
            flow_spec(setups, sp, r.products_per_sec@[i].0.name@),
        )
    &&& forall|i: int|
        0 <= i < r.products_per_sec@.len() ==> chain_touches(
            setups,
            (#[trigger] r.products_per_sec@[i]).0.name@,
        )
    &&& forall|i: int, name: Seq<char>|
        0 <= i < setups.len() && #[trigger] setup_touches(setups[i], name) ==> pair_has_name(
            r.products_per_sec@,
            name,
        )
}

/// A copy of a nullspace description with the same views.
fn copy_speeds(s: &Speeds) -> (r: Speeds)
    ensures
        r.weighted_setups@ == s.weighted_setups@,
        r.speeds@.len() == s.speeds@.len(),
        forall|i: int| 0 <= i < s.speeds@.len() ==> r.speeds@[i]@ == #[trigger] s.speeds@[i]@,
{
    let mut flags: Vec<bool> = Vec::new();
    let mut i: usize = 0;
    while i < s.weighted_setups.len()
        invariant
            0 <= i <= s.weighted_setups@.len(),
            flags@ =~= s.weighted_setups@.take(i as int),
        decreases s.weighted_setups@.len() - i,
    {
        flags.push(s.weighted_setups[i]);
        proof {
            assert(flags@ =~= s.weighted_setups@.take(i as int + 1));
        }
        i = i + 1;
    }
    proof {
        assert(s.weighted_setups@.take(s.weighted_setups@.len() as int) =~= s.weighted_setups@);
    }
    let mut vals: Vec<Rat> = Vec::new();
    let mut j: usize = 0;
    while j < s.speeds.len()
        invariant
            0 <= j <= s.speeds@.len(),
            vals@.len() == j,
            forall|t: int| 0 <= t < j ==> vals@[t]@ == #[trigger] s.speeds@[t]@,
        decreases s.speeds@.len() - j,
    {
        vals.push(s.speeds[j].clone_rat());
        j = j + 1;
    }
    Speeds { weighted_setups: flags, speeds: vals }
}

/// A copy of a final speed vector with the same views.
fn copy_weighted(w: &WeightedSpeeds) -> (r: WeightedSpeeds)
    ensures
        r.speeds@.len() == w.speeds@.len(),
        forall|i: int| 0 <= i < w.speeds@.len() ==> r.speeds@[i]@ == #[trigger] w.speeds@[i]@,
{
    let mut vals: Vec<Rat> = Vec::new();
    let mut j: usize = 0;
    while j < w.speeds.len()
        invariant
            0 <= j <= w.speeds@.len(),
            vals@.len() == j,
            forall|t: int| 0 <= t < j ==> vals@[t]@ == #[trigger] w.speeds@[t]@,
        decreases w.speeds@.len() - j,
    {
        vals.push(w.speeds[j].clone_rat());
        j = j + 1;
    }
    WeightedSpeeds { speeds: vals }
}

/// A nullspace description transfers to any value with the same views.
proof fn lemma_speeds_ok_transfer(setups: Seq<Setup>, explicit: Seq<Product>, a: Speeds, b: Speeds)
    requires
        speeds_ok(setups, explicit, a),
        b.weighted_setups@ == a.weighted_setups@,
        b.speeds@.len() == a.speeds@.len(),
        forall|i: int| 0 <= i < a.speeds@.len() ==> b.speeds@[i]@ == #[trigger] a.speeds@[i]@,
    ensures
        speeds_ok(setups, explicit, b),
{
    let n = setups.len() as int;
    let nb = count_true(a.weighted_setups@);
    assert(row_wf(b.speeds@)) by {
        assert forall|i: int| 0 <= i < b.speeds@.len() implies (#[trigger] b.speeds@[i]@).wf() by {
            assert(b.speeds@[i]@ == a.speeds@[i]@);
        }
    }
    assert forall|k: int| 0 <= k < nb implies #[trigger] basis_vec(b.speeds@, n, k) == basis_vec(
        a.speeds@,
        n,
        k,
    ) by {
        lemma_basis_vec_same(a.speeds@, b.speeds@, n, k, nb);
    }
    assert forall|ck: int, k: int|
        0 <= ck < n && a.weighted_setups@[ck] && k == count_true(
            a.weighted_setups@.take(ck),
        ) implies feq(#[trigger] basis_vec(b.speeds@, n, k)[ck], fone()) by {
        crate::nullspace::lemma_count_true_at(a.weighted_setups@, ck);
        lemma_basis_vec_same(a.speeds@, b.speeds@, n, k, nb);
    }
    assert forall|ck: int, k: int, q: int|
        #![trigger basis_vec(b.speeds@, n, k)[q], b.weighted_setups@.take(ck)]
        0 <= ck < n && a.weighted_setups@[ck] && k == count_true(a.weighted_setups@.take(ck)) && ck
            < q < n implies (basis_vec(b.speeds@, n, k)[q]).is_zero() by {
        crate::nullspace::lemma_count_true_at(a.weighted_setups@, ck);
        lemma_basis_vec_same(a.speeds@, b.speeds@, n, k, nb);
        assert((basis_vec(a.speeds@, n, k)[q]).is_zero());
    }
    assert forall|ck: int, k: int, q: int|
        #![trigger basis_vec(b.speeds@, n, k)[q], b.weighted_setups@.take(ck)]
        0 <= ck < n && a.weighted_setups@[ck] && k == count_true(a.weighted_setups@.take(ck)) && 0
            <= q < ck && a.weighted_setups@[q] implies (basis_vec(
        b.speeds@,
        n,
        k,
    )[q]).is_zero() by {
        crate::nullspace::lemma_count_true_at(a.weighted_setups@, ck);
        lemma_basis_vec_same(a.speeds@, b.speeds@, n, k, nb);
        assert((basis_vec(a.speeds@, n, k)[q]).is_zero());
    }
}

/// One basis vector depends only on the views of the flat basis.
proof fn lemma_basis_vec_same(abasis: Seq<Rat>, bbasis: Seq<Rat>, n: int, k: int, nb: int)
    requires
        abasis.len() == nb * n,
        bbasis.len() == abasis.len(),
        forall|i: int| 0 <= i < abasis.len() ==> bbasis[i]@ == #[trigger] abasis[i]@,
        0 <= k < nb,
        n >= 0,
    ensures
        basis_vec(bbasis, n, k) == basis_vec(abasis, n, k),
{
    assert(0 <= k * n && k * n + n <= nb * n) by (nonlinear_arith)
        requires
            0 <= k < nb,
            n >= 0,
    ;
    assert(basis_vec(bbasis, n, k) =~= basis_vec(abasis, n, k)) by {
        assert forall|q: int| 0 <= q < n implies basis_vec(bbasis, n, k)[q] == basis_vec(
            abasis,
            n,
            k,
        )[q] by {
            assert(basis_vec(bbasis, n, k)[q] == bbasis[k * n + q]@);
            assert(basis_vec(abasis, n, k)[q] == abasis[k * n + q]@);
        }
    }
}

/// The weighting outcome transfers across equal nullspace views.
proof fn lemma_weighted_ok_transfer(setups: Seq<Setup>, a: Speeds, b: Speeds, w: Seq<Frac>)
    requires
        weighted_ok(setups, a, w),
        a.speeds@.len() == count_true(a.weighted_setups@) * setups.len(),
        b.weighted_setups@ == a.weighted_setups@,
        b.speeds@.len() == a.speeds@.len(),
        forall|i: int| 0 <= i < a.speeds@.len() ==> b.speeds@[i]@ == #[trigger] a.speeds@[i]@,
    ensures
        weighted_ok(setups, b, w),
{
    let nb = count_true(a.weighted_setups@);
    lemma_ws_acc_same(a.speeds@, b.speeds@, a.weighted_setups@, setups, nb, nb);
}

/// The weighting accumulator depends only on the views of the basis.
proof fn lemma_ws_acc_same(
    abasis: Seq<Rat>,
    bbasis: Seq<Rat>,
    fl: Seq<bool>,
    setups: Seq<Setup>,
    k: int,
    nb: int,
)
    requires
        abasis.len() == nb * setups.len(),
        bbasis.len() == abasis.len(),
        forall|i: int| 0 <= i < abasis.len() ==> bbasis[i]@ == #[trigger] abasis[i]@,
        k <= nb,
    ensures
        ws_acc(bbasis, fl, setups, k) == ws_acc(abasis, fl, setups, k),
    decreases k,
{
    let n = setups.len() as int;
    if k > 0 {
        lemma_ws_acc_same(abasis, bbasis, fl, setups, k - 1, nb);
        lemma_basis_vec_same_gen(abasis, bbasis, n, k - 1, nb);
        assert(ws_acc(bbasis, fl, setups, k) =~= ws_acc(abasis, fl, setups, k));
    } else {
        assert(ws_acc(bbasis, fl, setups, k) =~= ws_acc(abasis, fl, setups, k));
    }
}

/// Like `lemma_basis_vec_same`, with the length given as `nb * n`.
proof fn lemma_basis_vec_same_gen(abasis: Seq<Rat>, bbasis: Seq<Rat>, n: int, k: int, nb: int)
    requires
        abasis.len() == nb * n,
        bbasis.len() == abasis.len(),
        forall|i: int| 0 <= i < abasis.len() ==> bbasis[i]@ == #[trigger] abasis[i]@,
        0 <= k < nb,
        n >= 0,
    ensures
        basis_vec(bbasis, n, k) == basis_vec(abasis, n, k),
{
    lemma_basis_vec_same(abasis, bbasis, n, k, nb);
}

/// The distinct goods any setup touches.
pub fn chain_products(setups: &Vec<Setup>) -> (all: Vec<Product>)
    ensures
        names_distinct(all@),
        forall|j: int|
            0 <= j < all@.len() ==> chain_touches(setups@, (#[trigger] all@[j]).name@),
        forall|i: int, name: Seq<char>|
            0 <= i < setups@.len() && #[trigger] setup_touches(setups@[i], name) ==> has_name(
                all@,
                name,
            ),
{
    let n = setups.len();
    let mut all: Vec<Product> = Vec::new();
    let mut t: usize = 0;
    while t < n
        invariant
            n == setups@.len(),
            0 <= t <= n,
            names_distinct(all@),
            forall|j: int|
                0 <= j < all@.len() ==> touched_by_prefix(
                    setups@,
                    t as int,
                    (#[trigger] all@[j]).name@,
                ),
            forall|i: int, name: Seq<char>|
                0 <= i < t && #[trigger] setup_touches(setups@[i], name) ==> has_name(all@, name),
        decreases n - t,
    {
        let more = setups[t].recipe.products();
        let merged = merge_names(&all, &more);
        proof {
            let nc = setups@[t as int].recipe.consumed@.len() as int;
            assert forall|i: int, name: Seq<char>|
                0 <= i < t + 1 && #[trigger] setup_touches(setups@[i], name) implies has_name(
                merged@,
                name,
            ) by {
                if i < t {
                    assert(has_name(all@, name));
                    let x0 = choose|x: int|
                        0 <= x < all@.len() && (#[trigger] all@[x]).name@ == name;
                    assert(has_name(merged@, all@[x0].name@));
                } else {
                    if list_has(setups@[t as int].recipe.consumed@, name) {
                        let x = choose|x: int|
                            0 <= x < setups@[t as int].recipe.consumed@.len() && (
                            #[trigger] setups@[t as int].recipe.consumed@[x]).product.name@
                                == name;
                        assert(more@[x].name@ == name);
                        assert(has_name(more@, more@[x].name@));
                        let y = choose|y: int|
                            0 <= y < more@.len() && (#[trigger] more@[y]).name@ == name;
                        assert(has_name(merged@, more@[y].name@));
                    } else {
                        let x = choose|x: int|
                            0 <= x < setups@[t as int].recipe.produced@.len() && (
                            #[trigger] setups@[t as int].recipe.produced@[x]).product.name@
                                == name;
                        assert(more@[nc + x].name@ == name);
                        assert(has_name(more@, more@[nc + x].name@));
                        let y = choose|y: int|
                            0 <= y < more@.len() && (#[trigger] more@[y]).name@ == name;
                        assert(has_name(merged@, more@[y].name@));
                    }
                }
            }
            assert forall|j: int| 0 <= j < merged@.len() implies touched_by_prefix(
                setups@,
                t as int + 1,
                (#[trigger] merged@[j]).name@,
            ) by {
                if has_name(all@, merged@[j].name@) {
                    let x0 = choose|x: int|
                        0 <= x < all@.len() && (#[trigger] all@[x]).name@ == merged@[j].name@;
                    assert(touched_by_prefix(setups@, t as int, all@[x0].name@));
                    let i0 = choose|i: int|
                        0 <= i < t && i < setups@.len() && #[trigger] setup_touches(
                            setups@[i],
                            all@[x0].name@,
                        );
                    assert(setup_touches(setups@[i0], merged@[j].name@));
                } else {
                    assert(has_name(more@, merged@[j].name@));
                    let y = choose|y: int|
                        0 <= y < more@.len() && (#[trigger] more@[y]).name@ == merged@[j].name@;
                    if y < nc {
                        assert(setups@[t as int].recipe.consumed@[y].product.name@ == merged@[
                        j].name@);
                        assert(setup_touches(setups@[t as int], merged@[j].name@));
                    } else {
                        assert(more@[nc + (y - nc)].name@ == setups@[t as int].recipe.produced@[y
                            - nc].product.name@);
                        assert(setup_touches(setups@[t as int], merged@[j].name@));
                    }
                }
            }
        }
        all = merged;
        t = t + 1;
    }
    proof {
        assert forall|j: int| 0 <= j < all@.len() implies chain_touches(
            setups@,
            (#[trigger] all@[j]).name@,
        ) by {
            assert(touched_by_prefix(setups@, n as int, all@[j].name@));
            let i0 = choose|i: int|
                0 <= i < n && i < setups@.len() && #[trigger] setup_touches(
                    setups@[i],
                    all@[j].name@,
                );
            assert(setup_touches(setups@[i0], all@[j].name@));
        }
    }
    all
}

/// Extends a distinct name list with the new names of another list.
fn merge_names(base: &Vec<Product>, more: &Vec<Product>) -> (r: Vec<Product>)
    requires
        names_distinct(base@),
    ensures
        names_distinct(r@),
        forall|j: int| 0 <= j < base@.len() ==> has_name(r@, (#[trigger] base@[j]).name@),
        forall|j: int| 0 <= j < more@.len() ==> has_name(r@, (#[trigger] more@[j]).name@),
        forall|j: int|
            0 <= j < r@.len() ==> has_name(base@, (#[trigger] r@[j]).name@) || has_name(
                more@,
                (#[trigger] r@[j]).name@,
            ),
{
    let mut out: Vec<Product> = Vec::new();
    let nb = base.len();
    let mut i: usize = 0;
    while i < nb
        invariant
            names_distinct(base@),
            nb == base@.len(),
            0 <= i <= nb,
            out@.len() == i,
            forall|j: int| 0 <= j < i ==> (#[trigger] out@[j]).name@ == base@[j].name@,
            names_distinct(out@),
        decreases nb - i,
    {
        out.push(base[i].duplicate());
        proof {
            assert forall|a: int, b: int|
                0 <= a < b < out@.len() implies (#[trigger] out@[a]).name@ != (
            #[trigger] out@[b]).name@ by {
                assert(base@[a].name@ != base@[b].name@);
            }
        }
        i = i + 1;
    }
    proof {
        assert forall|t2: int| 0 <= t2 < nb implies has_name(
            out@,
            (#[trigger] base@[t2]).name@,
        ) by {
            assert(out@[t2].name@ == base@[t2].name@);
        }
    }
    let nm = more.len();
    let mut j: usize = 0;
    while j < nm
        invariant
            nb == base@.len(),
            nm == more@.len(),
            0 <= j <= nm,
            names_distinct(out@),
            forall|t: int| 0 <= t < nb ==> has_name(out@, (#[trigger] base@[t]).name@),
            forall|t: int| 0 <= t < j ==> has_name(out@, (#[trigger] more@[t]).name@),
            forall|t: int|
                0 <= t < out@.len() ==> has_name(base@, (#[trigger] out@[t]).name@) || has_name(
                    more@,
                    (#[trigger] out@[t]).name@,
                ),
        decreases nm - j,
    {
        let ghost out0 = out@;
        let mut present = false;
        let m = out.len();
        let mut x: usize = 0;
        while x < m && !present
            invariant
                m == out@.len(),
                0 <= x <= m,
                j < more@.len(),
                present ==> has_name(out@, more@[j as int].name@),
                !present ==> forall|y: int|
                    0 <= y < x ==> (#[trigger] out@[y]).name@ != more@[j as int].name@,
            decreases m - x + (if present {
                0int
            } else {
                1int
            }),
        {
            if out[x].same(&more[j]) {
                present = true;
            } else {
                x = x + 1;
            }
        }
        if !present {
            out.push(more[j].duplicate());
        }
        proof {
            assert forall|t: int| 0 <= t < nb implies has_name(
                out@,
                (#[trigger] base@[t]).name@,
            ) by {
                assert(has_name(out0, base@[t].name@));
                let y = choose|y: int|
                    0 <= y < out0.len() && (#[trigger] out0[y]).name@ == base@[t].name@;
                assert(out@[y].name@ == base@[t].name@);
            }
            assert forall|t: int| 0 <= t < j + 1 implies has_name(
                out@,
                (#[trigger] more@[t]).name@,
            ) by {
                if t < j {
                    assert(has_name(out0, more@[t].name@));
                    let y = choose|y: int|
                        0 <= y < out0.len() && (#[trigger] out0[y]).name@ == more@[t].name@;
                    assert(out@[y].name@ == more@[t].name@);
                } else {
                    if present {
                        let y = choose|y: int|
                            0 <= y < out0.len() && (#[trigger] out0[y]).name@ == more@[
                            j as int].name@;
                        assert(out@[y].name@ == more@[t].name@);
                    } else {
                        assert(out@[out@.len() - 1].name@ == more@[t].name@);
                    }
                }
            }
            assert forall|t: int| 0 <= t < out@.len() implies has_name(
                base@,
                (#[trigger] out@[t]).name@,
            ) || has_name(more@, (#[trigger] out@[t]).name@) by {
                if t < out0.len() {
                    assert(has_name(base@, out0[t].name@) || has_name(more@, out0[t].name@));
                    assert(out@[t].name@ == out0[t].name@);
                } else {
                    assert(out@[t].name@ == more@[j as int].name@);
                    assert(has_name(more@, more@[j as int].name@));
                }
            }
        }
        j = j + 1;
    }
    out
}

/// Computes the aggregate flows of a chain at the given speeds.
fn aggregate_products(setups: &Vec<Setup>, sp: &Vec<Rat>) -> (r: Products)
    requires
        setups_wf(setups@),
        sp@.len() == setups@.len(),
        row_wf(sp@),
    ensures
        products_ok(setups@, rowm(sp@), r),
{
    let n = setups.len();
    let goods = chain_products(setups);
    let ghost spv = rowm(sp@);
    proof {
        assert(spv.len() == n);
        assert forall|i: int| 0 <= i < n implies (#[trigger] spv[i]).wf() by {
            assert(spv[i] == sp@[i]@);
        }
    }
    // energy
    let mut eu = Rat::zero();
    let mut t: usize = 0;
    proof {
        assert(setups@.take(0) =~= Seq::<Setup>::empty());
        assert(spv.take(0) =~= Seq::<Frac>::empty());
    }
    while t < n
        invariant
            setups_wf(setups@),
            n == setups@.len(),
            sp@.len() == n,
            row_wf(sp@),
            spv == rowm(sp@),
            0 <= t <= n,
            eu@.wf(),
            feq(eu@, eu_flow_spec(setups@.take(t as int), spv.take(t as int))),
        decreases n - t,
    {
        let term = setups[t].eu_per_tick();
        let scaled = term.mul(&sp[t]);
        let eu2 = eu.add(&scaled);
        proof {
            let pre = setups@.take(t as int);
            let pre2 = setups@.take(t as int + 1);
            let sp1 = spv.take(t as int);
            let sp2 = spv.take(t as int + 1);
            assert(pre2.drop_last() =~= pre);
            assert(sp2.drop_last() =~= sp1);
            assert(pre2.last() == setups@[t as int]);
            assert(sp2[pre2.len() - 1] == spv[t as int]);
            assert(spv[t as int] == sp@[t as int]@);
            lemma_eu_flow_wf(pre, sp1);
            lemma_setup_eu_wf(setups@[t as int]);
            lemma_fmul_congr(term@, sp@[t as int]@, setups@[t as int].eu_spec(), spv[t as int]);
            lemma_fmul_wf(term@, sp@[t as int]@);
            lemma_fmul_wf(setups@[t as int].eu_spec(), spv[t as int]);
            lemma_feq_trans(
                scaled@,
                fmul(term@, sp@[t as int]@),
                fmul(setups@[t as int].eu_spec(), spv[t as int]),
            );
            lemma_fadd_congr(
                eu@,
                scaled@,
                eu_flow_spec(pre, sp1),
                fmul(setups@[t as int].eu_spec(), spv[t as int]),
            );
            lemma_fadd_wf(eu@, scaled@);
            lemma_fadd_wf(
                eu_flow_spec(pre, sp1),
                fmul(setups@[t as int].eu_spec(), spv[t as int]),
            );
            lemma_feq_trans(
                eu2@,
                fadd(eu@, scaled@),
                fadd(eu_flow_spec(pre, sp1), fmul(setups@[t as int].eu_spec(), spv[t as int])),
            );
            assert(eu_flow_spec(pre2, sp2) == fadd(
                eu_flow_spec(pre, sp1),
                fmul(setups@[t as int].eu_spec(), spv[t as int]),
            ));
        }
        eu = eu2;
        t = t + 1;
    }
    proof {
        assert(setups@.take(n as int) =~= setups@);
        assert(spv.take(n as int) =~= spv);
    }
    // per-good flows
    let mut flows: Vec<(Product, Rat)> = Vec::new();
    let gn = goods.len();
    let mut g: usize = 0;
    while g < gn
        invariant
            setups_wf(setups@),
            n == setups@.len(),
            sp@.len() == n,
            row_wf(sp@),
            spv == rowm(sp@),
            gn == goods@.len(),
            names_distinct(goods@),
            forall|j: int|
                0 <= j < goods@.len() ==> chain_touches(setups@, (#[trigger] goods@[j]).name@),
            forall|i: int, name: Seq<char>|
                0 <= i < setups@.len() && #[trigger] setup_touches(setups@[i], name) ==> has_name(
                    goods@,
                    name,
                ),
            0 <= g <= gn,
            flows@.len() == g,
            forall|j: int| 0 <= j < g ==> (#[trigger] flows@[j]).0.name@ == goods@[j].name@,
            forall|j: int|
                0 <= j < g ==> (#[trigger] flows@[j]).1@.wf() && feq(
                    flows@[j].1@,
                    flow_spec(setups@, spv, flows@[j].0.name@),
                ),
        decreases gn - g,
    {
        let mut acc = Rat::zero();
        let mut t2: usize = 0;
        proof {
            assert(setups@.take(0) =~= Seq::<Setup>::empty());
            assert(spv.take(0) =~= Seq::<Frac>::empty());
        }
        while t2 < n
            invariant
                setups_wf(setups@),
                n == setups@.len(),
                sp@.len() == n,
                row_wf(sp@),
                spv == rowm(sp@),
                gn == goods@.len(),
                g < gn,
                0 <= t2 <= n,
                acc@.wf(),
                feq(
                    acc@,
                    flow_spec(
                        setups@.take(t2 as int),
                        spv.take(t2 as int),
                        goods@[g as int].name@,
                    ),
                ),
            decreases n - t2,
        {
            let rate = setups[t2].rate_of(&goods[g]);
            let scaled = rate.mul(&sp[t2]);
            let acc2 = acc.add(&scaled);
            proof {
                let name = goods@[g as int].name@;
                let pre = setups@.take(t2 as int);
                let pre2 = setups@.take(t2 as int + 1);
                let sp1 = spv.take(t2 as int);
                let sp2 = spv.take(t2 as int + 1);
                assert(pre2.drop_last() =~= pre);
                assert(sp2.drop_last() =~= sp1);
                assert(pre2.last() == setups@[t2 as int]);
                assert(sp2[pre2.len() - 1] == spv[t2 as int]);
                assert(spv[t2 as int] == sp@[t2 as int]@);
                lemma_flow_wf(pre, sp1, name);
                lemma_rate_spec_wf(setups@[t2 as int], name);
                lemma_fmul_congr(
                    rate@,
                    sp@[t2 as int]@,
                    setups@[t2 as int].rate_spec(name),
                    spv[t2 as int],
                );
                lemma_fmul_wf(rate@, sp@[t2 as int]@);
                lemma_fmul_wf(setups@[t2 as int].rate_spec(name), spv[t2 as int]);
                lemma_feq_trans(
                    scaled@,
                    fmul(rate@, sp@[t2 as int]@),
                    fmul(setups@[t2 as int].rate_spec(name), spv[t2 as int]),
                );
                lemma_fadd_congr(
                    acc@,
                    scaled@,
                    flow_spec(pre, sp1, name),
                    fmul(setups@[t2 as int].rate_spec(name), spv[t2 as int]),
                );
                lemma_fadd_wf(acc@, scaled@);
                lemma_fadd_wf(
                    flow_spec(pre, sp1, name),
                    fmul(setups@[t2 as int].rate_spec(name), spv[t2 as int]),
                );
                lemma_feq_trans(
                    acc2@,
                    fadd(acc@, scaled@),
                    fadd(
                        flow_spec(pre, sp1, name),
                        fmul(setups@[t2 as int].rate_spec(name), spv[t2 as int]),
                    ),
                );
                assert(flow_spec(pre2, sp2, name) == fadd(
                    flow_spec(pre, sp1, name),
                    fmul(setups@[t2 as int].rate_spec(name), spv[t2 as int]),
                ));
            }
            acc = acc2;
            t2 = t2 + 1;
        }
        proof {
            assert(setups@.take(n as int) =~= setups@);
            assert(spv.take(n as int) =~= spv);
        }
        flows.push((goods[g].duplicate(), acc));
        g = g + 1;
    }
    let r = Products { eu_per_tick: eu, products_per_sec: flows };
    proof {
        assert forall|i: int, j: int|
            0 <= i < j < r.products_per_sec@.len() implies (#[trigger] r.products_per_sec@[
        i]).0.name@ != (#[trigger] r.products_per_sec@[j]).0.name@ by {
            assert(goods@[i].name@ != goods@[j].name@);
        }
        assert forall|i: int|
            0 <= i < r.products_per_sec@.len() implies chain_touches(
            setups@,
            (#[trigger] r.products_per_sec@[i]).0.name@,
        ) by {
            assert(chain_touches(setups@, goods@[i].name@));
        }
        assert forall|i: int, name: Seq<char>|
            0 <= i < setups@.len() && #[trigger] setup_touches(setups@[i], name) implies
            pair_has_name(r.products_per_sec@, name) by {
            assert(has_name(goods@, name));
            let x = choose|x: int| 0 <= x < goods@.len() && (#[trigger] goods@[x]).name@ == name;
            assert(r.products_per_sec@[x].0.name@ == name);
        }
    }
    r
}

/// The energy fold is well-formed.
pub proof fn lemma_eu_flow_wf(setups: Seq<Setup>, sp: Seq<Frac>)
    requires
        setups_wf(setups),
        sp.len() == setups.len(),
        crate::fracseq::seq_wf(sp),
    ensures
        eu_flow_spec(setups, sp).wf(),
    decreases setups.len(),
{
    if setups.len() > 0 {
        assert(setups_wf(setups.drop_last()));
        assert(crate::fracseq::seq_wf(sp.drop_last()));
        lemma_eu_flow_wf(setups.drop_last(), sp.drop_last());
        lemma_setup_eu_wf(setups.last());
        lemma_fmul_wf(setups.last().eu_spec(), sp[setups.len() - 1]);
        lemma_fadd_wf(
            eu_flow_spec(setups.drop_last(), sp.drop_last()),
            fmul(setups.last().eu_spec(), sp[setups.len() - 1]),
        );
    }
}

/// A setup's energy draw is a well-formed fraction.
pub proof fn lemma_setup_eu_wf(s: Setup)
    ensures
        s.eu_spec().wf(),
{
}

/// The flow fold is well-formed.
pub proof fn lemma_flow_wf(setups: Seq<Setup>, sp: Seq<Frac>, name: Seq<char>)
    requires
        setups_wf(setups),
        sp.len() == setups.len(),
        crate::fracseq::seq_wf(sp),
    ensures
        flow_spec(setups, sp, name).wf(),
    decreases setups.len(),
{
    if setups.len() > 0 {
        assert(setups_wf(setups.drop_last()));
        assert(crate::fracseq::seq_wf(sp.drop_last()));
        lemma_flow_wf(setups.drop_last(), sp.drop_last(), name);
        lemma_rate_spec_wf(setups.last(), name);
        lemma_fmul_wf(setups.last().rate_spec(name), sp[setups.len() - 1]);
        lemma_fadd_wf(
            flow_spec(setups.drop_last(), sp.drop_last(), name),
            fmul(setups.last().rate_spec(name), sp[setups.len() - 1]),
        );
    }
}

/// Law: the nullspace description is canonical: two descriptions of the
/// same chain that mark the same setups free carry the same basis, up to
/// equality of the denoted rationals. With the weighting determined by
/// the basis, recomputing the equilibrium of an identical chain yields
/// identical speeds.
pub proof fn lemma_basis_canonical(
    setups: Seq<Setup>,
    explicit: Seq<Product>,
    s1: Speeds,
    s2: Speeds,
)
    requires
        speeds_ok(setups, explicit, s1),
        speeds_ok(setups, explicit, s2),
        s1.weighted_setups@ == s2.weighted_setups@,
    ensures
        forall|k: int, q: int|
            #![trigger basis_vec(s1.speeds@, setups.len() as int, k)[q], basis_vec(s2.speeds@, setups.len() as int, k)[q]]
            0 <= k < count_true(s1.weighted_setups@) && 0 <= q < setups.len() ==> feq(
                basis_vec(s1.speeds@, setups.len() as int, k)[q],
                basis_vec(s2.speeds@, setups.len() as int, k)[q],
            ),
{
    let n = setups.len() as int;
    let fl = s1.weighted_setups@;
    let nb = count_true(fl);
    assert forall|k: int, q: int|
        #![trigger basis_vec(s1.speeds@, n, k)[q], basis_vec(s2.speeds@, n, k)[q]]
        0 <= k < nb && 0 <= q < n implies feq(
        basis_vec(s1.speeds@, n, k)[q],
        basis_vec(s2.speeds@, n, k)[q],
    ) by {
        let v = basis_vec(s1.speeds@, n, k);
        let w = basis_vec(s2.speeds@, n, k);
        lemma_basis_vec_shape(setups, explicit, s1, k);
        lemma_basis_vec_shape(setups, explicit, s2, k);
        // the two vectors agree on every free column, so by determinacy
        // they agree everywhere
        assert forall|c: int| 0 <= c < fl.len() && fl[c] implies feq(
            #[trigger] v[c],
            #[trigger] w[c],
        ) by {
            let ck = nth_free(fl, k);
            crate::nullspace::lemma_count_true_at(fl, c);
            lemma_nth_free(fl, count_true(fl.take(c)), c);
            if count_true(fl.take(c)) == k {
                // the vector's own free column: both are one
                assert(feq(v[c], fone()) && feq(w[c], fone()));
                crate::frac::lemma_feq_sym(w[c], fone());
                crate::frac::lemma_feq_trans(v[c], fone(), w[c]);
            } else {
                // another free column: both are zero
                assert(v[c].is_zero() && w[c].is_zero());
                crate::frac::lemma_zero_feq(v[c]);
                crate::frac::lemma_zero_feq(w[c]);
                crate::frac::lemma_feq_sym(w[c], fzero());
                crate::frac::lemma_feq_trans(v[c], fzero(), w[c]);
            }
        }
        assert(balanced_determined(setups, explicit, fl, v, w));
    }
}

/// One basis vector of a conforming description: as long as the chain,
/// well-formed, balancing every implicit good, one at its own free
/// column and zero at every other free column.
proof fn lemma_basis_vec_shape(setups: Seq<Setup>, explicit: Seq<Product>, s: Speeds, k: int)
    requires
        speeds_ok(setups, explicit, s),
        0 <= k < count_true(s.weighted_setups@),
    ensures
        basis_vec(s.speeds@, setups.len() as int, k).len() == setups.len(),
        crate::fracseq::seq_wf(basis_vec(s.speeds@, setups.len() as int, k)),
        forall|name: Seq<char>|
            #[trigger] implicit_good(setups, explicit, name) ==> feq(
                fdot(chain_row(setups, name), basis_vec(s.speeds@, setups.len() as int, k)),
                fzero(),
            ),
        forall|c: int|
            0 <= c < setups.len() && s.weighted_setups@[c] ==> if count_true(
                s.weighted_setups@.take(c),
            ) == k {
                feq(#[trigger] basis_vec(s.speeds@, setups.len() as int, k)[c], fone())
            } else {
                (basis_vec(s.speeds@, setups.len() as int, k)[c]).is_zero()
            },
{
    let n = setups.len() as int;
    let fl = s.weighted_setups@;
    let nb = count_true(fl);
    assert(0 <= k * n && k * n + n <= nb * n) by (nonlinear_arith)
        requires
            0 <= k < nb,
            n >= 0,
    ;
    assert(s.speeds@.len() == nb * n);
    let v = basis_vec(s.speeds@, n, k);
    assert(v.len() == n);
    assert forall|q: int| 0 <= q < n implies (#[trigger] v[q]).wf() by {
        crate::nullspace::lemma_flat_index_bound(k, q, nb, n);
        assert(v[q] == s.speeds@[k * n + q]@);
    }
    assert forall|c: int| 0 <= c < n && fl[c] implies if count_true(fl.take(c)) == k {
        feq(#[trigger] v[c], fone())
    } else {
        v[c].is_zero()
    } by {
        let kc = count_true(fl.take(c));
        crate::nullspace::lemma_count_true_at(fl, c);
        if kc == k {
        } else if kc < k {
            // this free column lies left of the vector's own one
            let ck = nth_free(fl, k);
            lemma_nth_free_exists(fl, k);
            assert(0 <= ck < n && fl[ck] && count_true(fl.take(ck)) == k);
            assert(c < ck) by {
                if c == ck {
                } else if c > ck {
                    lemma_true_positions_ordered(fl, ck, c);
                }
            }
            assert(v[c].is_zero());
        } else {
            // this free column lies right of the vector's own one
            let ck = nth_free(fl, k);
            lemma_nth_free_exists(fl, k);
            assert(0 <= ck < n && fl[ck] && count_true(fl.take(ck)) == k);
            assert(ck < c) by {
                if c == ck {
                } else if c < ck {
                    lemma_true_positions_ordered(fl, c, ck);
                }
            }
            assert(v[c].is_zero());
        }
    }
}

/// Every ordinal below the count has a free column.
proof fn lemma_nth_free_exists(fl: Seq<bool>, k: int)
    requires
        0 <= k < count_true(fl),
    ensures
        0 <= nth_free(fl, k) < fl.len(),
        fl[nth_free(fl, k)],
        count_true(fl.take(nth_free(fl, k))) == k,
    decreases fl.len(),
{
    assert(exists|ck: int|
        0 <= ck < fl.len() && fl[ck] && count_true(fl.take(ck)) == k) by {
        lemma_some_free_position(fl, k);
    }
}

/// There is a position whose prefix counts exactly `k` trues and which
/// holds a true flag.
proof fn lemma_some_free_position(fl: Seq<bool>, k: int)
    requires
        0 <= k < count_true(fl),
    ensures
        exists|ck: int| 0 <= ck < fl.len() && fl[ck] && count_true(fl.take(ck)) == k,
    decreases fl.len(),
{
    crate::nullspace::lemma_count_true_bounds(fl);
    let last = fl.len() - 1;
    assert(fl.take(fl.len() as int) =~= fl);
    crate::nullspace::lemma_count_take_step(fl, last);
    if fl[last] && count_true(fl.take(last)) == k {
        assert(0 <= last < fl.len() && fl[last] && count_true(fl.take(last)) == k);
    } else {
        // the sought position lies in the prefix
        assert(k < count_true(fl.take(last)));
        lemma_some_free_position(fl.take(last), k);
        let ck = choose|ck: int|
            0 <= ck < fl.take(last).len() && fl.take(last)[ck] && count_true(
                fl.take(last).take(ck),
            ) == k;
        assert(fl.take(last).take(ck) =~= fl.take(ck));
        assert(0 <= ck < fl.len() && fl[ck] && count_true(fl.take(ck)) == k);
    }
}

/// Law: a chain without implicit goods has no balance constraint, so
/// every setup runs at full relative speed one.
pub proof fn lemma_no_implicit_all_ones(
    setups: Seq<Setup>,
    explicit: Seq<Product>,
    s: Speeds,
    w: Seq<Frac>,
)
    requires
        speeds_ok(setups, explicit, s),
        weighted_ok(setups, s, w),
        forall|name: Seq<char>| !(#[trigger] implicit_good(setups, explicit, name)),
    ensures
        forall|i: int| 0 <= i < setups.len() ==> feq(#[trigger] w[i], fone()),
{
    assert(count_true(s.weighted_setups@) == setups.len());
}

/// Law: when the weighting divides by a nonzero maximum, some setup ends
/// at relative speed exactly one, and with a positive maximum no setup
/// ends above one.
pub proof fn lemma_fastest_speed_is_one(setups: Seq<Setup>, s: Speeds, w: Seq<Frac>)
    requires
        weighted_ok(setups, s, w),
        s.speeds@.len() == count_true(s.weighted_setups@) * setups.len(),
        row_wf(s.speeds@),
        count_true(s.weighted_setups@) < setups.len(),
        exists|mx: int|
            #[trigger] is_max(
                ws_acc(s.speeds@, s.weighted_setups@, setups, count_true(s.weighted_setups@)),
                mx,
            ) && !ws_acc(
                s.speeds@,
                s.weighted_setups@,
                setups,
                count_true(s.weighted_setups@),
            )[mx].is_zero(),
    ensures
        exists|i: int| 0 <= i < setups.len() && feq(#[trigger] w[i], fone()),
        (forall|mx: int|
            #[trigger] is_max(
                ws_acc(s.speeds@, s.weighted_setups@, setups, count_true(s.weighted_setups@)),
                mx,
            ) ==> ws_acc(
                s.speeds@,
                s.weighted_setups@,
                setups,
                count_true(s.weighted_setups@),
            )[mx].num >= 0) ==> forall|j: int|
            0 <= j < setups.len() ==> !flt(fone(), #[trigger] w[j]),
{
    let n = setups.len() as int;
    let nb = count_true(s.weighted_setups@);
    let acc = ws_acc(s.speeds@, s.weighted_setups@, setups, nb);
    crate::nullspace::lemma_count_true_bounds(s.weighted_setups@);
    lemma_ws_acc_wf_all(s.speeds@, s.weighted_setups@, setups, nb, n, nb);
    let mx = choose|mx: int|
        #[trigger] is_max(acc, mx) && !acc[mx].is_zero() && (forall|i: int|
            0 <= i < n ==> feq(#[trigger] w[i], fdiv(acc[i], acc[mx])));
    crate::frac::lemma_fdiv_self(acc[mx]);
    crate::frac::lemma_fdiv_wf(acc[mx], acc[mx]);
    assert(feq(w[mx], fdiv(acc[mx], acc[mx])));
    crate::frac::lemma_feq_trans(w[mx], fdiv(acc[mx], acc[mx]), fone());
    assert(0 <= mx < n && feq(w[mx], fone()));
    if forall|m2: int| #[trigger] is_max(acc, m2) ==> acc[m2].num >= 0 {
        assert(acc[mx].num > 0) by {
            assert(is_max(acc, mx));
        }
        assert forall|j: int| 0 <= j < n implies !flt(fone(), #[trigger] w[j]) by {
            assert(!flt(acc[mx], acc[j]));
            assert(!flt(fone(), fdiv(acc[j], acc[mx]))) by {
                assert(acc[j].num * acc[mx].den <= acc[mx].num * acc[j].den);
                assert(1 * (acc[j].den * acc[mx].num) >= (acc[j].num * acc[mx].den) * 1)
                    by (nonlinear_arith)
                    requires
                        acc[j].num * acc[mx].den <= acc[mx].num * acc[j].den,
                ;
            }
            crate::frac::lemma_fdiv_wf(acc[j], acc[mx]);
            assert(feq(w[j], fdiv(acc[j], acc[mx])));
            crate::frac::lemma_feq_sym(w[j], fdiv(acc[j], acc[mx]));
            lemma_flt_congr(fone(), fdiv(acc[j], acc[mx]), fone(), w[j]);
        }
    }
}

/// Law: when a free setup carries weight zero and at least one column is
/// pivoted, the whole speed vector collapses to zero: the disabled setup,
/// in particular, contributes nothing.
pub proof fn lemma_zero_weight_collapses(setups: Seq<Setup>, s: Speeds, w: Seq<Frac>, ck: int)
    requires
        weighted_ok(setups, s, w),
        s.weighted_setups@.len() == setups.len(),
        s.speeds@.len() == count_true(s.weighted_setups@) * setups.len(),
        row_wf(s.speeds@),
        count_true(s.weighted_setups@) < setups.len(),
        0 <= ck < setups.len(),
        s.weighted_setups@[ck],
        setups[ck].weight.0 == 0,
    ensures
        forall|i: int| 0 <= i < setups.len() ==> (#[trigger] w[i]).is_zero(),
{
    let n = setups.len() as int;
    let fl = s.weighted_setups@;
    let nb = count_true(fl);
    let acc = ws_acc(s.speeds@, fl, setups, nb);
    let kidx = count_true(fl.take(ck));
    crate::nullspace::lemma_count_true_at(fl, ck);
    lemma_nth_free(fl, kidx, ck);
    lemma_ws_acc_wf_all(s.speeds@, fl, setups, nb, n, nb);
    // after folding the zero-weight vector the accumulator is zero
    assert forall|i: int| 0 <= i < n implies (#[trigger] ws_acc(
        s.speeds@,
        fl,
        setups,
        kidx + 1,
    )[i]).num == 0 by {
        let prev = ws_acc(s.speeds@, fl, setups, kidx);
        let bvq = basis_vec(s.speeds@, n, kidx)[i];
        assert(ws_acc(s.speeds@, fl, setups, kidx + 1)[i] == fmul(
            prev[i],
            fmul(bvq, f_int(setups[ck].weight.0 as int)),
        ));
        assert(prev[i].num * (bvq.num * 0) == 0) by (nonlinear_arith);
    }
    lemma_ws_acc_zero_stays(s.speeds@, fl, setups, kidx + 1, nb, n);
    // no maximum is nonzero, so the result is the zero accumulator
    assert forall|m2: int| #[trigger] is_max(acc, m2) implies acc[m2].is_zero() by {
        assert(acc[m2].num == 0);
    }
    assert(!(exists|mx: int| #[trigger] is_max(acc, mx) && !acc[mx].is_zero()));
    assert forall|i: int| 0 <= i < n implies (#[trigger] w[i]).is_zero() by {
        assert(feq(w[i], acc[i]));
        assert(acc[i].num == 0);
        crate::frac::lemma_zero_feq(acc[i]);
        crate::frac::lemma_feq_trans(w[i], acc[i], fzero());
        crate::frac::lemma_feq_zero(w[i]);
    }
}

/// Once the accumulator is zero everywhere, further folding keeps it zero.
proof fn lemma_ws_acc_zero_stays(
    basis: Seq<Rat>,
    fl: Seq<bool>,
    setups: Seq<Setup>,
    from: int,
    to: int,
    n: int,
)
    requires
        n == setups.len(),
        basis.len() == count_true(fl) * n,
        row_wf(basis),
        0 <= from <= to <= count_true(fl),
        forall|i: int| 0 <= i < n ==> (#[trigger] ws_acc(basis, fl, setups, from)[i]).num == 0,
    ensures
        forall|i: int| 0 <= i < n ==> (#[trigger] ws_acc(basis, fl, setups, to)[i]).num == 0,
    decreases to - from,
{
    if from < to {
        assert forall|i: int| 0 <= i < n implies (#[trigger] ws_acc(
            basis,
            fl,
            setups,
            from + 1,
        )[i]).num == 0 by {
            let prev = ws_acc(basis, fl, setups, from);
            let bvq = basis_vec(basis, n, from)[i];
            let wv = f_int(setups[nth_free(fl, from)].weight.0 as int);
            assert(ws_acc(basis, fl, setups, from + 1)[i] == fmul(prev[i], fmul(bvq, wv)));
            assert(prev[i].num * (bvq.num * wv.num) == 0) by (nonlinear_arith)
                requires
                    prev[i].num == 0,
            ;
        }
        lemma_ws_acc_zero_stays(basis, fl, setups, from + 1, to, n);
    }
}

/// Whether the list holds a product of that name.
pub fn contains_name(list: &Vec<Product>, product: &Product) -> (r: bool)
    ensures
        r == has_name(list@, product.name@),
{
    let n = list.len();
    let mut i: usize = 0;
    while i < n
        invariant
            n == list@.len(),
            0 <= i <= n,
            forall|j: int| 0 <= j < i ==> (#[trigger] list@[j]).name@ != product.name@,
        decreases n - i,
    {
        if list[i].same(product) {
            assert(list@[i as int].name@ == product.name@);
            return true;
        }
        i = i + 1;
    }
    false
}

} // verus!
