//! Recipes: what one cycle of one machine type consumes and produces.

use vstd::prelude::*;

use crate::frac::{f_int, fadd, fdiv, feq, fneg, Frac};
use crate::machine::{abs_int, Voltage};
use crate::rational::Rat;

verus! {

/// A machine type, identified purely by name.
#[derive(Clone, Debug)]
pub struct Machine {
    pub name: String,
}

/// A good, identified purely by name.
#[derive(Clone, Debug)]
pub struct Product {
    pub name: String,
}

impl Product {
    /// A copy of this product.
    pub fn duplicate(&self) -> (r: Product)
        ensures
            r.name@ == self.name@,
    {
        Product { name: self.name.clone() }
    }

    /// Whether two products name the same good.
    pub fn same(&self, other: &Product) -> (r: bool)
        ensures
            r == (self.name@ == other.name@),
    {
        self.name.eq(&other.name)
    }
}

/// A good together with a positive per-cycle quantity.
#[derive(Clone, Debug)]
pub struct ProductCount {
    pub product: Product,
    pub count: u64,
}

/// What a single cycle of one machine type consumes, produces and
/// requires.
#[derive(Clone, Debug)]
pub struct Recipe {
    pub machine: Machine,
    /// The cycle duration in ticks; twenty ticks are one second.
    pub ticks: u64,
    /// The energy drawn per tick; zero means the recipe runs unpowered.
    pub eu_per_tick: i64,
    /// Goods that must be present but are neither consumed nor produced.
    pub catalysts: Vec<Product>,
    pub consumed: Vec<ProductCount>,
    pub produced: Vec<ProductCount>,
}

/// The quantity of the good `name` in a prefix of a product list.
pub open spec fn list_sum(list: Seq<ProductCount>, name: Seq<char>) -> int
    decreases list.len(),
{
    if list.len() == 0 {
        0
    } else {
        list_sum(list.drop_last(), name) + if list.last().product.name@ == name {
            list.last().count as int
        } else {
            0
        }
    }
}

/// Whether some entry of a product list names the good.
pub open spec fn list_has(list: Seq<ProductCount>, name: Seq<char>) -> bool {
    exists|i: int| 0 <= i < list.len() && (#[trigger] list[i]).product.name@ == name
}

impl Recipe {
    /// Durations and quantities are positive.
    pub open spec fn wf(self) -> bool {
        &&& self.ticks >= 1
        &&& forall|i: int| 0 <= i < self.consumed@.len() ==> (#[trigger] self.consumed@[i]).count >= 1
        &&& forall|i: int| 0 <= i < self.produced@.len() ==> (#[trigger] self.produced@[i]).count >= 1
    }

    /// The net per-cycle quantity of a good: produced minus consumed.
    pub open spec fn net_count(self, name: Seq<char>) -> int {
        list_sum(self.produced@, name) - list_sum(self.consumed@, name)
    }

    /// The cycle duration in seconds, as a fraction.
    pub open spec fn seconds_spec(self) -> Frac {
        Frac { num: self.ticks as int, den: 20 }
    }

    /// The tier a recipe's energy draw requires, or `None` when it draws
    /// no power.
    pub open spec fn voltage_spec(self) -> Option<Voltage> {
        if self.eu_per_tick == 0 {
            None
        } else {
            Some(Voltage::from_eu_spec(abs_int(self.eu_per_tick as int)))
        }
    }

    /// The cycle duration in seconds (twenty ticks are one second).
    pub fn seconds(&self) -> (r: Rat)
        ensures
            r@.wf(),
            feq(r@, self.seconds_spec()),
            !self.seconds_spec().is_zero() ==> !r@.is_zero(),
    {
        let ticks = Rat::from_u64(self.ticks);
        let twenty = Rat::from_u64(20);
        let r = ticks.div(&twenty);
        proof {
            crate::frac::lemma_fdiv_congr(
                ticks@,
                twenty@,
                f_int(self.ticks as int),
                f_int(20),
            );
            crate::frac::lemma_fdiv_wf(ticks@, twenty@);
            assert(fdiv(f_int(self.ticks as int), f_int(20)) == self.seconds_spec()) by {
                assert((self.ticks as int) * 1 == self.ticks as int)
                    by (nonlinear_arith);
                assert(1 * 20 == 20) by (nonlinear_arith);
            }
            crate::frac::lemma_feq_trans(
                r@,
                fdiv(ticks@, twenty@),
                fdiv(f_int(self.ticks as int), f_int(20)),
            );
            if !self.seconds_spec().is_zero() {
                crate::frac::lemma_feq_zero_carries(r@, self.seconds_spec());
            }
        }
        r
    }

    /// The tier this recipe's energy draw requires, or `None` when it
    /// draws no power.
    pub fn voltage(&self) -> (r: Option<Voltage>)
        ensures
            r == self.voltage_spec(),
    {
        if self.eu_per_tick == 0 {
            None
        } else {
            Some(Voltage::from_signed_eu_per_tick(self.eu_per_tick))
        }
    }

    /// The total energy of one cycle: duration times draw.
    pub fn total_eu(&self) -> (r: i128)
        ensures
            r == (self.ticks as int) * (self.eu_per_tick as int),
    {
        proof {
            assert((self.ticks as int) * (self.eu_per_tick as int) <= (0xffff_ffff_ffff_ffffint)
                * 0x7fff_ffff_ffff_ffff && (self.ticks as int) * (self.eu_per_tick as int) >= (
            0xffff_ffff_ffff_ffffint) * (-0x8000_0000_0000_0000int)) by (nonlinear_arith)
                requires
                    0 <= self.ticks <= 0xffff_ffff_ffff_ffffu64,
                    -0x8000_0000_0000_0000 <= self.eu_per_tick <= 0x7fff_ffff_ffff_ffff,
            ;
        }
        (self.ticks as i128) * (self.eu_per_tick as i128)
    }

    /// The net per-cycle quantity of a good, as a fraction.
    pub fn net_count_of(&self, product: &Product) -> (r: Rat)
        ensures
            r@.wf(),
            feq(r@, f_int(self.net_count(product.name@))),
    {
        let plus = sum_list(&self.produced, product);
        let minus = sum_list(&self.consumed, product);
        let r = plus.sub(&minus);
        proof {
            let p = list_sum(self.produced@, product.name@);
            let m = list_sum(self.consumed@, product.name@);
            crate::frac::lemma_fneg_congr(minus@, f_int(m));
            crate::frac::lemma_fadd_congr(plus@, fneg(minus@), f_int(p), fneg(f_int(m)));
            crate::frac::lemma_fadd_wf(plus@, fneg(minus@));
            assert(fadd(f_int(p), fneg(f_int(m))) == f_int(p - m)) by {
                assert(p * 1 + (-m) * 1 == p - m) by (nonlinear_arith);
                assert(1 * 1 == 1) by (nonlinear_arith);
            }
            crate::frac::lemma_feq_trans(r@, fadd(plus@, fneg(minus@)), f_int(p - m));
        }
        r
    }

    /// Whether the recipe produces the good.
    pub fn produces(&self, product: &Product) -> (r: bool)
        ensures
            r == list_has(self.produced@, product.name@),
    {
        list_has_exec(&self.produced, product)
    }

    /// Whether the recipe consumes the good.
    pub fn consumes(&self, product: &Product) -> (r: bool)
        ensures
            r == list_has(self.consumed@, product.name@),
    {
        list_has_exec(&self.consumed, product)
    }

    /// Every good the recipe consumes or produces, in list order,
    /// possibly with repeats.
    pub fn products(&self) -> (r: Vec<Product>)
        ensures
            r@.len() == self.consumed@.len() + self.produced@.len(),
            forall|i: int|
                0 <= i < self.consumed@.len() ==> (#[trigger] r@[i]).name@
                    == self.consumed@[i].product.name@,
            forall|i: int|
                0 <= i < self.produced@.len() ==> (#[trigger] r@[self.consumed@.len() + i]).name@
                    == self.produced@[i].product.name@,
    {
        let mut out: Vec<Product> = Vec::new();
        let nc = self.consumed.len();
        let mut i: usize = 0;
        while i < nc
            invariant
                nc == self.consumed@.len(),
                0 <= i <= nc,
                out@.len() == i,
                forall|j: int|
                    0 <= j < i ==> (#[trigger] out@[j]).name@ == self.consumed@[j].product.name@,
            decreases nc - i,
        {
            out.push(self.consumed[i].product.duplicate());
            i = i + 1;
        }
        let np = self.produced.len();
        let mut j: usize = 0;
        while j < np
            invariant
                nc == self.consumed@.len(),
                np == self.produced@.len(),
                0 <= j <= np,
                out@.len() == nc + j,
                forall|t: int|
                    0 <= t < nc ==> (#[trigger] out@[t]).name@ == self.consumed@[t].product.name@,
                forall|t: int|
                    0 <= t < j ==> (#[trigger] out@[nc + t]).name@
                        == self.produced@[t].product.name@,
            decreases np - j,
        {
            out.push(self.produced[j].product.duplicate());
            j = j + 1;
        }
        out
    }

    /// The net per-cycle quantity of every good the recipe touches, each
    /// good once.
    pub fn product_counts(&self) -> (r: Vec<(Product, Rat)>)
        ensures
            forall|i: int, j: int|
                0 <= i < j < r@.len() ==> (#[trigger] r@[i]).0.name@ != (#[trigger] r@[j]).0.name@,
            forall|i: int|
                0 <= i < r@.len() ==> (#[trigger] r@[i]).1@.wf() && feq(
                    r@[i].1@,
                    f_int(self.net_count(r@[i].0.name@)),
                ),
            counts_cover(*self, r@),
    {
        let all = self.products();
        let goods = crate::processing_chain::dedup_products(&all);
        let n = goods.len();
        let mut out: Vec<(Product, Rat)> = Vec::new();
        let mut i: usize = 0;
        while i < n
            invariant
                n == goods@.len(),
                0 <= i <= n,
                out@.len() == i,
                forall|a: int, b: int|
                    0 <= a < b < goods@.len() ==> (#[trigger] goods@[a]).name@ != (
                    #[trigger] goods@[b]).name@,
                forall|j: int| 0 <= j < i ==> (#[trigger] out@[j]).0.name@ == goods@[j].name@,
                forall|j: int|
                    0 <= j < i ==> (#[trigger] out@[j]).1@.wf() && feq(
                        out@[j].1@,
                        f_int(self.net_count(out@[j].0.name@)),
                    ),
            decreases n - i,
        {
            let value = self.net_count_of(&goods[i]);
            out.push((goods[i].duplicate(), value));
            i = i + 1;
        }
        proof {
            assert forall|a: int, b: int|
                0 <= a < b < out@.len() implies (#[trigger] out@[a]).0.name@ != (
            #[trigger] out@[b]).0.name@ by {
                assert(goods@[a].name@ != goods@[b].name@);
            }
            let nc = self.consumed@.len() as int;
            assert forall|name: Seq<char>|
                #![trigger list_has(self.consumed@, name)]
                #![trigger list_has(self.produced@, name)]
                (list_has(self.consumed@, name) || list_has(
                    self.produced@,
                    name,
                )) implies crate::processing_chain::pair_has_name(out@, name) by {
                let ai: int = if list_has(self.consumed@, name) {
                    choose|x: int|
                        0 <= x < self.consumed@.len() && (#[trigger] self.consumed@[
                        x]).product.name@ == name
                } else {
                    nc + choose|x: int|
                        0 <= x < self.produced@.len() && (#[trigger] self.produced@[
                        x]).product.name@ == name
                };
                if !list_has(self.consumed@, name) {
                    assert(all@[nc + (ai - nc)].name@ == self.produced@[ai - nc].product.name@);
                }
                assert(all@[ai].name@ == name);
                assert(crate::processing_chain::has_name(goods@, all@[ai].name@));
                let j0 = choose|j: int|
                    0 <= j < goods@.len() && (#[trigger] goods@[j]).name@ == all@[ai].name@;
                assert(out@[j0].0.name@ == name);
            }
            assert forall|t: int| 0 <= t < out@.len() implies list_has(
                self.consumed@,
                (#[trigger] out@[t]).0.name@,
            ) || list_has(self.produced@, out@[t].0.name@) by {
                let name = out@[t].0.name@;
                assert(goods@[t].name@ == name);
                assert(crate::processing_chain::has_name(all@, goods@[t].name@));
                let a0 = choose|a: int|
                    0 <= a < all@.len() && (#[trigger] all@[a]).name@ == goods@[t].name@;
                if a0 < nc {
                    assert(self.consumed@[a0].product.name@ == name);
                } else {
                    assert(all@[nc + (a0 - nc)].name@ == self.produced@[a0 - nc].product.name@);
                    assert(self.produced@[a0 - nc].product.name@ == name);
                }
            }
            assert(counts_cover(*self, out@));
        }
        out
    }

    /// The net per-second flow of every good the recipe touches, each
    /// good once: the per-cycle quantity over the cycle duration.
    pub fn products_per_sec(&self) -> (r: Vec<(Product, Rat)>)
        requires
            self.wf(),
        ensures
            forall|i: int, j: int|
                0 <= i < j < r@.len() ==> (#[trigger] r@[i]).0.name@ != (#[trigger] r@[j]).0.name@,
            forall|i: int|
                0 <= i < r@.len() ==> (#[trigger] r@[i]).1@.wf() && feq(
                    r@[i].1@,
                    crate::frac::fdiv(f_int(self.net_count(r@[i].0.name@)), self.seconds_spec()),
                ),
            counts_cover(*self, r@),
    {
        let counts = self.product_counts();
        let secs = self.seconds();
        let n = counts.len();
        let mut out: Vec<(Product, Rat)> = Vec::new();
        let mut i: usize = 0;
        while i < n
            invariant
                self.wf(),
                n == counts@.len(),
                secs@.wf(),
                feq(secs@, self.seconds_spec()),
                !secs@.is_zero(),
                0 <= i <= n,
                out@.len() == i,
                forall|a: int, b: int|
                    0 <= a < b < counts@.len() ==> (#[trigger] counts@[a]).0.name@ != (
                    #[trigger] counts@[b]).0.name@,
                forall|j: int|
                    0 <= j < counts@.len() ==> (#[trigger] counts@[j]).1@.wf() && feq(
                        counts@[j].1@,
                        f_int(self.net_count(counts@[j].0.name@)),
                    ),
                forall|j: int| 0 <= j < i ==> (#[trigger] out@[j]).0.name@ == counts@[j].0.name@,
                forall|j: int|
                    0 <= j < i ==> (#[trigger] out@[j]).1@.wf() && feq(
                        out@[j].1@,
                        crate::frac::fdiv(
                            f_int(self.net_count(out@[j].0.name@)),
                            self.seconds_spec(),
                        ),
                    ),
            decreases n - i,
        {
            let value = counts[i].1.div(&secs);
            proof {
                let nf = f_int(self.net_count(counts@[i as int].0.name@));
                crate::frac::lemma_fdiv_congr(counts@[i as int].1@, secs@, nf, self.seconds_spec());
                crate::frac::lemma_fdiv_wf(counts@[i as int].1@, secs@);
                crate::frac::lemma_fdiv_wf(nf, self.seconds_spec());
                crate::frac::lemma_feq_trans(
                    value@,
                    crate::frac::fdiv(counts@[i as int].1@, secs@),
                    crate::frac::fdiv(nf, self.seconds_spec()),
                );
            }
            out.push((counts[i].0.duplicate(), value));
            i = i + 1;
        }
        proof {
            assert forall|a: int, b: int|
                0 <= a < b < out@.len() implies (#[trigger] out@[a]).0.name@ != (
            #[trigger] out@[b]).0.name@ by {
                assert(counts@[a].0.name@ != counts@[b].0.name@);
            }
            assert forall|name: Seq<char>|
                #![trigger list_has(self.consumed@, name)]
                #![trigger list_has(self.produced@, name)]
                (list_has(self.consumed@, name) || list_has(
                    self.produced@,
                    name,
                )) implies crate::processing_chain::pair_has_name(out@, name) by {
                assert(crate::processing_chain::pair_has_name(counts@, name));
                let j0 = choose|j: int|
                    0 <= j < counts@.len() && (#[trigger] counts@[j]).0.name@ == name;
                assert(out@[j0].0.name@ == name);
            }
            assert forall|t: int| 0 <= t < out@.len() implies list_has(
                self.consumed@,
                (#[trigger] out@[t]).0.name@,
            ) || list_has(self.produced@, out@[t].0.name@) by {
                assert(out@[t].0.name@ == counts@[t].0.name@);
                assert(list_has(self.consumed@, counts@[t].0.name@) || list_has(
                    self.produced@,
                    counts@[t].0.name@,
                ));
            }
            assert(counts_cover(*self, out@));
        }
        out
    }

    /// Renames a good everywhere it appears in the recipe; quantities are
    /// unchanged.
    pub fn replace_product(&mut self, from: &Product, to: &Product)
        ensures
            recipe_renamed(*old(self), *final(self), from.name@, to.name@),
    {
        let nc = self.consumed.len();
        let mut i: usize = 0;
        while i < nc
            invariant
                nc == self.consumed@.len(),
                0 <= i <= nc,
                self.machine == old(self).machine,
                self.ticks == old(self).ticks,
                self.eu_per_tick == old(self).eu_per_tick,
                self.produced == old(self).produced,
                self.catalysts == old(self).catalysts,
                self.consumed@.len() == old(self).consumed@.len(),
                forall|j: int|
                    i <= j < nc ==> #[trigger] self.consumed@[j] == old(self).consumed@[j],
                forall|j: int|
                    0 <= j < i ==> (#[trigger] self.consumed@[j]).count == old(
                        self,
                    ).consumed@[j].count && self.consumed@[j].product.name@ == renamed(
                        old(self).consumed@[j].product.name@,
                        from.name@,
                        to.name@,
                    ),
            decreases nc - i,
        {
            if self.consumed[i].product.same(from) {
                let count = self.consumed[i].count;
                self.consumed[i] = ProductCount { product: to.duplicate(), count };
            }
            i = i + 1;
        }
        let np = self.produced.len();
        let mut j: usize = 0;
        while j < np
            invariant
                np == self.produced@.len(),
                0 <= j <= np,
                self.machine == old(self).machine,
                self.ticks == old(self).ticks,
                self.eu_per_tick == old(self).eu_per_tick,
                self.catalysts == old(self).catalysts,
                self.consumed@.len() == old(self).consumed@.len(),
                self.produced@.len() == old(self).produced@.len(),
                forall|t: int|
                    0 <= t < self.consumed@.len() ==> (#[trigger] self.consumed@[t]).count == old(
                        self,
                    ).consumed@[t].count && self.consumed@[t].product.name@ == renamed(
                        old(self).consumed@[t].product.name@,
                        from.name@,
                        to.name@,
                    ),
                forall|t: int|
                    j <= t < np ==> #[trigger] self.produced@[t] == old(self).produced@[t],
                forall|t: int|
                    0 <= t < j ==> (#[trigger] self.produced@[t]).count == old(
                        self,
                    ).produced@[t].count && self.produced@[t].product.name@ == renamed(
                        old(self).produced@[t].product.name@,
                        from.name@,
                        to.name@,
                    ),
            decreases np - j,
        {
            if self.produced[j].product.same(from) {
                let count = self.produced[j].count;
                self.produced[j] = ProductCount { product: to.duplicate(), count };
            }
            j = j + 1;
        }
        let na = self.catalysts.len();
        let mut t: usize = 0;
        while t < na
            invariant
                na == self.catalysts@.len(),
                0 <= t <= na,
                self.machine == old(self).machine,
                self.ticks == old(self).ticks,
                self.eu_per_tick == old(self).eu_per_tick,
                self.consumed@.len() == old(self).consumed@.len(),
                self.produced@.len() == old(self).produced@.len(),
                forall|u: int|
                    0 <= u < self.consumed@.len() ==> (#[trigger] self.consumed@[u]).count == old(
                        self,
                    ).consumed@[u].count && self.consumed@[u].product.name@ == renamed(
                        old(self).consumed@[u].product.name@,
                        from.name@,
                        to.name@,
                    ),
                forall|u: int|
                    0 <= u < self.produced@.len() ==> (#[trigger] self.produced@[u]).count == old(
                        self,
                    ).produced@[u].count && self.produced@[u].product.name@ == renamed(
                        old(self).produced@[u].product.name@,
                        from.name@,
                        to.name@,
                    ),
                forall|u: int|
                    t <= u < na ==> #[trigger] self.catalysts@[u] == old(self).catalysts@[u],
                forall|u: int|
                    0 <= u < t ==> (#[trigger] self.catalysts@[u]).name@ == renamed(
                        old(self).catalysts@[u].name@,
                        from.name@,
                        to.name@,
                    ),
            decreases na - t,
        {
            if self.catalysts[t].same(from) {
                self.catalysts[t] = to.duplicate();
            }
            t = t + 1;
        }
    }
}

/// The keyed pairs name exactly the goods the recipe consumes or
/// produces: every touched good appears, and every key is a touched
/// good — so in particular no catalyst and no invented name appears.
pub open spec fn counts_cover(r: Recipe, out: Seq<(Product, crate::rational::Rat)>) -> bool {
    &&& forall|name: Seq<char>|
        #![trigger list_has(r.consumed@, name)]
        #![trigger list_has(r.produced@, name)]
        (list_has(r.consumed@, name) || list_has(r.produced@, name))
            ==> crate::processing_chain::pair_has_name(out, name)
    &&& forall|i: int|
        0 <= i < out.len() ==> list_has(r.consumed@, (#[trigger] out[i]).0.name@) || list_has(
            r.produced@,
            out[i].0.name@,
        )
}

/// The second recipe is the first with the good `from` renamed to `to`:
/// the same machine, timing and quantities, with only matching names
/// substituted.
pub open spec fn recipe_renamed(o: Recipe, n: Recipe, from: Seq<char>, to: Seq<char>) -> bool {
    &&& n.machine == o.machine
    &&& n.ticks == o.ticks
    &&& n.eu_per_tick == o.eu_per_tick
    &&& n.consumed@.len() == o.consumed@.len()
    &&& n.produced@.len() == o.produced@.len()
    &&& n.catalysts@.len() == o.catalysts@.len()
    &&& forall|i: int|
        0 <= i < o.consumed@.len() ==> (#[trigger] n.consumed@[i]).count == o.consumed@[i].count
            && n.consumed@[i].product.name@ == renamed(o.consumed@[i].product.name@, from, to)
    &&& forall|i: int|
        0 <= i < o.produced@.len() ==> (#[trigger] n.produced@[i]).count == o.produced@[i].count
            && n.produced@[i].product.name@ == renamed(o.produced@[i].product.name@, from, to)
    &&& forall|i: int|
        0 <= i < o.catalysts@.len() ==> (#[trigger] n.catalysts@[i]).name@ == renamed(
            o.catalysts@[i].name@,
            from,
            to,
        )
}

/// A name after renaming `from` to `to`.
pub open spec fn renamed(name: Seq<char>, from: Seq<char>, to: Seq<char>) -> Seq<char> {
    if name == from {
        to
    } else {
        name
    }
}

/// Sums the quantity of one good over a product list.
fn sum_list(list: &Vec<ProductCount>, product: &Product) -> (r: Rat)
    ensures
        r@.wf(),
        feq(r@, f_int(list_sum(list@, product.name@))),
{
    let n = list.len();
    let mut acc = Rat::zero();
    let mut i: usize = 0;
    proof {
        assert(list@.take(0) =~= Seq::<ProductCount>::empty());
    }
    while i < n
        invariant
            n == list@.len(),
            0 <= i <= n,
            acc@.wf(),
            feq(acc@, f_int(list_sum(list@.take(i as int), product.name@))),
        decreases n - i,
    {
        let ghost prefix = list@.take(i as int);
        let ghost prefix2 = list@.take(i as int + 1);
        proof {
            assert(prefix2.drop_last() =~= prefix);
            assert(prefix2.last() == list@[i as int]);
        }
        if list[i].product.same(product) {
            let cnt = Rat::from_u64(list[i].count);
            let acc2 = acc.add(&cnt);
            proof {
                let a = list_sum(prefix, product.name@);
                let b = list@[i as int].count as int;
                crate::frac::lemma_fadd_congr(acc@, cnt@, f_int(a), f_int(b));
                crate::frac::lemma_fadd_wf(acc@, cnt@);
                crate::frac::lemma_f_int_add(a, b);
                crate::frac::lemma_feq_trans(acc2@, fadd(acc@, cnt@), f_int(a + b));
            }
            acc = acc2;
        } else {
            proof {
                assert(list_sum(prefix2, product.name@) == list_sum(prefix, product.name@));
            }
        }
        i = i + 1;
    }
    proof {
        assert(list@.take(n as int) =~= list@);
    }
    acc
}

/// Whether some entry of a product list names the good.
fn list_has_exec(list: &Vec<ProductCount>, product: &Product) -> (r: bool)
    ensures
        r == list_has(list@, product.name@),
{
    let n = list.len();
    let mut i: usize = 0;
    while i < n
        invariant
            n == list@.len(),
            0 <= i <= n,
            forall|j: int| 0 <= j < i ==> (#[trigger] list@[j]).product.name@ != product.name@,
        decreases n - i,
    {
        if list[i].product.same(product) {
            assert(list@[i as int].product.name@ == product.name@);
            return true;
        }
        i = i + 1;
    }
    false
}

} // verus!
