use greg_calc::machine::{ClockedMachine, ClockedMachines, MachinePowerError, Machines, Voltage};
use greg_calc::processing_chain::{ProcessingChain, Setup, Weight};
use greg_calc::rational::Rat;
use greg_calc::recipe::{Machine, Product, ProductCount, Recipe};

fn product(name: &str) -> Product {
    Product { name: String::from(name) }
}

fn eco_recipe(
    machine: &str,
    consumed: Vec<(&str, u64)>,
    produced: Vec<(&str, u64)>,
) -> Recipe {
    Recipe {
        machine: Machine { name: String::from(machine) },
        ticks: 20,
        eu_per_tick: 0,
        catalysts: Vec::new(),
        consumed: consumed
            .into_iter()
            .map(|(n, c)| ProductCount { product: product(n), count: c })
            .collect(),
        produced: produced
            .into_iter()
            .map(|(n, c)| ProductCount { product: product(n), count: c })
            .collect(),
    }
}

fn eco_setup(
    machine: &str,
    consumed: Vec<(&str, u64)>,
    produced: Vec<(&str, u64)>,
    weight: u64,
) -> Setup {
    Setup {
        recipe: eco_recipe(machine, consumed, produced),
        machines: Machines::Eco(1),
        weight: Weight(weight),
    }
}

fn flow_of(products: &greg_calc::processing_chain::Products, name: &str) -> Rat {
    for (p, r) in products.products_per_sec.iter() {
        if p.name == name {
            return r.clone_rat();
        }
    }
    panic!("good not found");
}

#[test]
fn producer_and_consumer_balance() {
    // one setup makes two units per second, the other needs three
    let mut chain = ProcessingChain::new();
    chain.push_setup(eco_setup("maker", vec![], vec![("x", 2)], 1));
    chain.push_setup(eco_setup("user", vec![("x", 3)], vec![], 1));
    let w = chain.weighted_speeds();
    let speeds = w.speeds();
    assert_eq!(speeds.len(), 2);
    // the consumer throttles to two thirds; the producer runs flat out
    assert!(speeds[0].eq_rat(&Rat::one()));
    assert!(speeds[1].eq_rat(&Rat::new(2, 3)));
    // the balance equation holds exactly: 2 * s0 == 3 * s1
    let lhs = Rat::new(2, 1).mul(&speeds[0]);
    let rhs = Rat::new(3, 1).mul(&speeds[1]);
    assert!(lhs.eq_rat(&rhs));
    // at those speeds the shared good nets to zero
    let totals = chain.products_with_speeds(&w);
    assert!(flow_of(&totals, "x").is_zero_rat());
}

#[test]
fn power_mismatch_contributes_nothing() {
    // the consumer's recipe draws power but its machines are unpowered,
    // so its flow is dropped and the producer is left unconstrained
    let mut chain = ProcessingChain::new();
    chain.push_setup(eco_setup("maker", vec![], vec![("x", 2)], 1));
    let mut broken = eco_setup("user", vec![("x", 3)], vec![], 1);
    broken.recipe.eu_per_tick = 32;
    chain.push_setup(broken);
    assert!(matches!(
        chain.setups()[1].speed_factor(),
        Err(MachinePowerError::RequiresPower)
    ));
    let w = chain.weighted_speeds();
    // the producer is pinned to zero by the one-sided balance row; the
    // broken consumer's column is free
    assert!(w.speeds()[0].is_zero_rat());
    assert!(w.speeds()[1].eq_rat(&Rat::one()));
    let totals = chain.products_with_speeds(&w);
    assert!(flow_of(&totals, "x").is_zero_rat());
}

#[test]
fn underclocked_machine_matches_recipe_tier() {
    // a machine two tiers up, clocked down to the recipe tier: no speed
    // bonus and the plain recipe draw
    let mut cms = ClockedMachines::new();
    cms.insert(
        ClockedMachine::with_underclocking(Voltage::High, Voltage::Low),
        1,
    );
    let mut recipe = eco_recipe("refiner", vec![("ore", 1)], vec![("dust", 2)]);
    recipe.eu_per_tick = 32;
    let setup = Setup { recipe, machines: Machines::Power(cms), weight: Weight(1) };
    let speed = setup.speed_factor().unwrap();
    assert!(speed.eq_rat(&Rat::one()));
    let eu = setup.eu_per_tick();
    assert!(eu.eq_rat(&Rat::new(32, 1)));
}

#[test]
fn no_shared_goods_runs_everything_flat_out() {
    let mut chain = ProcessingChain::new();
    chain.push_setup(eco_setup("a", vec![], vec![("x", 1)], 1));
    chain.push_setup(eco_setup("b", vec![], vec![("y", 1)], 1));
    let w = chain.weighted_speeds();
    assert!(w.speeds()[0].eq_rat(&Rat::one()));
    assert!(w.speeds()[1].eq_rat(&Rat::one()));
}

#[test]
fn explicit_io_removes_the_constraint() {
    let mut chain = ProcessingChain::new();
    chain.push_setup(eco_setup("maker", vec![], vec![("x", 2)], 1));
    chain.push_setup(eco_setup("user", vec![("x", 3)], vec![], 1));
    chain.add_explicit_io(product("x"));
    // with the good exempted there is no balance row left
    let w = chain.weighted_speeds();
    assert!(w.speeds()[0].eq_rat(&Rat::one()));
    assert!(w.speeds()[1].eq_rat(&Rat::one()));
}

#[test]
fn zero_weight_disables_the_chain_side() {
    let mut chain = ProcessingChain::new();
    chain.push_setup(eco_setup("maker", vec![], vec![("x", 2)], 1));
    chain.push_setup(eco_setup("user", vec![("x", 3)], vec![], 0));
    let w = chain.weighted_speeds();
    // the free consumer carries weight zero, which zeroes the whole
    // accumulated vector; normalization is skipped
    assert!(w.speeds()[0].is_zero_rat());
    assert!(w.speeds()[1].is_zero_rat());
}

#[test]
fn weight_edit_changes_only_the_weighting() {
    let mut chain = ProcessingChain::new();
    chain.push_setup(eco_setup("maker", vec![], vec![("x", 2)], 1));
    chain.push_setup(eco_setup("user", vec![("x", 3)], vec![], 1));
    let before = chain.weighted_speeds();
    assert!(before.speeds()[0].eq_rat(&Rat::one()));
    chain.set_weight(1, Weight(0));
    let after = chain.weighted_speeds();
    assert!(after.speeds()[0].is_zero_rat());
    assert!(after.speeds()[1].is_zero_rat());
    chain.set_weight(1, Weight(1));
    let restored = chain.weighted_speeds();
    assert!(restored.speeds()[0].eq_rat(&Rat::one()));
    assert!(restored.speeds()[1].eq_rat(&Rat::new(2, 3)));
}

#[test]
fn max_speed_totals_ignore_the_equilibrium() {
    let mut chain = ProcessingChain::new();
    chain.push_setup(eco_setup("maker", vec![], vec![("x", 2)], 1));
    chain.push_setup(eco_setup("user", vec![("x", 3)], vec![], 1));
    let totals = chain.products_with_max_speeds();
    // flat out, the chain runs a deficit of one unit per second
    assert!(flow_of(&totals, "x").eq_rat(&Rat::new(-1, 1)));
    assert!(totals.eu_per_tick.is_zero_rat());
}

#[test]
fn chain_queries_and_renames() {
    let mut chain = ProcessingChain::new();
    chain.push_setup(eco_setup("maker", vec![("ore", 1)], vec![("x", 2)], 1));
    assert!(chain.produces(&product("x")));
    assert!(!chain.consumes(&product("x")));
    assert!(chain.consumes(&product("ore")));
    let goods = chain.products();
    assert_eq!(goods.len(), 2);
    // renaming keeps quantities and only changes the name
    let mut setup = chain.remove_setup(0);
    setup.recipe.replace_product(&product("x"), &product("ingot"));
    chain.push_setup(setup);
    assert!(chain.produces(&product("ingot")));
    assert!(!chain.produces(&product("x")));
}

#[test]
fn rebuilt_chain_computes_identical_speeds() {
    // write every population out as text, read it back, and recompute:
    // exact arithmetic gives the same bits
    let mut cms = ClockedMachines::new();
    cms.insert(ClockedMachine::new(Voltage::Medium), 2);
    cms.insert(
        ClockedMachine::with_underclocking(Voltage::High, Voltage::Low),
        1,
    );
    let mut powered_recipe = eco_recipe("smelter", vec![("x", 3)], vec![("ingot", 1)]);
    powered_recipe.eu_per_tick = 32;

    let mut chain = ProcessingChain::new();
    chain.push_setup(eco_setup("maker", vec![], vec![("x", 2)], 1));
    chain.push_setup(Setup {
        recipe: powered_recipe,
        machines: Machines::Power(cms),
        weight: Weight(3),
    });
    let w1 = chain.weighted_speeds();

    // rebuild the chain through the textual form of every population
    let mut rebuilt = ProcessingChain::new();
    for setup in chain.setups().iter() {
        let machines = match &setup.machines {
            Machines::Eco(n) => Machines::Eco(*n),
            Machines::Power(p) => {
                Machines::Power(ClockedMachines::from_texts(&p.to_texts()).unwrap())
            },
        };
        rebuilt.push_setup(Setup {
            recipe: setup.recipe.clone(),
            machines,
            weight: setup.weight,
        });
    }
    let w2 = rebuilt.weighted_speeds();
    assert_eq!(w1.speeds().len(), w2.speeds().len());
    for i in 0..w1.speeds().len() {
        // bit-for-bit: the canonical forms are identical
        assert!(w1.speeds()[i].as_rational() == w2.speeds()[i].as_rational());
    }
}

#[test]
fn weighted_result_prefers_the_heavier_setup() {
    // two producers share one consumer; the heavier producer ends up
    // faster in the folded result
    let mut chain = ProcessingChain::new();
    chain.push_setup(eco_setup("a", vec![], vec![("x", 2)], 2));
    chain.push_setup(eco_setup("user", vec![("x", 2)], vec![], 1));
    let w = chain.weighted_speeds();
    // a two-setup loop balances one to one
    assert!(w.speeds()[0].eq_rat(&Rat::one()));
    assert!(w.speeds()[1].eq_rat(&Rat::one()));
}
