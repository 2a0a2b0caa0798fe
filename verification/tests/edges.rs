use greg_calc::machine::{ClockedMachine, ClockedMachines, Machines, Voltage};
use greg_calc::processing_chain::{ProcessingChain, Setup, Weight};
use greg_calc::rational::Rat;
use greg_calc::recipe::{Machine, Product, ProductCount, Recipe};

fn product(name: &str) -> Product {
    Product { name: String::from(name) }
}

fn simple_setup(machine: &str, consumed: Vec<(&str, u64)>, produced: Vec<(&str, u64)>) -> Setup {
    Setup {
        recipe: Recipe {
            machine: Machine { name: String::from(machine) },
            ticks: 20,
            eu_per_tick: 0,
            catalysts: vec![product("flux")],
            consumed: consumed
                .into_iter()
                .map(|(n, c)| ProductCount { product: product(n), count: c })
                .collect(),
            produced: produced
                .into_iter()
                .map(|(n, c)| ProductCount { product: product(n), count: c })
                .collect(),
        },
        machines: Machines::Eco(1),
        weight: Weight(1),
    }
}

#[test]
fn empty_chain_has_empty_results() {
    let mut chain = ProcessingChain::new();
    let w = chain.weighted_speeds();
    assert!(w.speeds().is_empty());
    let totals = chain.products_with_max_speeds();
    assert!(totals.products_per_sec.is_empty());
    assert!(totals.eu_per_tick.is_zero_rat());
}

#[test]
fn removing_a_setup_removes_its_goods() {
    let mut chain = ProcessingChain::new();
    chain.push_setup(simple_setup("a", vec![], vec![("x", 1)]));
    chain.push_setup(simple_setup("b", vec![("x", 1)], vec![("y", 1)]));
    assert!(chain.produces(&product("y")));
    let removed = chain.remove_setup(1);
    assert_eq!(removed.recipe.machine.name, "b");
    assert!(!chain.produces(&product("y")));
    assert_eq!(chain.setups().len(), 1);
}

#[test]
fn explicit_io_can_be_withdrawn() {
    let mut chain = ProcessingChain::new();
    chain.push_setup(simple_setup("a", vec![], vec![("x", 2)]));
    chain.push_setup(simple_setup("b", vec![("x", 3)], vec![]));
    chain.add_explicit_io(product("x"));
    assert!(chain.weighted_speeds().speeds()[1].eq_rat(&Rat::one()));
    chain.remove_explicit_io(&product("x"));
    // with the exemption gone the balance constraint applies again
    assert!(chain.weighted_speeds().speeds()[1].eq_rat(&Rat::new(2, 3)));
}

#[test]
fn catalysts_are_not_flows() {
    let mut chain = ProcessingChain::new();
    chain.push_setup(simple_setup("a", vec![("ore", 1)], vec![("dust", 1)]));
    for good in chain.products() {
        assert_ne!(good.name, "flux");
    }
    let totals = chain.products_with_max_speeds();
    for (good, _) in totals.products_per_sec.iter() {
        assert_ne!(good.name, "flux");
    }
}

#[test]
fn powered_chain_reports_energy_at_equilibrium() {
    let mut cms = ClockedMachines::new();
    cms.insert(ClockedMachine::new(Voltage::Low), 1);
    let mut setup = simple_setup("smelter", vec![], vec![("ingot", 1)]);
    setup.recipe.eu_per_tick = 32;
    setup.machines = Machines::Power(cms);
    let mut chain = ProcessingChain::new();
    chain.push_setup(setup);
    let w = chain.weighted_speeds();
    assert!(w.speeds()[0].eq_rat(&Rat::one()));
    let totals = chain.products_with_speeds(&w);
    assert!(totals.eu_per_tick.eq_rat(&Rat::new(32, 1)));
}

#[test]
fn memoized_calls_are_identical() {
    let mut chain = ProcessingChain::new();
    chain.push_setup(simple_setup("maker", vec![], vec![("x", 2)]));
    chain.push_setup(simple_setup("user", vec![("x", 3)], vec![]));
    let first = chain.weighted_speeds();
    let second = chain.weighted_speeds();
    assert_eq!(first.speeds().len(), second.speeds().len());
    for i in 0..first.speeds().len() {
        // the second call hands back the memoized vector, bit for bit
        assert!(first.speeds()[i].as_rational() == second.speeds()[i].as_rational());
    }
}

#[test]
fn self_loop_goods_leave_the_chain_free() {
    // a good both produced and consumed by the same setup in equal
    // amounts gives a zero balance row, which constrains nothing
    let mut chain = ProcessingChain::new();
    chain.push_setup(simple_setup("recycler", vec![("x", 2)], vec![("x", 2)]));
    chain.push_setup(simple_setup("other", vec![], vec![("y", 1)]));
    let w = chain.weighted_speeds();
    assert!(w.speeds()[0].eq_rat(&Rat::one()));
    assert!(w.speeds()[1].eq_rat(&Rat::one()));
}
