use greg_calc::machine::{Machines, Voltage};
use greg_calc::processing_chain::{ProcessingChain, Setup, Weight};
use greg_calc::rational::Rat;
use greg_calc::recipe::{Machine, Product, ProductCount, Recipe};

fn product(name: &str) -> Product {
    Product { name: String::from(name) }
}

fn sample_recipe() -> Recipe {
    Recipe {
        machine: Machine { name: String::from("macerator") },
        ticks: 40,
        eu_per_tick: 24,
        catalysts: vec![product("lens")],
        consumed: vec![ProductCount { product: product("ore"), count: 1 }],
        produced: vec![
            ProductCount { product: product("dust"), count: 2 },
            ProductCount { product: product("gravel"), count: 1 },
        ],
    }
}

#[test]
fn seconds_are_ticks_over_twenty() {
    let r = sample_recipe();
    assert!(r.seconds().eq_rat(&Rat::new(2, 1)));
    let mut half = sample_recipe();
    half.ticks = 10;
    assert!(half.seconds().eq_rat(&Rat::new(1, 2)));
}

#[test]
fn recipe_voltage_follows_the_draw() {
    let mut r = sample_recipe();
    assert_eq!(r.voltage(), Some(Voltage::Low));
    r.eu_per_tick = 0;
    assert_eq!(r.voltage(), None);
    r.eu_per_tick = -500;
    assert_eq!(r.voltage(), Some(Voltage::High));
}

#[test]
fn total_energy_is_duration_times_draw() {
    let r = sample_recipe();
    assert_eq!(r.total_eu(), 960);
    let mut negative = sample_recipe();
    negative.eu_per_tick = -24;
    assert_eq!(negative.total_eu(), -960);
}

#[test]
fn membership_checks_follow_the_lists() {
    let r = sample_recipe();
    assert!(r.consumes(&product("ore")));
    assert!(!r.produces(&product("ore")));
    assert!(r.produces(&product("dust")));
    assert!(!r.consumes(&product("dust")));
    assert!(!r.produces(&product("lens")));
}

#[test]
fn net_counts_subtract_consumption() {
    let r = sample_recipe();
    assert!(r.net_count_of(&product("ore")).eq_rat(&Rat::new(-1, 1)));
    assert!(r.net_count_of(&product("dust")).eq_rat(&Rat::new(2, 1)));
    assert!(r.net_count_of(&product("unrelated")).is_zero_rat());
    // a good both consumed and produced nets out
    let mut loopback = sample_recipe();
    loopback.produced.push(ProductCount { product: product("ore"), count: 1 });
    assert!(loopback.net_count_of(&product("ore")).is_zero_rat());
}

#[test]
fn per_cycle_and_per_second_tables() {
    let r = sample_recipe();
    let counts = r.product_counts();
    assert_eq!(counts.len(), 3);
    let rates = r.products_per_sec();
    assert_eq!(rates.len(), 3);
    for (p, rate) in rates.iter() {
        // forty ticks are two seconds, so rates are half the counts
        let per_cycle = r.net_count_of(p);
        assert!(rate.mul(&Rat::new(2, 1)).eq_rat(&per_cycle));
    }
}

#[test]
fn renaming_touches_every_list() {
    let mut r = sample_recipe();
    r.replace_product(&product("ore"), &product("raw"));
    assert!(r.consumes(&product("raw")));
    assert!(!r.consumes(&product("ore")));
    assert_eq!(r.catalysts[0].name, "lens");
    r.replace_product(&product("lens"), &product("prism"));
    assert_eq!(r.catalysts[0].name, "prism");
    assert_eq!(r.consumed[0].count, 1);
}

#[test]
fn chain_wide_rename_updates_explicit_set() {
    let mut chain = ProcessingChain::new();
    chain.push_setup(Setup {
        recipe: sample_recipe(),
        machines: Machines::Eco(1),
        weight: Weight(1),
    });
    chain.add_explicit_io(product("dust"));
    chain.replace_product(&product("dust"), &product("powder"));
    assert!(chain.produces(&product("powder")));
    assert!(!chain.produces(&product("dust")));
    assert_eq!(chain.explicit_io()[0].name, "powder");
}
