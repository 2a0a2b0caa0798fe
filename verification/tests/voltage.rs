use greg_calc::machine::Voltage;
use greg_calc::rational::Rat;

fn all_tiers() -> Vec<Voltage> {
    let mut out = Vec::new();
    let mut i: u8 = 0;
    while i <= 14 {
        out.push(Voltage::from_index(i));
        i += 1;
    }
    out
}

#[test]
fn tier_indexes_round_trip() {
    for (i, v) in all_tiers().into_iter().enumerate() {
        assert_eq!(v.index() as usize, i);
        assert_eq!(Voltage::from_index(v.index()), v);
    }
}

#[test]
fn from_index_clamps_to_top() {
    assert_eq!(Voltage::from_index(14), Voltage::Maximum);
    assert_eq!(Voltage::from_index(15), Voltage::Maximum);
    assert_eq!(Voltage::from_index(200), Voltage::Maximum);
}

#[test]
fn max_power_doubles_twice_per_tier() {
    let tiers = all_tiers();
    assert_eq!(tiers[0].max_eu_per_tick(), 8);
    for w in tiers.windows(2) {
        assert_eq!(w[1].max_eu_per_tick(), w[0].max_eu_per_tick() * 4);
    }
    assert_eq!(Voltage::High.max_eu_per_tick(), 512);
    assert_eq!(Voltage::Maximum.max_eu_per_tick(), 2147483648);
}

#[test]
fn tier_from_power_is_minimal() {
    assert_eq!(Voltage::from_eu_per_tick(1), Voltage::UltraLow);
    assert_eq!(Voltage::from_eu_per_tick(8), Voltage::UltraLow);
    // nine already needs the second tier
    assert_eq!(Voltage::from_eu_per_tick(9), Voltage::Low);
    assert_eq!(Voltage::from_eu_per_tick(32), Voltage::Low);
    assert_eq!(Voltage::from_eu_per_tick(33), Voltage::Medium);
    assert_eq!(Voltage::from_eu_per_tick(512), Voltage::High);
    assert_eq!(Voltage::from_eu_per_tick(2147483648), Voltage::Maximum);
    // beyond every tier's ceiling, clamp to the top tier
    assert_eq!(Voltage::from_eu_per_tick(u64::MAX), Voltage::Maximum);
}

#[test]
fn tier_from_signed_power_uses_magnitude() {
    assert_eq!(Voltage::from_signed_eu_per_tick(-32), Voltage::Low);
    assert_eq!(Voltage::from_signed_eu_per_tick(32), Voltage::Low);
    assert_eq!(Voltage::from_signed_eu_per_tick(i64::MIN), Voltage::Maximum);
}

#[test]
fn speed_factor_is_power_of_two() {
    // two steps of overclocking run four times as fast
    let four = Rat::new(4, 1);
    assert!(Voltage::High.speed_factor(Voltage::Low).eq_rat(&four));
    // underclocking divides
    let quarter = Rat::new(1, 4);
    assert!(Voltage::Low.speed_factor(Voltage::High).eq_rat(&quarter));
    // the same tier runs at exactly one
    for v in all_tiers() {
        assert!(v.speed_factor(v).eq_rat(&Rat::one()));
        assert_eq!(v.eu_factor_log2(v), 0);
        assert_eq!(v.overclocking_steps(v), 0);
    }
}

#[test]
fn energy_factor_is_twice_the_steps() {
    assert_eq!(Voltage::High.eu_factor_log2(Voltage::Low), 4);
    assert_eq!(Voltage::Low.eu_factor_log2(Voltage::High), -4);
    assert_eq!(Voltage::Maximum.eu_factor_log2(Voltage::UltraLow), 28);
    assert_eq!(Voltage::High.overclocking_steps(Voltage::Low), 2);
}

#[test]
fn acronyms_round_trip() {
    for v in all_tiers() {
        let text = v.acronym();
        assert_eq!(Voltage::from_acronym(text), Ok(v));
    }
    assert_eq!(Voltage::from_acronym("HV"), Ok(Voltage::High));
    assert_eq!(Voltage::from_acronym("LuV"), Ok(Voltage::Ludicrous));
    assert!(Voltage::from_acronym("hv").is_err());
    assert!(Voltage::from_acronym("").is_err());
    assert!(Voltage::from_acronym("HVX").is_err());
}

#[test]
fn names_are_distinct() {
    let tiers = all_tiers();
    for a in 0..tiers.len() {
        for b in 0..tiers.len() {
            if a != b {
                assert_ne!(tiers[a].name(), tiers[b].name());
                assert_ne!(tiers[a].acronym(), tiers[b].acronym());
            }
        }
    }
    assert_eq!(Voltage::High.name(), "High Voltage");
}

#[test]
fn overclocking_moves_within_range() {
    assert_eq!(Voltage::Low.with_overclocking(2), Voltage::High);
    assert_eq!(Voltage::Low.with_overclocking(-1), Voltage::UltraLow);
    assert_eq!(Voltage::Low.with_overclocking(-5), Voltage::UltraLow);
    assert_eq!(Voltage::Overpowered.with_overclocking(5), Voltage::Maximum);
}
