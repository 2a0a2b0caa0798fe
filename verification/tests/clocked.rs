use greg_calc::machine::{
    ClockedMachine, ClockedMachineParseError, ClockedMachines, MachinePowerError, Machines,
    Voltage,
};
use greg_calc::rational::Rat;

#[test]
fn machine_text_round_trips() {
    let unthrottled = ClockedMachine::new(Voltage::High);
    assert_eq!(unthrottled.to_text(), "HV");
    assert_eq!(ClockedMachine::parse_text("HV"), Ok(unthrottled));

    let clocked = ClockedMachine::with_underclocking(Voltage::High, Voltage::Low);
    assert_eq!(clocked.to_text(), "HV@LV");
    assert_eq!(ClockedMachine::parse_text("HV@LV"), Ok(clocked));
}

#[test]
fn text_then_machine_round_trips() {
    for text in ["ULV", "LV", "MAX", "EV@LV", "UXV@ZPM", "LuV@IV"] {
        let cm = ClockedMachine::parse_text(text).unwrap();
        assert_eq!(cm.to_text(), text);
    }
    // an explicit clocking equal to the tier parses, but formats back to
    // the short form
    let cm = ClockedMachine::parse_text("HV@HV").unwrap();
    assert_eq!(cm, ClockedMachine::new(Voltage::High));
    assert_eq!(cm.to_text(), "HV");
}

#[test]
fn machine_text_rejects_bad_input() {
    assert_eq!(
        ClockedMachine::parse_text("XX"),
        Err(ClockedMachineParseError::InvalidVoltage)
    );
    assert_eq!(
        ClockedMachine::parse_text("HV@??"),
        Err(ClockedMachineParseError::InvalidVoltage)
    );
    // clocking above the machine tier is impossible
    assert_eq!(
        ClockedMachine::parse_text("LV@HV"),
        Err(ClockedMachineParseError::ClockingAboveTier)
    );
    assert_eq!(
        ClockedMachine::parse_text(""),
        Err(ClockedMachineParseError::InvalidVoltage)
    );
    assert_eq!(
        ClockedMachine::parse_text("HV@LV@ULV"),
        Err(ClockedMachineParseError::InvalidVoltage)
    );
}

#[test]
fn population_insert_remove_get() {
    let mut cms = ClockedMachines::new();
    let hv = ClockedMachine::new(Voltage::High);
    let lv = ClockedMachine::new(Voltage::Low);
    cms.insert(hv, 2);
    cms.insert(lv, 5);
    assert_eq!(cms.get(&hv), Some(2));
    cms.insert(hv, 3);
    assert_eq!(cms.get(&hv), Some(3));
    assert_eq!(cms.get(&lv), Some(5));
    cms.remove(&hv);
    assert_eq!(cms.get(&hv), None);
    assert_eq!(cms.get(&lv), Some(5));
}

#[test]
fn population_speed_sums_counts_and_overclocks() {
    let mut cms = ClockedMachines::new();
    // three machines two tiers above the recipe: 3 * 4 = 12
    cms.insert(ClockedMachine::new(Voltage::High), 3);
    // one machine clocked down to the recipe tier: 1 * 1 = 1
    cms.insert(
        ClockedMachine::with_underclocking(Voltage::Extreme, Voltage::Low),
        1,
    );
    let speed = cms.speed_factor(Voltage::Low);
    assert!(speed.eq_rat(&Rat::new(13, 1)));
}

#[test]
fn population_energy_quadruples_per_step() {
    let mut cms = ClockedMachines::new();
    cms.insert(ClockedMachine::new(Voltage::High), 1);
    // a recipe drawing 32 per tick run two tiers up draws 16 times as much
    let eu = cms.eu_per_tick(32);
    assert!(eu.eq_rat(&Rat::new(512, 1)));
}

#[test]
fn underclocked_energy_takes_the_floor() {
    let mut cms = ClockedMachines::new();
    // a draw of 33 needs the third tier; clocked all the way down the
    // draw shifts right by four bits: floor(33 / 16) = 2
    cms.insert(
        ClockedMachine::with_underclocking(Voltage::Medium, Voltage::UltraLow),
        1,
    );
    let eu = cms.eu_per_tick(33);
    assert!(eu.eq_rat(&Rat::new(2, 1)));
    // the floor rounds a negative draw toward minus infinity
    let eu_neg = cms.eu_per_tick(-33);
    assert!(eu_neg.eq_rat(&Rat::new(-3, 1)));
}

#[test]
fn population_texts_round_trip() {
    let mut cms = ClockedMachines::new();
    cms.insert(ClockedMachine::new(Voltage::High), 2);
    cms.insert(
        ClockedMachine::with_underclocking(Voltage::Extreme, Voltage::Medium),
        7,
    );
    let texts = cms.to_texts();
    assert_eq!(texts.len(), 2);
    assert_eq!(texts[0].0, "HV");
    assert_eq!(texts[0].1, 2);
    assert_eq!(texts[1].0, "EV@MV");
    assert_eq!(texts[1].1, 7);
    let back = ClockedMachines::from_texts(&texts).unwrap();
    assert_eq!(back.get(&ClockedMachine::new(Voltage::High)), Some(2));
    assert_eq!(
        back.get(&ClockedMachine::with_underclocking(
            Voltage::Extreme,
            Voltage::Medium
        )),
        Some(7)
    );
    assert_eq!(back.machines.len(), 2);
}

#[test]
fn population_texts_reject_bad_entries() {
    let bad = vec![(String::from("HV"), 1u64), (String::from("??"), 1u64)];
    assert!(ClockedMachines::from_texts(&bad).is_err());
    let zero = vec![(String::from("HV"), 0u64)];
    assert!(ClockedMachines::from_texts(&zero).is_err());
}

#[test]
fn machine_kind_must_match_power() {
    let eco = Machines::Eco(5);
    // an unpowered population cannot run a powered recipe
    assert!(matches!(
        eco.speed_factor(Some(Voltage::Low)),
        Err(MachinePowerError::RequiresPower)
    ));
    assert!(eco.speed_factor(None).unwrap().eq_rat(&Rat::new(5, 1)));

    let mut cms = ClockedMachines::new();
    cms.insert(ClockedMachine::new(Voltage::Low), 1);
    let powered = Machines::Power(cms);
    assert!(matches!(
        powered.speed_factor(None),
        Err(MachinePowerError::RequiresEco)
    ));
    assert!(powered
        .speed_factor(Some(Voltage::Low))
        .unwrap()
        .eq_rat(&Rat::one()));
}

#[test]
fn population_kind_switches() {
    let mut m = Machines::Eco(4);
    m.into_clocked();
    assert!(matches!(m, Machines::Power(_)));
    m.into_eco();
    assert!(matches!(m, Machines::Eco(0)));
}
