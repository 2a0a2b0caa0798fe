//! Voltage tiers, clocked machines, and machine populations.
//!
//! A voltage tier is a discrete power-capacity class; tier `t` supplies at
//! most `2^(2t+3)` energy units per tick. A machine of some tier may be
//! clocked down to a lower tier; running a recipe on a machine clocked
//! above the recipe's required tier doubles the speed and quadruples the
//! energy draw per step of difference.

use vstd::prelude::*;

use crate::frac::{f_int, fadd, feq, fmul, fpow2, fzero, lemma_fpow2_wf, lemma_pow2_mono, lemma_pow2_pos, pow2_int, Frac};
use crate::rational::Rat;

verus! {

/// A voltage tier. Tier `t` supplies at most `2^(2t+3)` energy units per tick.
#[derive(Clone, Copy, Debug, PartialEq, Eq, Hash, Structural)]
pub enum Voltage {
    UltraLow,
    Low,
    Medium,
    High,
    Extreme,
    Insane,
    Ludicrous,
    Zpm,
    Ultimate,
    UltraHigh,
    UltraExcessive,
    UltraImmense,
    UltraExtreme,
    Overpowered,
    Maximum,
}

impl Voltage {
    /// The position of this tier in the ascending tier order.
    pub open spec fn index_spec(self) -> int {
        match self {
            Voltage::UltraLow => 0,
            Voltage::Low => 1,
            Voltage::Medium => 2,
            Voltage::High => 3,
            Voltage::Extreme => 4,
            Voltage::Insane => 5,
            Voltage::Ludicrous => 6,
            Voltage::Zpm => 7,
            Voltage::Ultimate => 8,
            Voltage::UltraHigh => 9,
            Voltage::UltraExcessive => 10,
            Voltage::UltraImmense => 11,
            Voltage::UltraExtreme => 12,
            Voltage::Overpowered => 13,
            Voltage::Maximum => 14,
        }
    }

    /// The position of this tier in the ascending tier order.
    pub fn index(self) -> (i: u8)
        ensures
            i == self.index_spec(),
    {
        match self {
            Voltage::UltraLow => 0,
            Voltage::Low => 1,
            Voltage::Medium => 2,
            Voltage::High => 3,
            Voltage::Extreme => 4,
            Voltage::Insane => 5,
            Voltage::Ludicrous => 6,
            Voltage::Zpm => 7,
            Voltage::Ultimate => 8,
            Voltage::UltraHigh => 9,
            Voltage::UltraExcessive => 10,
            Voltage::UltraImmense => 11,
            Voltage::UltraExtreme => 12,
            Voltage::Overpowered => 13,
            Voltage::Maximum => 14,
        }
    }

    /// The tier at a given index, clamped to the highest tier.
    pub open spec fn from_index_spec(index: int) -> Voltage {
        if index <= 0 {
            Voltage::UltraLow
        } else if index == 1 {
            Voltage::Low
        } else if index == 2 {
            Voltage::Medium
        } else if index == 3 {
            Voltage::High
        } else if index == 4 {
            Voltage::Extreme
        } else if index == 5 {
            Voltage::Insane
        } else if index == 6 {
            Voltage::Ludicrous
        } else if index == 7 {
            Voltage::Zpm
        } else if index == 8 {
            Voltage::Ultimate
        } else if index == 9 {
            Voltage::UltraHigh
        } else if index == 10 {
            Voltage::UltraExcessive
        } else if index == 11 {
            Voltage::UltraImmense
        } else if index == 12 {
            Voltage::UltraExtreme
        } else if index == 13 {
            Voltage::Overpowered
        } else {
            Voltage::Maximum
        }
    }

    /// The tier at a given index, clamped to the highest tier.
    pub fn from_index(index: u8) -> (v: Voltage)
        ensures
            v == Voltage::from_index_spec(index as int),
    {
        match index {
            0 => Voltage::UltraLow,
            1 => Voltage::Low,
            2 => Voltage::Medium,
            3 => Voltage::High,
            4 => Voltage::Extreme,
            5 => Voltage::Insane,
            6 => Voltage::Ludicrous,
            7 => Voltage::Zpm,
            8 => Voltage::Ultimate,
            9 => Voltage::UltraHigh,
            10 => Voltage::UltraExcessive,
            11 => Voltage::UltraImmense,
            12 => Voltage::UltraExtreme,
            13 => Voltage::Overpowered,
            _ => Voltage::Maximum,
        }
    }

    /// The maximum energy draw per tick this tier supplies: `2^(2t+3)`.
    pub open spec fn max_eu_spec(self) -> int {
        pow2_int(2 * self.index_spec() + 3)
    }

    /// The maximum energy draw per tick this tier supplies: `2^(2t+3)`.
    pub fn max_eu_per_tick(self) -> (r: u64)
        ensures
            r == self.max_eu_spec(),
    {
        proof {
            assert(pow2_int(3) == 8 && pow2_int(5) == 32 && pow2_int(7) == 128 && pow2_int(9)
                == 512 && pow2_int(11) == 2048 && pow2_int(13) == 8192 && pow2_int(15) == 32768
                && pow2_int(17) == 131072 && pow2_int(19) == 524288 && pow2_int(21) == 2097152
                && pow2_int(23) == 8388608 && pow2_int(25) == 33554432 && pow2_int(27) == 134217728
                && pow2_int(29) == 536870912 && pow2_int(31) == 2147483648) by {
                reveal_with_fuel(pow2_int, 33);
            }
        }
        match self {
            Voltage::UltraLow => 8,
            Voltage::Low => 32,
            Voltage::Medium => 128,
            Voltage::High => 512,
            Voltage::Extreme => 2048,
            Voltage::Insane => 8192,
            Voltage::Ludicrous => 32768,
            Voltage::Zpm => 131072,
            Voltage::Ultimate => 524288,
            Voltage::UltraHigh => 2097152,
            Voltage::UltraExcessive => 8388608,
            Voltage::UltraImmense => 33554432,
            Voltage::UltraExtreme => 134217728,
            Voltage::Overpowered => 536870912,
            Voltage::Maximum => 2147483648,
        }
    }

    /// The lowest tier whose supply covers an energy draw of `eu` per tick;
    /// the highest tier if none does.
    pub open spec fn from_eu_spec(eu: int) -> Voltage {
        Self::from_eu_index_spec(eu, 0)
    }

    /// Helper for `from_eu_spec`: the lowest tier at index `i` or above
    /// whose supply covers `eu`, or the highest tier.
    pub open spec fn from_eu_index_spec(eu: int, i: int) -> Voltage
        decreases 14 - i,
    {
        if i >= 14 {
            Voltage::Maximum
        } else if eu <= Voltage::from_index_spec(i).max_eu_spec() {
            Voltage::from_index_spec(i)
        } else {
            Self::from_eu_index_spec(eu, i + 1)
        }
    }

    /// The lowest tier whose supply covers an energy draw of `eu` per tick;
    /// the highest tier if none does.
    pub fn from_eu_per_tick(eu: u64) -> (v: Voltage)
        requires
            eu >= 1,
        ensures
            v == Voltage::from_eu_spec(eu as int),
    {
        let mut i: u8 = 0;
        while i < 14
            invariant
                0 <= i <= 14,
                Voltage::from_eu_spec(eu as int) == Voltage::from_eu_index_spec(eu as int, i as int),
            decreases 14 - i,
        {
            let tier = Voltage::from_index(i);
            if eu <= tier.max_eu_per_tick() {
                return tier;
            }
            i = i + 1;
        }
        Voltage::Maximum
    }

    /// The lowest tier whose supply covers an energy draw of `|eu|` per
    /// tick, for a signed draw; the highest tier if none does.
    pub fn from_signed_eu_per_tick(eu: i64) -> (v: Voltage)
        requires
            eu != 0,
        ensures
            v == Voltage::from_eu_spec(abs_int(eu as int)),
    {
        let magnitude: u64 = if eu < 0 {
            (-(eu as i128)) as u64
        } else {
            eu as u64
        };
        Voltage::from_eu_per_tick(magnitude)
    }

    /// How many tiers `self` lies above `recipe_voltage` (negative when below).
    pub fn overclocking_steps(self, recipe_voltage: Voltage) -> (r: i8)
        ensures
            r == self.index_spec() - recipe_voltage.index_spec(),
    {
        self.index() as i8 - recipe_voltage.index() as i8
    }

    /// How much faster a machine at this tier runs a recipe requiring
    /// `recipe_voltage`: two to the power of the tier difference.
    pub fn speed_factor(self, recipe_voltage: Voltage) -> (r: Rat)
        ensures
            r@.wf(),
            feq(r@, fpow2(self.index_spec() - recipe_voltage.index_spec())),
    {
        let steps = self.overclocking_steps(recipe_voltage);
        if steps >= 0 {
            Rat::from_u64(pow2_u64(steps as u8))
        } else {
            let den = pow2_u64((-steps) as u8);
            Rat::new(1, den as i64)
        }
    }

    /// The base-two logarithm of the energy factor: each tier of
    /// overclocking quadruples the draw.
    pub fn eu_factor_log2(self, recipe_voltage: Voltage) -> (r: i8)
        ensures
            r == 2 * (self.index_spec() - recipe_voltage.index_spec()),
    {
        2 * self.overclocking_steps(recipe_voltage)
    }

    /// The tier reached after `steps` tiers of overclocking (negative steps
    /// clock down), clamped to the tier range.
    pub fn with_overclocking(self, steps: i8) -> (r: Voltage)
        ensures
            r == Voltage::from_index_spec(self.index_spec() + steps),
    {
        let target: i16 = self.index() as i16 + steps as i16;
        if target <= 0 {
            Voltage::UltraLow
        } else if target >= 14 {
            Voltage::Maximum
        } else {
            Voltage::from_index(target as u8)
        }
    }
}

impl Voltage {
    /// The acronym that names this tier, e.g. `"HV"`.
    pub open spec fn acronym_spec(self) -> Seq<char> {
        match self {
            Voltage::UltraLow => "ULV"@,
            Voltage::Low => "LV"@,
            Voltage::Medium => "MV"@,
            Voltage::High => "HV"@,
            Voltage::Extreme => "EV"@,
            Voltage::Insane => "IV"@,
            Voltage::Ludicrous => "LuV"@,
            Voltage::Zpm => "ZPM"@,
            Voltage::Ultimate => "UV"@,
            Voltage::UltraHigh => "UHV"@,
            Voltage::UltraExcessive => "UEV"@,
            Voltage::UltraImmense => "UIV"@,
            Voltage::UltraExtreme => "UXV"@,
            Voltage::Overpowered => "OpV"@,
            Voltage::Maximum => "MAX"@,
        }
    }

    /// The acronym that names this tier, e.g. `"HV"`.
    pub fn acronym(self) -> (r: &'static str)
        ensures
            r@ == self.acronym_spec(),
            r.is_ascii(),
    {
        proof {
            reveal_all_acronyms();
            assert(vstd::utf8::is_ascii_chars(self.acronym_spec()));
        }
        match self {
            Voltage::UltraLow => "ULV",
            Voltage::Low => "LV",
            Voltage::Medium => "MV",
            Voltage::High => "HV",
            Voltage::Extreme => "EV",
            Voltage::Insane => "IV",
            Voltage::Ludicrous => "LuV",
            Voltage::Zpm => "ZPM",
            Voltage::Ultimate => "UV",
            Voltage::UltraHigh => "UHV",
            Voltage::UltraExcessive => "UEV",
            Voltage::UltraImmense => "UIV",
            Voltage::UltraExtreme => "UXV",
            Voltage::Overpowered => "OpV",
            Voltage::Maximum => "MAX",
        }
    }

    /// The full name of this tier, e.g. `"High Voltage"`.
    pub fn name(self) -> (r: &'static str)
        ensures
            r@ == self.name_spec(),
    {
        match self {
            Voltage::UltraLow => "Ultra Low Voltage",
            Voltage::Low => "Low Voltage",
            Voltage::Medium => "Medium Voltage",
            Voltage::High => "High Voltage",
            Voltage::Extreme => "Extreme Voltage",
            Voltage::Insane => "Insane Voltage",
            Voltage::Ludicrous => "Ludicrous Voltage",
            Voltage::Zpm => "ZPM Voltage",
            Voltage::Ultimate => "Ultimate Voltage",
            Voltage::UltraHigh => "Ultra High Voltage",
            Voltage::UltraExcessive => "Ultra Excessive Voltage",
            Voltage::UltraImmense => "Ultra Immense Voltage",
            Voltage::UltraExtreme => "Ultra Extreme Voltage",
            Voltage::Overpowered => "Overpowered Voltage",
            Voltage::Maximum => "Maximum Voltage",
        }
    }

    /// The full name of this tier, e.g. `"High Voltage"`.
    pub open spec fn name_spec(self) -> Seq<char> {
        match self {
            Voltage::UltraLow => "Ultra Low Voltage"@,
            Voltage::Low => "Low Voltage"@,
            Voltage::Medium => "Medium Voltage"@,
            Voltage::High => "High Voltage"@,
            Voltage::Extreme => "Extreme Voltage"@,
            Voltage::Insane => "Insane Voltage"@,
            Voltage::Ludicrous => "Ludicrous Voltage"@,
            Voltage::Zpm => "ZPM Voltage"@,
            Voltage::Ultimate => "Ultimate Voltage"@,
            Voltage::UltraHigh => "Ultra High Voltage"@,
            Voltage::UltraExcessive => "Ultra Excessive Voltage"@,
            Voltage::UltraImmense => "Ultra Immense Voltage"@,
            Voltage::UltraExtreme => "Ultra Extreme Voltage"@,
            Voltage::Overpowered => "Overpowered Voltage"@,
            Voltage::Maximum => "Maximum Voltage"@,
        }
    }

    /// The tier a character sequence names, if it is one of the acronyms.
    pub open spec fn parse_acronym_spec(s: Seq<char>) -> Option<Voltage> {
        if s == "ULV"@ {
            Some(Voltage::UltraLow)
        } else if s == "LV"@ {
            Some(Voltage::Low)
        } else if s == "MV"@ {
            Some(Voltage::Medium)
        } else if s == "HV"@ {
            Some(Voltage::High)
        } else if s == "EV"@ {
            Some(Voltage::Extreme)
        } else if s == "IV"@ {
            Some(Voltage::Insane)
        } else if s == "LuV"@ {
            Some(Voltage::Ludicrous)
        } else if s == "ZPM"@ {
            Some(Voltage::Zpm)
        } else if s == "UV"@ {
            Some(Voltage::Ultimate)
        } else if s == "UHV"@ {
            Some(Voltage::UltraHigh)
        } else if s == "UEV"@ {
            Some(Voltage::UltraExcessive)
        } else if s == "UIV"@ {
            Some(Voltage::UltraImmense)
        } else if s == "UXV"@ {
            Some(Voltage::UltraExtreme)
        } else if s == "OpV"@ {
            Some(Voltage::Overpowered)
        } else if s == "MAX"@ {
            Some(Voltage::Maximum)
        } else {
            None
        }
    }

    /// Parses a tier acronym; rejects anything that is not exactly one of
    /// the acronyms.
    pub fn from_acronym(s: &str) -> (r: Result<Voltage, VoltageFromStrError>)
        ensures
            match r {
                Ok(v) => Voltage::parse_acronym_spec(s@) == Some(v),
                Err(_) => Voltage::parse_acronym_spec(s@) is None,
            },
    {
        proof {
            reveal_all_acronyms();
            assert(vstd::utf8::is_ascii_chars(Voltage::UltraLow.acronym_spec())
                && vstd::utf8::is_ascii_chars(Voltage::Low.acronym_spec())
                && vstd::utf8::is_ascii_chars(Voltage::Medium.acronym_spec())
                && vstd::utf8::is_ascii_chars(Voltage::High.acronym_spec())
                && vstd::utf8::is_ascii_chars(Voltage::Extreme.acronym_spec())
                && vstd::utf8::is_ascii_chars(Voltage::Insane.acronym_spec())
                && vstd::utf8::is_ascii_chars(Voltage::Ludicrous.acronym_spec())
                && vstd::utf8::is_ascii_chars(Voltage::Zpm.acronym_spec())
                && vstd::utf8::is_ascii_chars(Voltage::Ultimate.acronym_spec())
                && vstd::utf8::is_ascii_chars(Voltage::UltraHigh.acronym_spec())
                && vstd::utf8::is_ascii_chars(Voltage::UltraExcessive.acronym_spec())
                && vstd::utf8::is_ascii_chars(Voltage::UltraImmense.acronym_spec())
                && vstd::utf8::is_ascii_chars(Voltage::UltraExtreme.acronym_spec())
                && vstd::utf8::is_ascii_chars(Voltage::Overpowered.acronym_spec())
                && vstd::utf8::is_ascii_chars(Voltage::Maximum.acronym_spec()));
        }
        if crate::text::eq_str(s, "ULV") {
            Ok(Voltage::UltraLow)
        } else if crate::text::eq_str(s, "LV") {
            Ok(Voltage::Low)
        } else if crate::text::eq_str(s, "MV") {
            Ok(Voltage::Medium)
        } else if crate::text::eq_str(s, "HV") {
            Ok(Voltage::High)
        } else if crate::text::eq_str(s, "EV") {
            Ok(Voltage::Extreme)
        } else if crate::text::eq_str(s, "IV") {
            Ok(Voltage::Insane)
        } else if crate::text::eq_str(s, "LuV") {
            Ok(Voltage::Ludicrous)
        } else if crate::text::eq_str(s, "ZPM") {
            Ok(Voltage::Zpm)
        } else if crate::text::eq_str(s, "UV") {
            Ok(Voltage::Ultimate)
        } else if crate::text::eq_str(s, "UHV") {
            Ok(Voltage::UltraHigh)
        } else if crate::text::eq_str(s, "UEV") {
            Ok(Voltage::UltraExcessive)
        } else if crate::text::eq_str(s, "UIV") {
            Ok(Voltage::UltraImmense)
        } else if crate::text::eq_str(s, "UXV") {
            Ok(Voltage::UltraExtreme)
        } else if crate::text::eq_str(s, "OpV") {
            Ok(Voltage::Overpowered)
        } else if crate::text::eq_str(s, "MAX") {
            Ok(Voltage::Maximum)
        } else {
            Err(VoltageFromStrError)
        }
    }
}

/// Reveals every acronym literal, so that the parse and format functions
/// can compare them.
pub proof fn reveal_all_acronyms()
    ensures
        is_ascii_acronyms(),
{
    reveal_strlit("ULV");
    reveal_strlit("LV");
    reveal_strlit("MV");
    reveal_strlit("HV");
    reveal_strlit("EV");
    reveal_strlit("IV");
    reveal_strlit("LuV");
    reveal_strlit("ZPM");
    reveal_strlit("UV");
    reveal_strlit("UHV");
    reveal_strlit("UEV");
    reveal_strlit("UIV");
    reveal_strlit("UXV");
    reveal_strlit("OpV");
    reveal_strlit("MAX");
    assert forall|v: Voltage| vstd::utf8::is_ascii_chars(#[trigger] v.acronym_spec()) by {
        match v {
            _ => {},
        }
    }
}

/// Every tier acronym is ASCII.
pub open spec fn is_ascii_acronyms() -> bool {
    forall|v: Voltage| vstd::utf8::is_ascii_chars(#[trigger] v.acronym_spec())
}

/// The error of parsing a voltage acronym.
#[derive(Clone, Copy, Debug, PartialEq, Eq, Structural)]
pub struct VoltageFromStrError;

/// The tier and clocking of some machine, e.g. an `HV` machine running at
/// `LV`. The clocking never exceeds the tier: a machine can be clocked
/// down, while running a recipe above its required tier is what overclocks
/// the recipe.
#[derive(Clone, Copy, Debug, PartialEq, Eq, Hash, Structural)]
pub struct ClockedMachine {
    /// The machine's physical tier. Only the clocking matters for speed
    /// and power; the tier bounds the clocking from above.
    pub tier: Voltage,
    /// The tier the machine is clocked to; at most `tier`.
    pub underclocking: Voltage,
}

/// The error of parsing a clocked-machine text.
#[derive(Clone, Copy, Debug, PartialEq, Eq, Structural)]
pub enum ClockedMachineParseError {
    /// A tier was not a voltage acronym.
    InvalidVoltage,
    /// The stated clocking lay above the stated machine tier.
    ClockingAboveTier,
}

impl ClockedMachine {
    /// The machine's tier.
    pub open spec fn tier_spec(self) -> Voltage {
        self.tier
    }

    /// The tier the machine is clocked to.
    pub open spec fn underclocking_spec(self) -> Voltage {
        self.underclocking
    }

    /// The clocking does not exceed the tier.
    pub open spec fn wf(self) -> bool {
        self.underclocking_spec().index_spec() <= self.tier_spec().index_spec()
    }

    /// A machine of the given tier, clocked to its own tier.
    pub fn new(tier: Voltage) -> (r: ClockedMachine)
        ensures
            r.tier_spec() == tier,
            r.underclocking_spec() == tier,
            r.wf(),
    {
        ClockedMachine { tier, underclocking: tier }
    }

    /// A machine of the given tier, clocked to `underclocking`, which must
    /// not exceed the tier.
    pub fn with_underclocking(tier: Voltage, underclocking: Voltage) -> (r: ClockedMachine)
        requires
            underclocking.index_spec() <= tier.index_spec(),
        ensures
            r.tier_spec() == tier,
            r.underclocking_spec() == underclocking,
            r.wf(),
    {
        ClockedMachine { tier, underclocking }
    }

    /// The machine's tier.
    pub fn tier(&self) -> (r: Voltage)
        ensures
            r == self.tier_spec(),
    {
        self.tier
    }

    /// The tier the machine is clocked to.
    pub fn underclocking(&self) -> (r: Voltage)
        ensures
            r == self.underclocking_spec(),
    {
        self.underclocking
    }

    /// The text that names this machine: the tier acronym, followed by
    /// `@` and the clocking acronym when the machine is clocked down.
    pub open spec fn text_spec(self) -> Seq<char> {
        if self.underclocking_spec() == self.tier_spec() {
            self.tier_spec().acronym_spec()
        } else {
            self.tier_spec().acronym_spec() + "@"@ + self.underclocking_spec().acronym_spec()
        }
    }

    /// Formats this machine as text, e.g. `"HV"` or `"HV@LV"`.
    pub fn to_text(&self) -> (r: String)
        ensures
            r@ == self.text_spec(),
    {
        let mut out = self.tier.acronym().to_owned();
        if !voltage_eq(self.underclocking, self.tier) {
            out.push_str("@");
            out.push_str(self.underclocking.acronym());
        }
        out
    }

    /// The machine a character sequence describes: a tier acronym, or a
    /// tier and a clocking acronym joined by `@`. Rejected are non-ASCII
    /// text, anything that is not an acronym, and a clocking above the
    /// tier.
    pub open spec fn parse_text_spec(s: Seq<char>) -> Result<
        ClockedMachine,
        ClockedMachineParseError,
    > {
        if !vstd::utf8::is_ascii_chars(s) {
            Err(ClockedMachineParseError::InvalidVoltage)
        } else {
            let tier_part = match find_at_spec(s) {
                Some(p) => s.take(p),
                None => s,
            };
            let clock_part = match find_at_spec(s) {
                Some(p) => s.skip(p + 1),
                None => s,
            };
            match (Voltage::parse_acronym_spec(tier_part), Voltage::parse_acronym_spec(
                clock_part,
            )) {
                (Some(tier), Some(clocking)) => if clocking.index_spec() <= tier.index_spec() {
                    Ok(ClockedMachine { tier, underclocking: clocking })
                } else {
                    Err(ClockedMachineParseError::ClockingAboveTier)
                },
                _ => Err(ClockedMachineParseError::InvalidVoltage),
            }
        }
    }

    /// Parses a clocked-machine text, e.g. `"HV"` or `"HV@LV"`.
    pub fn parse_text(s: &str) -> (r: Result<ClockedMachine, ClockedMachineParseError>)
        ensures
            r == ClockedMachine::parse_text_spec(s@),
            r matches Ok(cm) ==> cm.wf(),
    {
        if !s.is_ascii() {
            return Err(ClockedMachineParseError::InvalidVoltage);
        }
        let n = s.unicode_len();
        let mut i: usize = 0;
        let mut at_pos: Option<usize> = None;
        while i < n && at_pos.is_none()
            invariant
                s.is_ascii(),
                n == s@.len(),
                0 <= i <= n,
                forall|j: int| 0 <= j < i ==> s@[j] != '@',
                at_pos matches Some(p) ==> i < n && i == p && s@[p as int] == '@',
            decreases n - i + (if at_pos is None { 1int } else { 0int }),
        {
            proof {
                vstd::utf8::is_ascii_chars_nat_bound(s@);
            }
            if s.get_ascii(i) == 64 {
                proof {
                    assert(s@[i as int] == '@') by {
                        assert((s@[i as int] as nat) < 128);
                        assert(s@[i as int] as u8 == 64);
                    }
                }
                at_pos = Some(i);
            } else {
                proof {
                    assert(s@[i as int] != '@') by {
                        assert((s@[i as int] as nat) < 128);
                        assert(s@[i as int] as u8 != 64);
                    }
                }
                i = i + 1;
            }
        }
        proof {
            match at_pos {
                Some(p) => lemma_find_at_some(s@, p as int),
                None => lemma_find_at_none(s@),
            }
        }
        let (tier_part, clock_part) = match at_pos {
            Some(p) => (s.substring_ascii(0, p), s.substring_ascii(p + 1, n)),
            None => (s, s),
        };
        proof {
            match find_at_spec(s@) {
                Some(p) => {
                    assert(tier_part@ =~= s@.take(p));
                    assert(clock_part@ =~= s@.skip(p + 1));
                },
                None => {},
            }
        }
        let tier = match Voltage::from_acronym(tier_part) {
            Ok(v) => v,
            Err(_) => {
                return Err(ClockedMachineParseError::InvalidVoltage);
            },
        };
        let clocking = match Voltage::from_acronym(clock_part) {
            Ok(v) => v,
            Err(_) => {
                return Err(ClockedMachineParseError::InvalidVoltage);
            },
        };
        if clocking.index() <= tier.index() {
            Ok(ClockedMachine { tier, underclocking: clocking })
        } else {
            Err(ClockedMachineParseError::ClockingAboveTier)
        }
    }
}

/// Whether two tiers are the same.
pub fn voltage_eq(a: Voltage, b: Voltage) -> (r: bool)
    ensures
        r == (a == b),
{
    a.index() == b.index()
}

/// The first position of `@` in a character sequence, if any.
pub open spec fn find_at_spec(s: Seq<char>) -> Option<int>
    decreases s.len(),
{
    if s.len() == 0 {
        None
    } else if s[0] == '@' {
        Some(0)
    } else {
        match find_at_spec(s.drop_first()) {
            Some(i) => Some(i + 1),
            None => None,
        }
    }
}

/// If `@` stands at position `p` and nowhere earlier, the first position
/// of `@` is `p`.
pub proof fn lemma_find_at_some(s: Seq<char>, p: int)
    requires
        0 <= p < s.len(),
        s[p] == '@',
        forall|j: int| 0 <= j < p ==> s[j] != '@',
    ensures
        find_at_spec(s) == Some(p),
    decreases s.len(),
{
    if p > 0 {
        lemma_find_at_some(s.drop_first(), p - 1);
    }
}

/// If `@` stands nowhere in the sequence, there is no first position.
pub proof fn lemma_find_at_none(s: Seq<char>)
    requires
        forall|j: int| 0 <= j < s.len() ==> s[j] != '@',
    ensures
        find_at_spec(s) is None,
    decreases s.len(),
{
    if s.len() > 0 {
        lemma_find_at_none(s.drop_first());
    }
}

/// The tier chosen for an energy draw is minimal: any lower tier's
/// ceiling lies strictly below the draw.
pub proof fn lemma_from_eu_minimal(eu: int, i: int)
    requires
        0 <= i <= 14,
        forall|j: int| 0 <= j < i ==> eu > Voltage::from_index_spec(j).max_eu_spec(),
    ensures
        Voltage::from_eu_index_spec(eu, i).index_spec() > 0 ==> eu > pow2_int(
            2 * Voltage::from_eu_index_spec(eu, i).index_spec() + 1,
        ),
    decreases 14 - i,
{
    if i >= 14 {
        assert(Voltage::from_index_spec(13).max_eu_spec() == pow2_int(2 * 14int + 1));
    } else if eu <= Voltage::from_index_spec(i).max_eu_spec() {
        let t = Voltage::from_index_spec(i);
        if t.index_spec() > 0 {
            assert(t.index_spec() == i);
            assert(eu > Voltage::from_index_spec(i - 1).max_eu_spec());
            assert(Voltage::from_index_spec(i - 1).max_eu_spec() == pow2_int(2 * i + 1));
        }
    } else {
        lemma_from_eu_minimal(eu, i + 1);
    }
}

/// Law: the defensive arithmetic invariant of the energy model. A
/// machine clocked at or below its recipe's required tier still draws at
/// least one energy unit per tick: the floored shift can never reach
/// zero, because the required tier is minimal for the draw.
pub proof fn lemma_underclocked_draw_nonzero(eu: int, clocking: Voltage)
    requires
        eu != 0,
        -0x8000_0000_0000_0000 <= eu <= 0x7fff_ffff_ffff_ffff,
    ensures
        shifted_eu(
            eu,
            2 * (clocking.index_spec() - Voltage::from_eu_spec(abs_int(eu)).index_spec()),
        ) != 0,
{
    let rv = Voltage::from_eu_spec(abs_int(eu));
    let t = rv.index_spec();
    let k = 2 * (clocking.index_spec() - t);
    if k >= 0 {
        lemma_pow2_pos(k);
        assert(eu * pow2_int(k) != 0) by (nonlinear_arith)
            requires
                eu != 0,
                pow2_int(k) >= 1,
        ;
    } else {
        // the draw exceeds the next-lower tier's ceiling, which itself
        // dominates the divisor
        assert(t > 0) by {
            if t == 0 {
                assert(clocking.index_spec() >= 0);
            }
        }
        lemma_from_eu_minimal(abs_int(eu), 0);
        assert(abs_int(eu) > pow2_int(2 * t + 1));
        let d = pow2_int(-k);
        lemma_pow2_pos(-k);
        assert(-k <= 2 * t);
        lemma_pow2_mono(-k, 2 * t);
        assert(pow2_int(2 * t + 1) == 2 * pow2_int(2 * t));
        assert(abs_int(eu) >= 2 * d + 1) by {
            assert(pow2_int(2 * t) >= d);
        }
        vstd::arithmetic::div_mod::lemma_fundamental_div_mod(eu, d);
        vstd::arithmetic::div_mod::lemma_mod_bound(eu, d);
        if eu > 0 {
            assert(eu / d != 0) by (nonlinear_arith)
                requires
                    eu == d * (eu / d) + eu % d,
                    0 <= eu % d < d,
                    eu >= 2 * d + 1,
                    d >= 1,
            ;
        } else {
            assert(eu / d != 0) by (nonlinear_arith)
                requires
                    eu == d * (eu / d) + eu % d,
                    0 <= eu % d < d,
                    eu <= -(2 * d + 1),
                    d >= 1,
            ;
        }
    }
}

/// Law: a nonempty powered population running a power-consuming recipe
/// draws a positive amount of energy; the underclocking floors can thin
/// the draw but never erase it.
pub proof fn lemma_powered_draw_positive(entries: Seq<(ClockedMachine, u64)>, eu: int)
    requires
        0 < eu <= 0x7fff_ffff_ffff_ffff,
        forall|i: int| 0 <= i < entries.len() ==> (#[trigger] entries[i]).1 >= 1,
    ensures
        ClockedMachines::eu_spec(entries, eu) >= 0,
        entries.len() > 0 ==> ClockedMachines::eu_spec(entries, eu) > 0,
    decreases entries.len(),
{
    if entries.len() > 0 {
        assert(forall|i: int|
            0 <= i < entries.drop_last().len() ==> (#[trigger] entries.drop_last()[i]).1 >= 1);
        lemma_powered_draw_positive(entries.drop_last(), eu);
        let last = entries.last();
        let k = 2 * (last.0.underclocking_spec().index_spec() - Voltage::from_eu_spec(
            abs_int(eu),
        ).index_spec());
        lemma_underclocked_draw_nonzero(eu, last.0.underclocking_spec());
        assert(shifted_eu(eu, k) > 0) by {
            if k >= 0 {
                lemma_pow2_pos(k);
                assert(eu * pow2_int(k) > 0) by (nonlinear_arith)
                    requires
                        eu > 0,
                        pow2_int(k) >= 1,
                ;
            } else {
                let d = pow2_int(-k);
                lemma_pow2_pos(-k);
                vstd::arithmetic::div_mod::lemma_fundamental_div_mod(eu, d);
                vstd::arithmetic::div_mod::lemma_mod_bound(eu, d);
                assert(eu / d >= 0) by (nonlinear_arith)
                    requires
                        eu == d * (eu / d) + eu % d,
                        0 <= eu % d < d,
                        eu > 0,
                        d >= 1,
                ;
            }
        }
        assert(shifted_eu(eu, k) * last.1 > 0) by (nonlinear_arith)
            requires
                shifted_eu(eu, k) > 0,
                last.1 >= 1,
        ;
    }
}

/// Law: formatting a tier and parsing the result gives the tier back.
pub proof fn lemma_voltage_acronym_round_trip(v: Voltage)
    ensures
        Voltage::parse_acronym_spec(v.acronym_spec()) == Some(v),
{
    reveal_strlit("ULV");
    reveal_strlit("LV");
    reveal_strlit("MV");
    reveal_strlit("HV");
    reveal_strlit("EV");
    reveal_strlit("IV");
    reveal_strlit("LuV");
    reveal_strlit("ZPM");
    reveal_strlit("UV");
    reveal_strlit("UHV");
    reveal_strlit("UEV");
    reveal_strlit("UIV");
    reveal_strlit("UXV");
    reveal_strlit("OpV");
    reveal_strlit("MAX");
    match v {
        Voltage::UltraLow => {
            assert("ULV"@.len() == 3);
            assert(Voltage::parse_acronym_spec(v.acronym_spec()) == Some(v));
        },
        Voltage::Low => {
            assert("LV"@.len() == 2);
            assert("ULV"@.len() == 3);
            assert("LV"@ != "ULV"@);
            assert(Voltage::parse_acronym_spec(v.acronym_spec()) == Some(v));
        },
        Voltage::Medium => {
            assert("MV"@.len() == 2);
            assert("ULV"@.len() == 3);
            assert("MV"@ != "ULV"@);
            assert("MV"@[0] == 'M' && "LV"@[0] == 'L');
            assert("MV"@ != "LV"@);
            assert(Voltage::parse_acronym_spec(v.acronym_spec()) == Some(v));
        },
        Voltage::High => {
            assert("HV"@.len() == 2);
            assert("ULV"@.len() == 3);
            assert("HV"@ != "ULV"@);
            assert("HV"@[0] == 'H' && "LV"@[0] == 'L');
            assert("HV"@ != "LV"@);
            assert("HV"@[0] == 'H' && "MV"@[0] == 'M');
            assert("HV"@ != "MV"@);
            assert(Voltage::parse_acronym_spec(v.acronym_spec()) == Some(v));
        },
        Voltage::Extreme => {
            assert("EV"@.len() == 2);
            assert("ULV"@.len() == 3);
            assert("EV"@ != "ULV"@);
            assert("EV"@[0] == 'E' && "LV"@[0] == 'L');
            assert("EV"@ != "LV"@);
            assert("EV"@[0] == 'E' && "MV"@[0] == 'M');
            assert("EV"@ != "MV"@);
            assert("EV"@[0] == 'E' && "HV"@[0] == 'H');
            assert("EV"@ != "HV"@);
            assert(Voltage::parse_acronym_spec(v.acronym_spec()) == Some(v));
        },
        Voltage::Insane => {
            assert("IV"@.len() == 2);
            assert("ULV"@.len() == 3);
            assert("IV"@ != "ULV"@);
            assert("IV"@[0] == 'I' && "LV"@[0] == 'L');
            assert("IV"@ != "LV"@);
            assert("IV"@[0] == 'I' && "MV"@[0] == 'M');
            assert("IV"@ != "MV"@);
            assert("IV"@[0] == 'I' && "HV"@[0] == 'H');
            assert("IV"@ != "HV"@);
            assert("IV"@[0] == 'I' && "EV"@[0] == 'E');
            assert("IV"@ != "EV"@);
            assert(Voltage::parse_acronym_spec(v.acronym_spec()) == Some(v));
        },
        Voltage::Ludicrous => {
            assert("LuV"@.len() == 3);
            assert("LuV"@[0] == 'L' && "ULV"@[0] == 'U');
            assert("LuV"@ != "ULV"@);
            assert("LV"@.len() == 2);
            assert("LuV"@ != "LV"@);
            assert("MV"@.len() == 2);
            assert("LuV"@ != "MV"@);
            assert("HV"@.len() == 2);
            assert("LuV"@ != "HV"@);
            assert("EV"@.len() == 2);
            assert("LuV"@ != "EV"@);
            assert("IV"@.len() == 2);
            assert("LuV"@ != "IV"@);
            assert(Voltage::parse_acronym_spec(v.acronym_spec()) == Some(v));
        },
        Voltage::Zpm => {
            assert("ZPM"@.len() == 3);
            assert("ZPM"@[0] == 'Z' && "ULV"@[0] == 'U');
            assert("ZPM"@ != "ULV"@);
            assert("LV"@.len() == 2);
            assert("ZPM"@ != "LV"@);
            assert("MV"@.len() == 2);
            assert("ZPM"@ != "MV"@);
            assert("HV"@.len() == 2);
            assert("ZPM"@ != "HV"@);
            assert("EV"@.len() == 2);
            assert("ZPM"@ != "EV"@);
            assert("IV"@.len() == 2);
            assert("ZPM"@ != "IV"@);
            assert("ZPM"@[0] == 'Z' && "LuV"@[0] == 'L');
            assert("ZPM"@ != "LuV"@);
            assert(Voltage::parse_acronym_spec(v.acronym_spec()) == Some(v));
        },
        Voltage::Ultimate => {
            assert("UV"@.len() == 2);
            assert("ULV"@.len() == 3);
            assert("UV"@ != "ULV"@);
            assert("UV"@[0] == 'U' && "LV"@[0] == 'L');
            assert("UV"@ != "LV"@);
            assert("UV"@[0] == 'U' && "MV"@[0] == 'M');
            assert("UV"@ != "MV"@);
            assert("UV"@[0] == 'U' && "HV"@[0] == 'H');
            assert("UV"@ != "HV"@);
            assert("UV"@[0] == 'U' && "EV"@[0] == 'E');
            assert("UV"@ != "EV"@);
            assert("UV"@[0] == 'U' && "IV"@[0] == 'I');
            assert("UV"@ != "IV"@);
            assert("LuV"@.len() == 3);
            assert("UV"@ != "LuV"@);
            assert("ZPM"@.len() == 3);
            assert("UV"@ != "ZPM"@);
            assert(Voltage::parse_acronym_spec(v.acronym_spec()) == Some(v));
        },
        Voltage::UltraHigh => {
            assert("UHV"@.len() == 3);
            assert("UHV"@[1] == 'H' && "ULV"@[1] == 'L');
            assert("UHV"@ != "ULV"@);
            assert("LV"@.len() == 2);
            assert("UHV"@ != "LV"@);
            assert("MV"@.len() == 2);
            assert("UHV"@ != "MV"@);
            assert("HV"@.len() == 2);
            assert("UHV"@ != "HV"@);
            assert("EV"@.len() == 2);
            assert("UHV"@ != "EV"@);
            assert("IV"@.len() == 2);
            assert("UHV"@ != "IV"@);
            assert("UHV"@[0] == 'U' && "LuV"@[0] == 'L');
            assert("UHV"@ != "LuV"@);
            assert("UHV"@[0] == 'U' && "ZPM"@[0] == 'Z');
            assert("UHV"@ != "ZPM"@);
            assert("UV"@.len() == 2);
            assert("UHV"@ != "UV"@);
            assert(Voltage::parse_acronym_spec(v.acronym_spec()) == Some(v));
        },
        Voltage::UltraExcessive => {
            assert("UEV"@.len() == 3);
            assert("UEV"@[1] == 'E' && "ULV"@[1] == 'L');
            assert("UEV"@ != "ULV"@);
            assert("LV"@.len() == 2);
            assert("UEV"@ != "LV"@);
            assert("MV"@.len() == 2);
            assert("UEV"@ != "MV"@);
            assert("HV"@.len() == 2);
            assert("UEV"@ != "HV"@);
            assert("EV"@.len() == 2);
            assert("UEV"@ != "EV"@);
            assert("IV"@.len() == 2);
            assert("UEV"@ != "IV"@);
            assert("UEV"@[0] == 'U' && "LuV"@[0] == 'L');
            assert("UEV"@ != "LuV"@);
            assert("UEV"@[0] == 'U' && "ZPM"@[0] == 'Z');
            assert("UEV"@ != "ZPM"@);
            assert("UV"@.len() == 2);
            assert("UEV"@ != "UV"@);
            assert("UEV"@[1] == 'E' && "UHV"@[1] == 'H');
            assert("UEV"@ != "UHV"@);
            assert(Voltage::parse_acronym_spec(v.acronym_spec()) == Some(v));
        },
        Voltage::UltraImmense => {
            assert("UIV"@.len() == 3);
            assert("UIV"@[1] == 'I' && "ULV"@[1] == 'L');
            assert("UIV"@ != "ULV"@);
            assert("LV"@.len() == 2);
            assert("UIV"@ != "LV"@);
            assert("MV"@.len() == 2);
            assert("UIV"@ != "MV"@);
            assert("HV"@.len() == 2);
            assert("UIV"@ != "HV"@);
            assert("EV"@.len() == 2);
            assert("UIV"@ != "EV"@);
            assert("IV"@.len() == 2);
            assert("UIV"@ != "IV"@);
            assert("UIV"@[0] == 'U' && "LuV"@[0] == 'L');
            assert("UIV"@ != "LuV"@);
            assert("UIV"@[0] == 'U' && "ZPM"@[0] == 'Z');
            assert("UIV"@ != "ZPM"@);
            assert("UV"@.len() == 2);
            assert("UIV"@ != "UV"@);
            assert("UIV"@[1] == 'I' && "UHV"@[1] == 'H');
            assert("UIV"@ != "UHV"@);
            assert("UIV"@[1] == 'I' && "UEV"@[1] == 'E');
            assert("UIV"@ != "UEV"@);
            assert(Voltage::parse_acronym_spec(v.acronym_spec()) == Some(v));
        },
        Voltage::UltraExtreme => {
            assert("UXV"@.len() == 3);
            assert("UXV"@[1] == 'X' && "ULV"@[1] == 'L');
            assert("UXV"@ != "ULV"@);
            assert("LV"@.len() == 2);
            assert("UXV"@ != "LV"@);
            assert("MV"@.len() == 2);
            assert("UXV"@ != "MV"@);
            assert("HV"@.len() == 2);
            assert("UXV"@ != "HV"@);
            assert("EV"@.len() == 2);
            assert("UXV"@ != "EV"@);
            assert("IV"@.len() == 2);
            assert("UXV"@ != "IV"@);
            assert("UXV"@[0] == 'U' && "LuV"@[0] == 'L');
            assert("UXV"@ != "LuV"@);
            assert("UXV"@[0] == 'U' && "ZPM"@[0] == 'Z');
            assert("UXV"@ != "ZPM"@);
            assert("UV"@.len() == 2);
            assert("UXV"@ != "UV"@);
            assert("UXV"@[1] == 'X' && "UHV"@[1] == 'H');
            assert("UXV"@ != "UHV"@);
            assert("UXV"@[1] == 'X' && "UEV"@[1] == 'E');
            assert("UXV"@ != "UEV"@);
            assert("UXV"@[1] == 'X' && "UIV"@[1] == 'I');
            assert("UXV"@ != "UIV"@);
            assert(Voltage::parse_acronym_spec(v.acronym_spec()) == Some(v));
        },
        Voltage::Overpowered => {
            assert("OpV"@.len() == 3);
            assert("OpV"@[0] == 'O' && "ULV"@[0] == 'U');
            assert("OpV"@ != "ULV"@);
            assert("LV"@.len() == 2);
            assert("OpV"@ != "LV"@);
            assert("MV"@.len() == 2);
            assert("OpV"@ != "MV"@);
            assert("HV"@.len() == 2);
            assert("OpV"@ != "HV"@);
            assert("EV"@.len() == 2);
            assert("OpV"@ != "EV"@);
            assert("IV"@.len() == 2);
            assert("OpV"@ != "IV"@);
            assert("OpV"@[0] == 'O' && "LuV"@[0] == 'L');
            assert("OpV"@ != "LuV"@);
            assert("OpV"@[0] == 'O' && "ZPM"@[0] == 'Z');
            assert("OpV"@ != "ZPM"@);
            assert("UV"@.len() == 2);
            assert("OpV"@ != "UV"@);
            assert("OpV"@[0] == 'O' && "UHV"@[0] == 'U');
            assert("OpV"@ != "UHV"@);
            assert("OpV"@[0] == 'O' && "UEV"@[0] == 'U');
            assert("OpV"@ != "UEV"@);
            assert("OpV"@[0] == 'O' && "UIV"@[0] == 'U');
            assert("OpV"@ != "UIV"@);
            assert("OpV"@[0] == 'O' && "UXV"@[0] == 'U');
            assert("OpV"@ != "UXV"@);
            assert(Voltage::parse_acronym_spec(v.acronym_spec()) == Some(v));
        },
        Voltage::Maximum => {
            assert("MAX"@.len() == 3);
            assert("MAX"@[0] == 'M' && "ULV"@[0] == 'U');
            assert("MAX"@ != "ULV"@);
            assert("LV"@.len() == 2);
            assert("MAX"@ != "LV"@);
            assert("MV"@.len() == 2);
            assert("MAX"@ != "MV"@);
            assert("HV"@.len() == 2);
            assert("MAX"@ != "HV"@);
            assert("EV"@.len() == 2);
            assert("MAX"@ != "EV"@);
            assert("IV"@.len() == 2);
            assert("MAX"@ != "IV"@);
            assert("MAX"@[0] == 'M' && "LuV"@[0] == 'L');
            assert("MAX"@ != "LuV"@);
            assert("MAX"@[0] == 'M' && "ZPM"@[0] == 'Z');
            assert("MAX"@ != "ZPM"@);
            assert("UV"@.len() == 2);
            assert("MAX"@ != "UV"@);
            assert("MAX"@[0] == 'M' && "UHV"@[0] == 'U');
            assert("MAX"@ != "UHV"@);
            assert("MAX"@[0] == 'M' && "UEV"@[0] == 'U');
            assert("MAX"@ != "UEV"@);
            assert("MAX"@[0] == 'M' && "UIV"@[0] == 'U');
            assert("MAX"@ != "UIV"@);
            assert("MAX"@[0] == 'M' && "UXV"@[0] == 'U');
            assert("MAX"@ != "UXV"@);
            assert("MAX"@[0] == 'M' && "OpV"@[0] == 'O');
            assert("MAX"@ != "OpV"@);
            assert(Voltage::parse_acronym_spec(v.acronym_spec()) == Some(v));
        },
    }
}

/// Law: a character sequence that parses as a tier is that tier's acronym.
pub proof fn lemma_voltage_parse_then_format(s: Seq<char>, v: Voltage)
    requires
        Voltage::parse_acronym_spec(s) == Some(v),
    ensures
        v.acronym_spec() == s,
{
    reveal_strlit("ULV");
    reveal_strlit("LV");
    reveal_strlit("MV");
    reveal_strlit("HV");
    reveal_strlit("EV");
    reveal_strlit("IV");
    reveal_strlit("LuV");
    reveal_strlit("ZPM");
    reveal_strlit("UV");
    reveal_strlit("UHV");
    reveal_strlit("UEV");
    reveal_strlit("UIV");
    reveal_strlit("UXV");
    reveal_strlit("OpV");
    reveal_strlit("MAX");
}

/// Law: formatting a well-formed clocked machine and parsing the result
/// gives the machine back.
pub proof fn lemma_clocked_machine_round_trip(cm: ClockedMachine)
    requires
        cm.wf(),
    ensures
        ClockedMachine::parse_text_spec(cm.text_spec()) == Ok::<
            ClockedMachine,
            ClockedMachineParseError,
        >(cm),
{
    reveal_strlit("ULV");
    reveal_strlit("LV");
    reveal_strlit("MV");
    reveal_strlit("HV");
    reveal_strlit("EV");
    reveal_strlit("IV");
    reveal_strlit("LuV");
    reveal_strlit("ZPM");
    reveal_strlit("UV");
    reveal_strlit("UHV");
    reveal_strlit("UEV");
    reveal_strlit("UIV");
    reveal_strlit("UXV");
    reveal_strlit("OpV");
    reveal_strlit("MAX");
    let s = cm.text_spec();
    if cm.underclocking_spec() == cm.tier_spec() {
        assert(s == cm.tier_spec().acronym_spec());
        lemma_acronym_has_no_at(cm.tier_spec());
        lemma_find_at_none(s);
        lemma_voltage_acronym_round_trip(cm.tier_spec());
    } else {
        let t = cm.tier_spec().acronym_spec();
        let c = cm.underclocking_spec().acronym_spec();
        let p = t.len() as int;
        assert(s == t + "@"@ + c);
        reveal_strlit("@");
        assert(s[p] == '@');
        lemma_acronym_has_no_at(cm.tier_spec());
        lemma_acronym_has_no_at(cm.underclocking_spec());
        assert forall|j: int| 0 <= j < p implies s[j] != '@' by {
            assert(s[j] == t[j]);
        }
        lemma_find_at_some(s, p);
        assert(s.take(p) =~= t);
        assert(s.skip(p + 1) =~= c);
        lemma_voltage_acronym_round_trip(cm.tier_spec());
        lemma_voltage_acronym_round_trip(cm.underclocking_spec());
    }
}

/// Law: a character sequence that parses as a clocked machine is the
/// machine's own text, provided the text carries a clocking exactly when
/// the machine is clocked down. (The sequence `"HV@HV"` parses as an
/// unthrottled machine but formats back as `"HV"`.)
pub proof fn lemma_clocked_machine_parse_then_format(s: Seq<char>, cm: ClockedMachine)
    requires
        ClockedMachine::parse_text_spec(s) == Ok::<ClockedMachine, ClockedMachineParseError>(cm),
        (find_at_spec(s) is Some) == (cm.underclocking_spec() != cm.tier_spec()),
    ensures
        cm.text_spec() == s,
{
    reveal_strlit("ULV");
    reveal_strlit("LV");
    reveal_strlit("MV");
    reveal_strlit("HV");
    reveal_strlit("EV");
    reveal_strlit("IV");
    reveal_strlit("LuV");
    reveal_strlit("ZPM");
    reveal_strlit("UV");
    reveal_strlit("UHV");
    reveal_strlit("UEV");
    reveal_strlit("UIV");
    reveal_strlit("UXV");
    reveal_strlit("OpV");
    reveal_strlit("MAX");
    match find_at_spec(s) {
        Some(p) => {
            lemma_find_at_in_range(s);
            lemma_voltage_parse_then_format(s.take(p), cm.tier_spec());
            lemma_voltage_parse_then_format(s.skip(p + 1), cm.underclocking_spec());
            reveal_strlit("@");
            lemma_find_at_char(s);
            assert(cm.text_spec() =~= s.take(p) + "@"@ + s.skip(p + 1));
            assert(cm.text_spec() =~= s);
        },
        None => {
            lemma_voltage_parse_then_format(s, cm.tier_spec());
        },
    }
}

/// No tier acronym contains the character `@`.
pub proof fn lemma_acronym_has_no_at(v: Voltage)
    ensures
        forall|j: int|
            0 <= j < v.acronym_spec().len() ==> #[trigger] v.acronym_spec()[j] != '@',
{
    reveal_strlit("ULV");
    reveal_strlit("LV");
    reveal_strlit("MV");
    reveal_strlit("HV");
    reveal_strlit("EV");
    reveal_strlit("IV");
    reveal_strlit("LuV");
    reveal_strlit("ZPM");
    reveal_strlit("UV");
    reveal_strlit("UHV");
    reveal_strlit("UEV");
    reveal_strlit("UIV");
    reveal_strlit("UXV");
    reveal_strlit("OpV");
    reveal_strlit("MAX");
    reveal_strlit("@");
    match v {
        Voltage::UltraLow => {
            assert forall|j: int| 0 <= j < v.acronym_spec().len() implies #[trigger] v.acronym_spec()[j] != '@' by {}
        },
        Voltage::Low => {
            assert forall|j: int| 0 <= j < v.acronym_spec().len() implies #[trigger] v.acronym_spec()[j] != '@' by {}
        },
        Voltage::Medium => {
            assert forall|j: int| 0 <= j < v.acronym_spec().len() implies #[trigger] v.acronym_spec()[j] != '@' by {}
        },
        Voltage::High => {
            assert forall|j: int| 0 <= j < v.acronym_spec().len() implies #[trigger] v.acronym_spec()[j] != '@' by {}
        },
        Voltage::Extreme => {
            assert forall|j: int| 0 <= j < v.acronym_spec().len() implies #[trigger] v.acronym_spec()[j] != '@' by {}
        },
        Voltage::Insane => {
            assert forall|j: int| 0 <= j < v.acronym_spec().len() implies #[trigger] v.acronym_spec()[j] != '@' by {}
        },
        Voltage::Ludicrous => {
            assert forall|j: int| 0 <= j < v.acronym_spec().len() implies #[trigger] v.acronym_spec()[j] != '@' by {}
        },
        Voltage::Zpm => {
            assert forall|j: int| 0 <= j < v.acronym_spec().len() implies #[trigger] v.acronym_spec()[j] != '@' by {}
        },
        Voltage::Ultimate => {
            assert forall|j: int| 0 <= j < v.acronym_spec().len() implies #[trigger] v.acronym_spec()[j] != '@' by {}
        },
        Voltage::UltraHigh => {
            assert forall|j: int| 0 <= j < v.acronym_spec().len() implies #[trigger] v.acronym_spec()[j] != '@' by {}
        },
        Voltage::UltraExcessive => {
            assert forall|j: int| 0 <= j < v.acronym_spec().len() implies #[trigger] v.acronym_spec()[j] != '@' by {}
        },
        Voltage::UltraImmense => {
            assert forall|j: int| 0 <= j < v.acronym_spec().len() implies #[trigger] v.acronym_spec()[j] != '@' by {}
        },
        Voltage::UltraExtreme => {
            assert forall|j: int| 0 <= j < v.acronym_spec().len() implies #[trigger] v.acronym_spec()[j] != '@' by {}
        },
        Voltage::Overpowered => {
            assert forall|j: int| 0 <= j < v.acronym_spec().len() implies #[trigger] v.acronym_spec()[j] != '@' by {}
        },
        Voltage::Maximum => {
            assert forall|j: int| 0 <= j < v.acronym_spec().len() implies #[trigger] v.acronym_spec()[j] != '@' by {}
        },
    }
}

/// The first position of `@` lies in range.
pub proof fn lemma_find_at_in_range(s: Seq<char>)
    ensures
        find_at_spec(s) matches Some(p) ==> 0 <= p < s.len(),
    decreases s.len(),
{
    if s.len() > 0 && s[0] != '@' {
        lemma_find_at_in_range(s.drop_first());
    }
}

/// The character at the first position of `@` is `@`.
pub proof fn lemma_find_at_char(s: Seq<char>)
    ensures
        find_at_spec(s) matches Some(p) ==> 0 <= p < s.len() && s[p] == '@',
    decreases s.len(),
{
    if s.len() > 0 && s[0] != '@' {
        lemma_find_at_char(s.drop_first());
    }
}

/// The error of matching a machine population against a recipe's power
/// requirement.
#[derive(Clone, Copy, Debug, PartialEq, Eq, Structural)]
pub enum MachinePowerError {
    /// The recipe draws no power, so it needs unpowered machines.
    RequiresEco,
    /// The recipe draws power, so it needs powered machines.
    RequiresPower,
}

/// A population of clocked machines: for each distinct tier-and-clocking,
/// how many such machines run the recipe.
#[derive(Clone, Debug)]
pub struct ClockedMachines {
    /// The populations, one entry per distinct clocked machine, each with
    /// a positive count.
    pub machines: Vec<(ClockedMachine, u64)>,
}

impl ClockedMachines {
    /// Every key is well-formed and distinct, and every count positive.
    pub open spec fn wf(self) -> bool {
        &&& forall|i: int|
            0 <= i < self.machines@.len() ==> (#[trigger] self.machines@[i]).0.wf()
                && self.machines@[i].1 >= 1
        &&& forall|i: int, j: int|
            0 <= i < j < self.machines@.len() ==> (#[trigger] self.machines@[i]).0 != (
            #[trigger] self.machines@[j]).0
    }

    /// The summed speed factor of a population prefix: each entry
    /// contributes `count` times two to the power of its clocking's
    /// distance from the recipe tier.
    pub open spec fn speed_spec(entries: Seq<(ClockedMachine, u64)>, recipe_voltage: Voltage) -> Frac
        decreases entries.len(),
    {
        if entries.len() == 0 {
            fzero()
        } else {
            fadd(
                Self::speed_spec(entries.drop_last(), recipe_voltage),
                fmul(
                    fpow2(
                        entries.last().0.underclocking_spec().index_spec()
                            - recipe_voltage.index_spec(),
                    ),
                    f_int(entries.last().1 as int),
                ),
            )
        }
    }

    /// The summed energy draw of a population prefix, in energy units per
    /// tick: each entry contributes `count` times the recipe draw shifted
    /// by twice its clocking's distance from the recipe tier.
    pub open spec fn eu_spec(entries: Seq<(ClockedMachine, u64)>, recipe_eu: int) -> int
        decreases entries.len(),
    {
        if entries.len() == 0 {
            0
        } else {
            Self::eu_spec(entries.drop_last(), recipe_eu) + shifted_eu(
                recipe_eu,
                2 * (entries.last().0.underclocking_spec().index_spec() - Voltage::from_eu_spec(
                    abs_int(recipe_eu),
                ).index_spec()),
            ) * entries.last().1
        }
    }

    /// An empty population.
    pub fn new() -> (r: ClockedMachines)
        ensures
            r.wf(),
            r.machines@.len() == 0,
    {
        ClockedMachines { machines: Vec::new() }
    }

    /// The count stored for a machine, if any.
    pub fn get(&self, cm: &ClockedMachine) -> (r: Option<u64>)
        ensures
            match r {
                Some(count) => exists|i: int|
                    0 <= i < self.machines@.len() && (#[trigger] self.machines@[i]) == (*cm, count),
                None => forall|i: int|
                    0 <= i < self.machines@.len() ==> (#[trigger] self.machines@[i]).0 != *cm,
            },
    {
        let n = self.machines.len();
        let mut i: usize = 0;
        while i < n
            invariant
                n == self.machines@.len(),
                0 <= i <= n,
                forall|j: int| 0 <= j < i ==> (#[trigger] self.machines@[j]).0 != *cm,
            decreases n - i,
        {
            let (key, count) = self.machines[i];
            if voltage_eq(key.tier, cm.tier) && voltage_eq(key.underclocking, cm.underclocking) {
                assert(self.machines@[i as int] == (*cm, count));
                return Some(count);
            }
            i = i + 1;
        }
        None
    }

    /// Stores a count for a machine, replacing any entry with the same
    /// tier and clocking.
    pub fn insert(&mut self, cm: ClockedMachine, count: u64)
        requires
            old(self).wf(),
            cm.wf(),
            count >= 1,
        ensures
            final(self).wf(),
            exists|i: int|
                0 <= i < final(self).machines@.len() && (#[trigger] final(self).machines@[i]) == (
                cm, count),
            (forall|j: int|
                0 <= j < old(self).machines@.len() ==> (#[trigger] old(self).machines@[j]).0 != cm)
                ==> final(self).machines@ == old(self).machines@.push((cm, count)),
    {
        let n = self.machines.len();
        let mut i: usize = 0;
        while i < n
            invariant
                old(self).wf(),
                cm.wf(),
                count >= 1,
                n == self.machines@.len(),
                0 <= i <= n,
                self == old(self),
                forall|j: int| 0 <= j < i ==> (#[trigger] self.machines@[j]).0 != cm,
            decreases n - i,
        {
            let (key, _) = self.machines[i];
            if voltage_eq(key.tier, cm.tier) && voltage_eq(key.underclocking, cm.underclocking) {
                self.machines[i] = (cm, count);
                assert(final(self).machines@[i as int] == (cm, count));
                assert forall|a: int, b: int|
                    0 <= a < b < self.machines@.len() implies (#[trigger] self.machines@[a]).0 != (
                    #[trigger] self.machines@[b]).0 by {
                    assert(old(self).machines@[a].0 != old(self).machines@[b].0);
                }
                return ;
            }
            i = i + 1;
        }
        self.machines.push((cm, count));
        assert(final(self).machines@[n as int] == (cm, count));
        assert forall|a: int, b: int|
            0 <= a < b < self.machines@.len() implies (#[trigger] self.machines@[a]).0 != (
            #[trigger] self.machines@[b]).0 by {
            if b < n {
                assert(old(self).machines@[a].0 != old(self).machines@[b].0);
            } else {
                assert(old(self).machines@[a].0 != cm);
            }
        }
    }

    /// Removes the entry for a machine, if present.
    pub fn remove(&mut self, cm: &ClockedMachine)
        requires
            old(self).wf(),
        ensures
            final(self).wf(),
            forall|i: int|
                0 <= i < final(self).machines@.len() ==> (#[trigger] final(self).machines@[i]).0
                    != *cm,
    {
        let n = self.machines.len();
        let mut i: usize = 0;
        while i < n
            invariant
                old(self).wf(),
                n == self.machines@.len(),
                0 <= i <= n,
                self == old(self),
                forall|j: int| 0 <= j < i ==> (#[trigger] self.machines@[j]).0 != *cm,
            decreases n - i,
        {
            let (key, _) = self.machines[i];
            if voltage_eq(key.tier, cm.tier) && voltage_eq(key.underclocking, cm.underclocking) {
                self.machines.remove(i);
                assert forall|j: int|
                    0 <= j < self.machines@.len() implies (#[trigger] self.machines@[j]).0
                    != *cm by {
                    if j < i {
                        assert(self.machines@[j] == old(self).machines@[j]);
                    } else {
                        assert(self.machines@[j] == old(self).machines@[j + 1]);
                        assert(old(self).machines@[i as int].0 == old(self).machines@[j + 1].0
                            ==> false);
                    }
                }
                assert forall|a: int, b: int|
                    0 <= a < b < self.machines@.len() implies (#[trigger] self.machines@[a]).0 != (
                    #[trigger] self.machines@[b]).0 by {
                    let a0 = if a < i {
                        a
                    } else {
                        a + 1
                    };
                    let b0 = if b < i {
                        b
                    } else {
                        b + 1
                    };
                    assert(self.machines@[a] == old(self).machines@[a0]);
                    assert(self.machines@[b] == old(self).machines@[b0]);
                    assert(old(self).machines@[a0].0 != old(self).machines@[b0].0);
                }
                return ;
            }
            i = i + 1;
        }
    }

    /// How much faster than nominal this population runs a recipe whose
    /// required tier is `recipe_voltage`.
    pub fn speed_factor(&self, recipe_voltage: Voltage) -> (r: Rat)
        ensures
            r@.wf(),
            feq(r@, ClockedMachines::speed_spec(self.machines@, recipe_voltage)),
    {
        let n = self.machines.len();
        let mut acc = Rat::zero();
        let mut i: usize = 0;
        proof {
            assert(self.machines@.take(0) =~= Seq::<(ClockedMachine, u64)>::empty());
        }
        while i < n
            invariant
                n == self.machines@.len(),
                0 <= i <= n,
                acc@.wf(),
                feq(
                    acc@,
                    ClockedMachines::speed_spec(self.machines@.take(i as int), recipe_voltage),
                ),
            decreases n - i,
        {
            let (key, count) = self.machines[i];
            let sf = key.underclocking.speed_factor(recipe_voltage);
            let cnt = Rat::from_u64(count);
            let term = sf.mul(&cnt);
            let acc2 = acc.add(&term);
            proof {
                let prefix = self.machines@.take(i as int);
                let prefix2 = self.machines@.take(i as int + 1);
                assert(prefix2.drop_last() =~= prefix);
                assert(prefix2.last() == self.machines@[i as int]);
                let steps = key.underclocking_spec().index_spec() - recipe_voltage.index_spec();
                let tgt = fmul(fpow2(steps), f_int(count as int));
                lemma_fpow2_wf(steps);
                lemma_speed_spec_wf(prefix, recipe_voltage);
                crate::frac::lemma_fmul_wf(fpow2(steps), f_int(count as int));
                crate::frac::lemma_fmul_congr(sf@, cnt@, fpow2(steps), f_int(count as int));
                crate::frac::lemma_fmul_wf(sf@, cnt@);
                crate::frac::lemma_feq_trans(term@, fmul(sf@, cnt@), tgt);
                crate::frac::lemma_fadd_congr(
                    acc@,
                    term@,
                    ClockedMachines::speed_spec(prefix, recipe_voltage),
                    tgt,
                );
                crate::frac::lemma_fadd_wf(acc@, term@);
                crate::frac::lemma_fadd_wf(
                    ClockedMachines::speed_spec(prefix, recipe_voltage),
                    tgt,
                );
                crate::frac::lemma_feq_trans(
                    acc2@,
                    fadd(acc@, term@),
                    fadd(ClockedMachines::speed_spec(prefix, recipe_voltage), tgt),
                );
                assert(ClockedMachines::speed_spec(prefix2, recipe_voltage) == fadd(
                    ClockedMachines::speed_spec(prefix, recipe_voltage),
                    tgt,
                ));
            }
            acc = acc2;
            i = i + 1;
        }
        proof {
            assert(self.machines@.take(n as int) =~= self.machines@);
        }
        acc
    }

    /// The total energy draw per tick of this population, for a recipe
    /// drawing `recipe_eu` per tick. Clocking below the recipe tier
    /// shifts the draw down, taking the floor.
    pub fn eu_per_tick(&self, recipe_eu: i64) -> (r: Rat)
        requires
            recipe_eu != 0,
            self.wf(),
        ensures
            r@.wf(),
            feq(r@, f_int(ClockedMachines::eu_spec(self.machines@, recipe_eu as int))),
    {
        let rv = Voltage::from_signed_eu_per_tick(recipe_eu);
        let n = self.machines.len();
        let mut acc = Rat::zero();
        let mut i: usize = 0;
        proof {
            assert(self.machines@.take(0) =~= Seq::<(ClockedMachine, u64)>::empty());
        }
        while i < n
            invariant
                recipe_eu != 0,
                self.wf(),
                rv == Voltage::from_eu_spec(abs_int(recipe_eu as int)),
                n == self.machines@.len(),
                0 <= i <= n,
                acc@.wf(),
                feq(
                    acc@,
                    f_int(
                        ClockedMachines::eu_spec(self.machines@.take(i as int), recipe_eu as int),
                    ),
                ),
            decreases n - i,
        {
            let (key, count) = self.machines[i];
            let k = key.underclocking.eu_factor_log2(rv);
            let value = shifted_eu_exec(recipe_eu, k);
            let cntr = Rat::from_u64(count);
            let term = value.mul(&cntr);
            let acc2 = acc.add(&term);
            proof {
                let prefix = self.machines@.take(i as int);
                let prefix2 = self.machines@.take(i as int + 1);
                assert(prefix2.drop_last() =~= prefix);
                assert(prefix2.last() == self.machines@[i as int]);
                let sv = shifted_eu(recipe_eu as int, k as int);
                let cnt_f = f_int(count as int);
                let s_old = ClockedMachines::eu_spec(prefix, recipe_eu as int);
                let s_new = ClockedMachines::eu_spec(prefix2, recipe_eu as int);
                assert(s_new == s_old + sv * count);
                // term ~ sv * count as a fraction
                crate::frac::lemma_fmul_congr(value@, cntr@, f_int(sv), cnt_f);
                crate::frac::lemma_fmul_wf(value@, cntr@);
                crate::frac::lemma_f_int_mul(sv, count as int);
                crate::frac::lemma_feq_trans(
                    term@,
                    fmul(value@, cntr@),
                    f_int(sv * count),
                );
                crate::frac::lemma_fadd_congr(acc@, term@, f_int(s_old), f_int(sv * count));
                crate::frac::lemma_fadd_wf(acc@, term@);
                crate::frac::lemma_fadd_wf(f_int(s_old), f_int(sv * count));
                crate::frac::lemma_feq_trans(
                    acc2@,
                    fadd(acc@, term@),
                    fadd(f_int(s_old), f_int(sv * count)),
                );
                crate::frac::lemma_f_int_add(s_old, sv * (count as int));
                assert(fadd(f_int(s_old), f_int(sv * count)) == f_int(s_new));
                crate::frac::lemma_feq_trans(
                    acc2@,
                    fadd(f_int(s_old), f_int(sv * count)),
                    f_int(s_new),
                );
            }
            acc = acc2;
            i = i + 1;
        }
        proof {
            assert(self.machines@.take(n as int) =~= self.machines@);
        }
        acc
    }
}

/// Proves the summed speed factor well-formed.
pub proof fn lemma_speed_spec_wf(entries: Seq<(ClockedMachine, u64)>, recipe_voltage: Voltage)
    ensures
        ClockedMachines::speed_spec(entries, recipe_voltage).wf(),
    decreases entries.len(),
{
    if entries.len() > 0 {
        lemma_speed_spec_wf(entries.drop_last(), recipe_voltage);
        let steps = entries.last().0.underclocking_spec().index_spec()
            - recipe_voltage.index_spec();
        lemma_fpow2_wf(steps);
        crate::frac::lemma_fmul_wf(fpow2(steps), f_int(entries.last().1 as int));
        crate::frac::lemma_fadd_wf(
            ClockedMachines::speed_spec(entries.drop_last(), recipe_voltage),
            fmul(fpow2(steps), f_int(entries.last().1 as int)),
        );
    }
}

/// A recipe's energy draw shifted by `k` doublings; negative `k` halves
/// and takes the floor, as the underlying arbitrary-precision shift does.
pub open spec fn shifted_eu(eu: int, k: int) -> int {
    if k >= 0 {
        eu * pow2_int(k)
    } else {
        eu / pow2_int(-k)
    }
}

/// Computes `shifted_eu` exactly.
fn shifted_eu_exec(eu: i64, k: i8) -> (r: Rat)
    requires
        -31 <= k <= 31,
    ensures
        r@.wf(),
        feq(r@, f_int(shifted_eu(eu as int, k as int))),
{
    if k >= 0 {
        let p = pow2_u64(k as u8);
        let f = Rat::new(eu, 1);
        let cnt = Rat::from_u64(p);
        let r = f.mul(&cnt);
        proof {
            crate::frac::lemma_fmul_congr(
                f@,
                cnt@,
                f_int(eu as int),
                f_int(pow2_int(k as int)),
            );
            crate::frac::lemma_fmul_wf(f@, cnt@);
            crate::frac::lemma_f_int_mul(eu as int, pow2_int(k as int));
            crate::frac::lemma_feq_trans(
                r@,
                fmul(f@, cnt@),
                f_int(shifted_eu(eu as int, k as int)),
            );
        }
        r
    } else {
        let d = pow2_u64((-(k as i16)) as u8);
        let q: i64 = if eu >= 0 {
            ((eu as u64) / d) as i64
        } else {
            let mag: u64 = (-(eu as i128)) as u64;
            let qq: u64 = (mag + (d - 1)) / d;
            proof {
                lemma_floor_div_neg(mag as int, d as int, qq as int);
            }
            (-(qq as i128)) as i64
        };
        proof {
            crate::frac::lemma_pow2_pos(-(k as int));
        }
        Rat::new(q, 1)
    }
}

/// For positive `mag` and divisor, the floor of `-mag / d` is the negated
/// rounded-up quotient.
proof fn lemma_floor_div_neg(mag: int, d: int, qq: int)
    requires
        mag >= 1,
        d >= 1,
        qq == (mag + d - 1) / d,
    ensures
        (-mag) / d == -qq,
        qq <= mag,
{
    let x = mag + d - 1;
    vstd::arithmetic::div_mod::lemma_fundamental_div_mod(x, d);
    vstd::arithmetic::div_mod::lemma_mod_bound(x, d);
    assert(qq * d <= x < (qq + 1) * d) by (nonlinear_arith)
        requires
            x == d * qq + x % d,
            0 <= x % d < d,
    ;
    vstd::arithmetic::div_mod::lemma_fundamental_div_mod(-mag, d);
    vstd::arithmetic::div_mod::lemma_mod_bound(-mag, d);
    let w = (-mag) / d;
    assert(w * d <= -mag < (w + 1) * d) by (nonlinear_arith)
        requires
            -mag == d * w + (-mag) % d,
            0 <= (-mag) % d < d,
    ;
    assert(w == -qq) by (nonlinear_arith)
        requires
            qq * d <= mag + d - 1 < (qq + 1) * d,
            w * d <= -mag < (w + 1) * d,
            d >= 1,
            mag >= 1,
    ;
    assert(qq <= mag) by (nonlinear_arith)
        requires
            qq * d <= mag + d - 1,
            d >= 1,
            mag >= 1,
            qq == (mag + d - 1) / d,
            (mag + d - 1) % d >= 0,
            mag + d - 1 == d * qq + (mag + d - 1) % d,
    ;
}

impl ClockedMachines {
    /// Writes each population entry as its machine text and count, in
    /// order.
    pub fn to_texts(&self) -> (r: Vec<(String, u64)>)
        ensures
            r@.len() == self.machines@.len(),
            forall|i: int|
                0 <= i < self.machines@.len() ==> (#[trigger] r@[i]).0@ == self.machines@[
                i].0.text_spec() && r@[i].1 == self.machines@[i].1,
    {
        let n = self.machines.len();
        let mut out: Vec<(String, u64)> = Vec::new();
        let mut i: usize = 0;
        while i < n
            invariant
                n == self.machines@.len(),
                0 <= i <= n,
                out@.len() == i,
                forall|j: int|
                    0 <= j < i ==> (#[trigger] out@[j]).0@ == self.machines@[j].0.text_spec()
                        && out@[j].1 == self.machines@[j].1,
            decreases n - i,
        {
            let (cm, count) = self.machines[i];
            out.push((cm.to_text(), count));
            i = i + 1;
        }
        out
    }

    /// Reads a population from machine texts and counts. Rejected are an
    /// unparsable machine text and a zero count; a repeated machine
    /// replaces the earlier entry, as a keyed map would.
    pub fn from_texts(list: &Vec<(String, u64)>) -> (r: Result<
        ClockedMachines,
        ClockedMachineParseError,
    >)
        ensures
            r is Ok <==> (forall|i: int|
                0 <= i < list@.len() ==> (#[trigger] ClockedMachine::parse_text_spec(
                    list@[i].0@,
                )) is Ok && list@[i].1 >= 1),
            r matches Ok(cms) ==> cms.wf(),
            r matches Ok(cms) ==> (pairwise_distinct_parses(list@) ==> cms.machines@.len()
                == list@.len() && (forall|i: int|
                0 <= i < list@.len() ==> (#[trigger] cms.machines@[i]) == (
                ClockedMachine::parse_text_spec(list@[i].0@)->Ok_0, list@[i].1))),
    {
        let n = list.len();
        let mut cms = ClockedMachines::new();
        let mut i: usize = 0;
        while i < n
            invariant
                n == list@.len(),
                0 <= i <= n,
                cms.wf(),
                forall|j: int|
                    0 <= j < i ==> (#[trigger] ClockedMachine::parse_text_spec(list@[j].0@)) is Ok
                        && list@[j].1 >= 1,
                pairwise_distinct_parses(list@) ==> cms.machines@.len() == i && (forall|j: int|
                    0 <= j < i ==> (#[trigger] cms.machines@[j]) == (
                    ClockedMachine::parse_text_spec(list@[j].0@)->Ok_0, list@[j].1)),
            decreases n - i,
        {
            let (text, count) = &list[i];
            let cm = match ClockedMachine::parse_text(text.as_str()) {
                Ok(cm) => cm,
                Err(e) => {
                    proof {
                        assert(ClockedMachine::parse_text_spec(list@[i as int].0@) is Err);
                    }
                    return Err(e);
                },
            };
            if *count == 0 {
                return Err(ClockedMachineParseError::InvalidVoltage);
            }
            let ghost cms0 = cms;
            cms.insert(cm, *count);
            proof {
                if pairwise_distinct_parses(list@) {
                    assert(cms0.machines@.len() == i);
                    assert forall|a: int|
                        0 <= a < i implies (#[trigger] ClockedMachine::parse_text_spec(
                        list@[a].0@,
                    ))->Ok_0 != cm by {
                        assert(ClockedMachine::parse_text_spec(list@[a].0@)->Ok_0
                            != ClockedMachine::parse_text_spec(list@[i as int].0@)->Ok_0);
                    }
                    // no earlier entry matches, so the insert appended
                    assert(forall|j: int|
                        0 <= j < i ==> (#[trigger] cms0.machines@[j]).0 != cm);
                    assert(cms.machines@ == cms0.machines@.push((cm, *count)));
                }
            }
            i = i + 1;
        }
        Ok(cms)
    }
}

/// Law: writing a well-formed population as machine texts and reading
/// the texts back reconstructs every entry: each text parses to its own
/// machine, and distinct machines give distinct texts.
pub proof fn lemma_population_text_round_trip(cms: ClockedMachines)
    requires
        cms.wf(),
    ensures
        forall|i: int|
            0 <= i < cms.machines@.len() ==> #[trigger] ClockedMachine::parse_text_spec(
                cms.machines@[i].0.text_spec(),
            ) == Ok::<ClockedMachine, ClockedMachineParseError>(cms.machines@[i].0),
        forall|a: int, b: int|
            0 <= a < b < cms.machines@.len() ==> (#[trigger] cms.machines@[a]).0.text_spec() != (
            #[trigger] cms.machines@[b]).0.text_spec(),
{
    assert forall|i: int| 0 <= i < cms.machines@.len() implies #[trigger] ClockedMachine::parse_text_spec(
        cms.machines@[i].0.text_spec(),
    ) == Ok::<ClockedMachine, ClockedMachineParseError>(cms.machines@[i].0) by {
        lemma_clocked_machine_round_trip(cms.machines@[i].0);
    }
    assert forall|a: int, b: int|
        0 <= a < b < cms.machines@.len() implies (#[trigger] cms.machines@[a]).0.text_spec() != (
    #[trigger] cms.machines@[b]).0.text_spec() by {
        lemma_clocked_machine_round_trip(cms.machines@[a].0);
        lemma_clocked_machine_round_trip(cms.machines@[b].0);
        assert(cms.machines@[a].0 != cms.machines@[b].0);
    }
}

/// No two entries parse to the same clocked machine.
pub open spec fn pairwise_distinct_parses(list: Seq<(String, u64)>) -> bool {
    forall|a: int, b: int|
        0 <= a < b < list.len() ==> (#[trigger] ClockedMachine::parse_text_spec(list[a].0@))->Ok_0
            != (#[trigger] ClockedMachine::parse_text_spec(list[b].0@))->Ok_0
}

/// A machine population: either unpowered machines, which always run at
/// nominal speed, or powered, clocked machines.
#[derive(Clone, Debug)]
pub enum Machines {
    /// A fixed number of machines that draw no power and run at nominal
    /// speed.
    Eco(u64),
    /// A population of powered machines at specific tiers and clockings.
    Power(ClockedMachines),
}

impl Machines {
    /// The population is well-formed.
    pub open spec fn wf(self) -> bool {
        match self {
            Machines::Eco(_) => true,
            Machines::Power(cms) => cms.wf(),
        }
    }

    /// How fast this population runs a recipe requiring `recipe_voltage`
    /// (`None` when the recipe draws no power). An unpowered population
    /// runs a powerless recipe at its plain count; a powered population
    /// runs a powered recipe at its summed speed factor; any other
    /// pairing is a power mismatch.
    pub fn speed_factor(&self, recipe_voltage: Option<Voltage>) -> (r: Result<
        Rat,
        MachinePowerError,
    >)
        ensures
            match (recipe_voltage, self) {
                (None, Machines::Eco(count)) => r matches Ok(s) && s@.wf() && feq(
                    s@,
                    f_int(*count as int),
                ),
                (Some(rv), Machines::Power(cms)) => r matches Ok(s) && s@.wf() && feq(
                    s@,
                    ClockedMachines::speed_spec(cms.machines@, rv),
                ),
                (None, Machines::Power(_)) => r == Err::<Rat, MachinePowerError>(
                    MachinePowerError::RequiresEco,
                ),
                (Some(_), Machines::Eco(_)) => r == Err::<Rat, MachinePowerError>(
                    MachinePowerError::RequiresPower,
                ),
            },
    {
        match (recipe_voltage, self) {
            (None, Machines::Eco(count)) => Ok(Rat::from_u64(*count)),
            (Some(rv), Machines::Power(cms)) => Ok(cms.speed_factor(rv)),
            (None, Machines::Power(_)) => Err(MachinePowerError::RequiresEco),
            (Some(_), Machines::Eco(_)) => Err(MachinePowerError::RequiresPower),
        }
    }

    /// The total energy draw per tick of this population for a recipe
    /// drawing `recipe_eu` per tick; zero for unpowered machines on a
    /// powerless recipe, a mismatch error otherwise.
    pub fn eu_per_tick(&self, recipe_eu: i64) -> (r: Result<Rat, MachinePowerError>)
        requires
            self.wf(),
        ensures
            match (recipe_eu, self) {
                (0, Machines::Eco(_)) => r matches Ok(s) && s@.wf() && feq(s@, fzero()),
                (_, Machines::Power(cms)) => if recipe_eu != 0 {
                    r matches Ok(s) && s@.wf() && feq(
                        s@,
                        f_int(ClockedMachines::eu_spec(cms.machines@, recipe_eu as int)),
                    )
                } else {
                    r == Err::<Rat, MachinePowerError>(MachinePowerError::RequiresEco)
                },
                (_, Machines::Eco(_)) => r == Err::<Rat, MachinePowerError>(
                    MachinePowerError::RequiresPower,
                ),
            },
    {
        match self {
            Machines::Eco(_) => {
                if recipe_eu == 0 {
                    Ok(Rat::zero())
                } else {
                    Err(MachinePowerError::RequiresPower)
                }
            },
            Machines::Power(cms) => {
                if recipe_eu == 0 {
                    Err(MachinePowerError::RequiresEco)
                } else {
                    Ok(cms.eu_per_tick(recipe_eu))
                }
            },
        }
    }

    /// Turns this population into a powered one, keeping an existing
    /// powered population unchanged and otherwise starting empty.
    pub fn into_clocked(&mut self)
        requires
            old(self).wf(),
        ensures
            *final(self) matches Machines::Power(cms) && cms.wf(),
            *old(self) matches Machines::Power(_) ==> *final(self) == *old(self),
            !(*old(self) matches Machines::Power(_)) ==> (*final(self) matches Machines::Power(
                cms,
            ) && cms.machines@.len() == 0),
    {
        match self {
            Machines::Power(_) => {},
            _ => {
                *self = Machines::Power(ClockedMachines::new());
            },
        }
    }

    /// Turns this population into an unpowered one, keeping an existing
    /// unpowered count and otherwise starting at zero.
    pub fn into_eco(&mut self)
        ensures
            *final(self) matches Machines::Eco(_),
            *old(self) matches Machines::Eco(_) ==> *final(self) == *old(self),
    {
        match self {
            Machines::Eco(_) => {},
            _ => {
                *self = Machines::Eco(0);
            },
        }
    }
}

/// The absolute value of an integer.
pub open spec fn abs_int(i: int) -> int {
    if i < 0 {
        -i
    } else {
        i
    }
}

/// `2^k` for small `k`, as a machine integer.
pub fn pow2_u64(k: u8) -> (r: u64)
    requires
        k <= 31,
    ensures
        r == pow2_int(k as int),
        1 <= r <= 0x8000_0000,
{
    let mut r: u64 = 1;
    let mut i: u8 = 0;
    while i < k
        invariant
            0 <= i <= k,
            k <= 31,
            r == pow2_int(i as int),
            1 <= r <= 0x8000_0000,
        decreases k - i,
    {
        proof {
            crate::frac::lemma_pow2_bound(i as int);
        }
        r = r * 2;
        i = i + 1;
    }
    r
}

} // verus!
