//! Effects, substances, base products and the rule table that says how a
//! substance transforms an effect set.

pub mod effects;
pub mod order;
pub mod parse;

pub use effects::{count_below, has_bit, popcount, Effects, ALL_EFFECTS, MAX_EFFECTS, NUM_EFFECTS};

use vstd::prelude::*;

verus! {

/// Number of substances.
pub const NUM_SUBSTANCES: usize = 16;

/// An additive ingredient.
#[derive(Debug, PartialEq, Eq, Structural, Hash, Clone, Copy, PartialOrd, Ord)]
pub enum Substance {
    Cuke,
    FluMedicine,
    Gasoline,
    Donut,
    EnergyDrink,
    MouthWash,
    MotorOil,
    Banana,
    Chili,
    Iodine,
    Paracetamol,
    Viagra,
    HorseSemen,
    MegaBean,
    Addy,
    Battery,
}

impl Substance {
    /// Position of the substance in the list of substances.
    pub open spec fn spec_index(self) -> u8 {
        match self {
            Substance::Cuke => 0,
            Substance::FluMedicine => 1,
            Substance::Gasoline => 2,
            Substance::Donut => 3,
            Substance::EnergyDrink => 4,
            Substance::MouthWash => 5,
            Substance::MotorOil => 6,
            Substance::Banana => 7,
            Substance::Chili => 8,
            Substance::Iodine => 9,
            Substance::Paracetamol => 10,
            Substance::Viagra => 11,
            Substance::HorseSemen => 12,
            Substance::MegaBean => 13,
            Substance::Addy => 14,
            Substance::Battery => 15,
        }
    }

    /// The substance at a position, where there is one.
    pub open spec fn spec_from_index(value: u8) -> Option<Substance> {
        match value {
            0 => Some(Substance::Cuke),
            1 => Some(Substance::FluMedicine),
            2 => Some(Substance::Gasoline),
            3 => Some(Substance::Donut),
            4 => Some(Substance::EnergyDrink),
            5 => Some(Substance::MouthWash),
            6 => Some(Substance::MotorOil),
            7 => Some(Substance::Banana),
            8 => Some(Substance::Chili),
            9 => Some(Substance::Iodine),
            10 => Some(Substance::Paracetamol),
            11 => Some(Substance::Viagra),
            12 => Some(Substance::HorseSemen),
            13 => Some(Substance::MegaBean),
            14 => Some(Substance::Addy),
            15 => Some(Substance::Battery),
            _ => None,
        }
    }

    /// Position of the substance in the list of substances.
    #[verifier::when_used_as_spec(spec_index)]
    pub fn index(self) -> (r: u8)
        ensures
            r == self.spec_index(),
            r < NUM_SUBSTANCES,
    {
        match self {
            Substance::Cuke => 0,
            Substance::FluMedicine => 1,
            Substance::Gasoline => 2,
            Substance::Donut => 3,
            Substance::EnergyDrink => 4,
            Substance::MouthWash => 5,
            Substance::MotorOil => 6,
            Substance::Banana => 7,
            Substance::Chili => 8,
            Substance::Iodine => 9,
            Substance::Paracetamol => 10,
            Substance::Viagra => 11,
            Substance::HorseSemen => 12,
            Substance::MegaBean => 13,
            Substance::Addy => 14,
            Substance::Battery => 15,
        }
    }

    /// The substance at a position; `None` from 16 on.
    pub fn from_index(value: u8) -> (r: Option<Substance>)
        ensures
            r == Substance::spec_from_index(value),
            r is Some <==> value < NUM_SUBSTANCES,
            r matches Some(s) ==> s.spec_index() == value,
    {
        match value {
            0 => Some(Substance::Cuke),
            1 => Some(Substance::FluMedicine),
            2 => Some(Substance::Gasoline),
            3 => Some(Substance::Donut),
            4 => Some(Substance::EnergyDrink),
            5 => Some(Substance::MouthWash),
            6 => Some(Substance::MotorOil),
            7 => Some(Substance::Banana),
            8 => Some(Substance::Chili),
            9 => Some(Substance::Iodine),
            10 => Some(Substance::Paracetamol),
            11 => Some(Substance::Viagra),
            12 => Some(Substance::HorseSemen),
            13 => Some(Substance::MegaBean),
            14 => Some(Substance::Addy),
            15 => Some(Substance::Battery),
            _ => None,
        }
    }
}

/// Going to a position and back gives the substance again.
pub proof fn lemma_substance_index_round_trip(s: Substance)
    ensures
        s.spec_index() < NUM_SUBSTANCES,
        Substance::spec_from_index(s.spec_index()) == Some(s),
{
}

/// A base product.
#[derive(Debug, Copy, Clone, PartialEq, Eq, Structural, PartialOrd, Ord, Hash)]
pub enum Drugs {
    OGKush,
    SourDiesel,
    GreenCrack,
    GranddaddyPurple,
    Meth,
    Cocaine,
}

impl Drugs {
    /// The base product at a position; `None` from 6 on.
    pub fn from_index(value: u8) -> (r: Option<Drugs>)
        ensures
            r is Some <==> value < 6,
            r matches Some(d) ==> d.spec_index() == value,
    {
        match value {
            0 => Some(Drugs::OGKush),
            1 => Some(Drugs::SourDiesel),
            2 => Some(Drugs::GreenCrack),
            3 => Some(Drugs::GranddaddyPurple),
            4 => Some(Drugs::Meth),
            5 => Some(Drugs::Cocaine),
            _ => None,
        }
    }

    /// Position of the base product in the list of base products.
    pub open spec fn spec_index(self) -> u8 {
        match self {
            Drugs::OGKush => 0,
            Drugs::SourDiesel => 1,
            Drugs::GreenCrack => 2,
            Drugs::GranddaddyPurple => 3,
            Drugs::Meth => 4,
            Drugs::Cocaine => 5,
        }
    }

    /// Position of the base product in the list of base products.
    #[verifier::when_used_as_spec(spec_index)]
    pub fn index(self) -> (r: u8)
        ensures
            r == self.spec_index(),
    {
        match self {
            Drugs::OGKush => 0,
            Drugs::SourDiesel => 1,
            Drugs::GreenCrack => 2,
            Drugs::GranddaddyPurple => 3,
            Drugs::Meth => 4,
            Drugs::Cocaine => 5,
        }
    }

    /// The name under which the base product is shown.
    pub fn name(self) -> (r: &'static str)
        ensures
            r@ == match self {
                Drugs::OGKush => "OG Kush"@,
                Drugs::SourDiesel => "Sour Diesel"@,
                Drugs::GreenCrack => "Green Crack"@,
                Drugs::GranddaddyPurple => "Granddaddy Purple"@,
                Drugs::Meth => "Meth"@,
                Drugs::Cocaine => "Cocaine"@,
            },
    {
        match self {
            Drugs::OGKush => "OG Kush",
            Drugs::SourDiesel => "Sour Diesel",
            Drugs::GreenCrack => "Green Crack",
            Drugs::GranddaddyPurple => "Granddaddy Purple",
            Drugs::Meth => "Meth",
            Drugs::Cocaine => "Cocaine",
        }
    }
}

/// Mask of the effect a base product starts with.
pub open spec fn spec_inherent_effects(drug: Drugs) -> u64 {
    match drug {
        Drugs::OGKush => effects::CALMING,
        Drugs::SourDiesel => effects::REFRESHING,
        Drugs::GreenCrack => effects::ENERGIZING,
        Drugs::GranddaddyPurple => effects::SEDATING,
        _ => 0,
    }
}

/// The effect set a base product starts with.
pub fn inherent_effects(drug: Drugs) -> (r: Effects)
    ensures
        r@ == spec_inherent_effects(drug),
{
    match drug {
        Drugs::OGKush => Effects::from_mask(effects::CALMING),
        Drugs::SourDiesel => Effects::from_mask(effects::REFRESHING),
        Drugs::GreenCrack => Effects::from_mask(effects::ENERGIZING),
        Drugs::GranddaddyPurple => Effects::from_mask(effects::SEDATING),
        _ => Effects::empty(),
    }
}

/// Price of one unit of a substance.
pub open spec fn spec_substance_cost(substance: Substance) -> i64 {
    match substance {
        Substance::Cuke => 2,
        Substance::Banana => 2,
        Substance::Paracetamol => 3,
        Substance::Donut => 3,
        Substance::Viagra => 4,
        Substance::MouthWash => 4,
        Substance::FluMedicine => 5,
        Substance::Gasoline => 5,
        Substance::EnergyDrink => 6,
        Substance::MotorOil => 6,
        Substance::MegaBean => 7,
        Substance::Chili => 7,
        Substance::Battery => 8,
        Substance::Iodine => 8,
        Substance::Addy => 9,
        Substance::HorseSemen => 9,
    }
}

/// Price of one unit of a substance.
#[verifier::when_used_as_spec(spec_substance_cost)]
pub fn substance_cost(substance: Substance) -> (r: i64)
    ensures
        r == spec_substance_cost(substance),
        2 <= r <= 9,
{
    match substance {
        Substance::Cuke => 2,
        Substance::Banana => 2,
        Substance::Paracetamol => 3,
        Substance::Donut => 3,
        Substance::Viagra => 4,
        Substance::MouthWash => 4,
        Substance::FluMedicine => 5,
        Substance::Gasoline => 5,
        Substance::EnergyDrink => 6,
        Substance::MotorOil => 6,
        Substance::MegaBean => 7,
        Substance::Chili => 7,
        Substance::Battery => 8,
        Substance::Iodine => 8,
        Substance::Addy => 9,
        Substance::HorseSemen => 9,
    }
}

/// A guarded rewrite of an effect set.
#[derive(Debug, Clone, Copy, PartialEq, Eq, Structural, PartialOrd, Ord)]
pub struct Rule {
    pub if_present: Effects,
    pub if_not_present: Effects,
    pub remove: Effects,
    pub add: Effects,
}

/// The rule applies to the set `e`: all of `if_present` is there and nothing
/// of `if_not_present`.
pub open spec fn rule_fires(rule: Rule, e: u64) -> bool {
    e & rule.if_present@ == rule.if_present@ && e & rule.if_not_present@ == 0
}

/// The set after one rule had its turn.
pub open spec fn rule_step(rule: Rule, e: u64) -> u64 {
    if rule_fires(rule, e) {
        (e & !rule.remove@) | rule.add@
    } else {
        e
    }
}

/// The set after each rule of `rules` had one turn, in order.
pub open spec fn apply_rules(rules: Seq<Rule>, e: u64) -> u64
    decreases rules.len(),
{
    if rules.len() == 0 {
        e
    } else {
        rule_step(rules.last(), apply_rules(rules.drop_last(), e))
    }
}

/// The set after a substance with the given rules and inherent effects was
/// applied to `e`.
pub open spec fn apply_substance_spec(rules: Seq<Rule>, inherent: u64, e: u64) -> u64 {
    let rewritten = apply_rules(rules, e);
    if popcount(rewritten) < MAX_EFFECTS {
        rewritten | inherent
    } else {
        rewritten
    }
}

impl Rule {
    /// Gives the rule its turn on `effects`.
    pub fn step(&self, effects: Effects) -> (r: Effects)
        ensures
            r@ == rule_step(*self, effects@),
    {
        if effects.contains(self.if_present) && !effects.intersects(self.if_not_present) {
            effects.difference(self.remove).union(self.add)
        } else {
            effects
        }
    }
}

/// The rule table: for each substance its rules, in the order in which they
/// take their turn, and its inherent effects.
pub struct MixtureRules {
    replacement_rules: Vec<Vec<Rule>>,
    inherent_effects: Vec<Effects>,
}

impl MixtureRules {
    #[verifier::type_invariant]
    spec fn one_entry_per_substance(self) -> bool {
        self.replacement_rules.len() == NUM_SUBSTANCES && self.inherent_effects.len()
            == NUM_SUBSTANCES
    }

    /// The rules of a substance, in the order in which they take their turn.
    pub closed spec fn rules_of(self, substance: Substance) -> Seq<Rule> {
        self.replacement_rules[substance.spec_index() as int]@
    }

    /// Mask of the inherent effects of a substance.
    pub closed spec fn inherent_of(self, substance: Substance) -> u64 {
        self.inherent_effects[substance.spec_index() as int]@
    }

    /// The set that `substance` turns `e` into.
    pub open spec fn apply_spec(self, substance: Substance, e: u64) -> u64 {
        apply_substance_spec(self.rules_of(substance), self.inherent_of(substance), e)
    }

    /// The table with the given rules and inherent effects, both listed by
    /// substance; `None` unless each list has one entry per substance.
    pub fn from_parts(replacement_rules: Vec<Vec<Rule>>, inherent_effects: Vec<Effects>) -> (r:
        Option<Self>)
        ensures
            r is Some <==> replacement_rules.len() == NUM_SUBSTANCES && inherent_effects.len()
                == NUM_SUBSTANCES,
            r matches Some(m) ==> forall|s: Substance|
                #![trigger m.rules_of(s)]
                #![trigger m.inherent_of(s)]
                m.rules_of(s) == replacement_rules[s.spec_index() as int]@ && m.inherent_of(s)
                    == inherent_effects[s.spec_index() as int]@,
    {
        if replacement_rules.len() == NUM_SUBSTANCES && inherent_effects.len() == NUM_SUBSTANCES {
            Some(MixtureRules { replacement_rules, inherent_effects })
        } else {
            None
        }
    }

    /// The rules of a substance, in the order in which they take their turn.
    pub fn rules(&self, substance: Substance) -> (r: &Vec<Rule>)
        ensures
            r@ == self.rules_of(substance),
    {
        proof {
            use_type_invariant(self);
        }
        &self.replacement_rules[substance.index() as usize]
    }

    /// The inherent effects of a substance.
    pub fn inherent(&self, substance: Substance) -> (r: Effects)
        ensures
            r@ == self.inherent_of(substance),
    {
        proof {
            use_type_invariant(self);
        }
        self.inherent_effects[substance.index() as usize]
    }

    /// Applies a substance to an effect set: each of its rules takes one turn,
    /// in order, and then, if fewer than `MAX_EFFECTS` effects are left, the
    /// inherent effects of the substance join the set.
    pub fn apply(&self, substance: Substance, effects: Effects) -> (r: Effects)
        ensures
            r@ == self.apply_spec(substance, effects@),
    {
        let rules = self.rules(substance);
        let mut current = effects;
        let mut i: usize = 0;
        while i < rules.len()
            invariant
                i <= rules.len(),
                current@ == apply_rules(rules@.subrange(0, i as int), effects@),
            decreases rules.len() - i,
        {
            proof {
                assert(rules@.subrange(0, i + 1).drop_last() == rules@.subrange(0, i as int));
            }
            current = rules[i].step(current);
            i += 1;
        }
        proof {
            assert(rules@.subrange(0, i as int) == rules@);
        }
        if current.len() < MAX_EFFECTS as u32 {
            current.union(self.inherent(substance))
        } else {
            current
        }
    }
}

} // verus!
