use schedule1::mixing::effects::{
    ATHLETIC, BALDING, BRIGHT_EYED, CALMING, CYCLOPEAN, ELECTRIFYING, ENERGIZING, FOGGY,
    GINGERITIS, LONG_FACED, MUNCHIES, PARANOIA, REFRESHING, SEDATING, THOUGHT_PROVOKING, TOXIC,
    ZOMBIFYING,
};
use schedule1::mixing::order::{arrange_rules, find_rule, order_rules};
use schedule1::mixing::parse::{
    build_rules, check_rules, find_rule_error, parse_effect_list, parse_rule, rules_for,
    string_to_effect, string_to_substance, unknown_code, unknown_pair_code, EffectSource,
    RuleSource, RulesError,
};
use schedule1::mixing::{
    inherent_effects, substance_cost, Drugs, Effects, MixtureRules, Rule, Substance, ALL_EFFECTS,
    MAX_EFFECTS, NUM_EFFECTS, NUM_SUBSTANCES,
};

fn set(bits: u64) -> Effects {
    Effects::from_bits(bits).unwrap()
}

fn rule(if_present: u64, if_not_present: u64, remove: u64, add: u64) -> Rule {
    Rule {
        if_present: set(if_present),
        if_not_present: set(if_not_present),
        remove: set(remove),
        add: set(add),
    }
}

fn table(rules_of: Vec<(Substance, Vec<Rule>)>, inherent_of: Vec<(Substance, u64)>) -> MixtureRules {
    let mut rules: Vec<Vec<Rule>> = vec![Vec::new(); NUM_SUBSTANCES];
    for (s, r) in rules_of {
        rules[s.index() as usize] = r;
    }
    let mut inherent = vec![Effects::empty(); NUM_SUBSTANCES];
    for (s, e) in inherent_of {
        inherent[s.index() as usize] = set(e);
    }
    MixtureRules::from_parts(rules, inherent).unwrap()
}

fn words(list: &[&str]) -> Vec<String> {
    list.iter().map(|s| s.to_string()).collect()
}

fn ok_again() -> RuleSource {
    source(&["Lf"], &["El"], "O", &[("Lf", "El")])
}

fn source(present: &[&str], absent: &[&str], substance: &str, replace: &[(&str, &str)]) -> RuleSource {
    RuleSource {
        if_present: words(present),
        if_not_present: words(absent),
        requires_substance: substance.to_string(),
        replace: replace
            .iter()
            .map(|(a, b)| (a.to_string(), b.to_string()))
            .collect(),
    }
}

#[test]
fn effects_universe_has_34_members() {
    assert_eq!(NUM_EFFECTS, 34);
    assert_eq!(MAX_EFFECTS, 8);
    assert_eq!(ALL_EFFECTS, (1u64 << 34) - 1);
    assert_eq!(ZOMBIFYING, 1u64 << 33);
    assert!(Effects::from_bits(ALL_EFFECTS).is_some());
    assert!(Effects::from_bits(1u64 << 34).is_none());
}

#[test]
fn effect_set_operations() {
    let a = set(CALMING | ENERGIZING);
    let b = set(ENERGIZING);
    assert!(a.contains(b));
    assert!(!b.contains(a));
    assert!(a.contains(Effects::empty()));
    assert!(a.intersects(b));
    assert!(!b.intersects(set(CALMING)));
    assert_eq!(a.union(set(SEDATING)).bits(), CALMING | ENERGIZING | SEDATING);
    assert_eq!(a.difference(b).bits(), CALMING);
    assert_eq!(a.len(), 2);
    assert!(Effects::empty().is_empty());
    let mut c = a;
    c.insert(set(REFRESHING));
    c.remove(set(CALMING));
    assert_eq!(c.bits(), ENERGIZING | REFRESHING);
    assert_eq!(Effects::from_mask(LONG_FACED).bits(), LONG_FACED);
}

#[test]
fn substances_and_base_products() {
    for i in 0..16u8 {
        let s = Substance::from_index(i).unwrap();
        assert_eq!(s.index(), i);
    }
    assert_eq!(Substance::from_index(16), None);
    assert_eq!(Substance::from_index(0), Some(Substance::Cuke));
    assert_eq!(Substance::from_index(15), Some(Substance::Battery));
    assert_eq!(Drugs::from_index(5), Some(Drugs::Cocaine));
    assert_eq!(Drugs::from_index(6), None);
    assert_eq!(Drugs::Meth.index(), 4);
    assert_eq!(Drugs::OGKush.name(), "OG Kush");
    assert_eq!(Drugs::GranddaddyPurple.name(), "Granddaddy Purple");
    assert_eq!(inherent_effects(Drugs::OGKush).bits(), CALMING);
    assert_eq!(inherent_effects(Drugs::SourDiesel).bits(), REFRESHING);
    assert_eq!(inherent_effects(Drugs::GreenCrack).bits(), ENERGIZING);
    assert_eq!(inherent_effects(Drugs::GranddaddyPurple).bits(), SEDATING);
    assert_eq!(inherent_effects(Drugs::Meth).bits(), 0);
    assert_eq!(inherent_effects(Drugs::Cocaine).bits(), 0);
}

#[test]
fn substance_costs() {
    assert_eq!(substance_cost(Substance::Cuke), 2);
    assert_eq!(substance_cost(Substance::Banana), 2);
    assert_eq!(substance_cost(Substance::Paracetamol), 3);
    assert_eq!(substance_cost(Substance::Donut), 3);
    assert_eq!(substance_cost(Substance::Viagra), 4);
    assert_eq!(substance_cost(Substance::MouthWash), 4);
    assert_eq!(substance_cost(Substance::FluMedicine), 5);
    assert_eq!(substance_cost(Substance::Gasoline), 5);
    assert_eq!(substance_cost(Substance::EnergyDrink), 6);
    assert_eq!(substance_cost(Substance::MotorOil), 6);
    assert_eq!(substance_cost(Substance::MegaBean), 7);
    assert_eq!(substance_cost(Substance::Chili), 7);
    assert_eq!(substance_cost(Substance::Battery), 8);
    assert_eq!(substance_cost(Substance::Iodine), 8);
    assert_eq!(substance_cost(Substance::Addy), 9);
    assert_eq!(substance_cost(Substance::HorseSemen), 9);
}

#[test]
fn rule_fires_only_with_its_guards() {
    let r = rule(LONG_FACED, ELECTRIFYING, LONG_FACED, ELECTRIFYING);
    assert_eq!(r.step(set(LONG_FACED)).bits(), ELECTRIFYING);
    // what must be present is missing
    assert_eq!(r.step(set(CALMING)).bits(), CALMING);
    // what must not be present is there
    assert_eq!(
        r.step(set(LONG_FACED | ELECTRIFYING)).bits(),
        LONG_FACED | ELECTRIFYING
    );
    // a rule without a forbidden effect fires
    let free = rule(CALMING, 0, CALMING, SEDATING);
    assert_eq!(free.step(set(CALMING)).bits(), SEDATING);
    // one effect of several forbidden ones is enough to hold the rule back
    let two = rule(CALMING, SEDATING | REFRESHING, CALMING, ENERGIZING);
    assert_eq!(two.step(set(CALMING | REFRESHING)).bits(), CALMING | REFRESHING);
}

#[test]
fn apply_takes_each_rule_once_in_order_and_adds_inherent() {
    let rules = table(
        vec![(
            Substance::Banana,
            vec![
                rule(ENERGIZING, THOUGHT_PROVOKING, ENERGIZING, THOUGHT_PROVOKING),
                rule(CYCLOPEAN, ENERGIZING, CYCLOPEAN, ENERGIZING),
            ],
        )],
        vec![(Substance::Banana, GINGERITIS)],
    );
    let after = rules.apply(Substance::Banana, set(CYCLOPEAN | ENERGIZING));
    assert_eq!(after.bits(), ENERGIZING | THOUGHT_PROVOKING | GINGERITIS);
    // on the empty set only the inherent effect comes
    assert_eq!(rules.apply(Substance::Banana, Effects::empty()).bits(), GINGERITIS);
    // a substance without rules and inherent effects changes nothing
    assert_eq!(
        rules.apply(Substance::Cuke, set(CALMING)).bits(),
        CALMING
    );
    assert_eq!(rules.rules(Substance::Banana).len(), 2);
    assert_eq!(rules.inherent(Substance::Banana).bits(), GINGERITIS);
}

#[test]
fn apply_is_the_same_every_time() {
    let rules = table(
        vec![(
            Substance::Addy,
            vec![rule(LONG_FACED, ELECTRIFYING, LONG_FACED, ELECTRIFYING)],
        )],
        vec![(Substance::Addy, THOUGHT_PROVOKING)],
    );
    let first = rules.apply(Substance::Addy, set(LONG_FACED));
    for _ in 0..10 {
        assert_eq!(rules.apply(Substance::Addy, set(LONG_FACED)), first);
    }
    assert_eq!(first.bits(), ELECTRIFYING | THOUGHT_PROVOKING);
}

#[test]
fn inherent_effects_join_only_below_eight() {
    let rules = table(vec![], vec![(Substance::Cuke, ENERGIZING)]);
    let seven = set(0b111_1111);
    assert_eq!(rules.apply(Substance::Cuke, seven).bits(), 0b111_1111 | ENERGIZING);
    let eight = set(0b1111_1111);
    assert_eq!(rules.apply(Substance::Cuke, eight).bits(), 0b1111_1111);
}

#[test]
fn mixture_rules_need_one_entry_per_substance() {
    assert!(MixtureRules::from_parts(vec![Vec::new(); 15], vec![Effects::empty(); 16]).is_none());
    assert!(MixtureRules::from_parts(vec![Vec::new(); 16], vec![Effects::empty(); 17]).is_none());
    assert!(MixtureRules::from_parts(vec![Vec::new(); 16], vec![Effects::empty(); 16]).is_some());
}

#[test]
fn codes_of_substances() {
    assert_eq!(string_to_substance("A"), Some(Substance::Cuke));
    assert_eq!(string_to_substance("H"), Some(Substance::Banana));
    assert_eq!(string_to_substance("M"), Some(Substance::HorseSemen));
    assert_eq!(string_to_substance("P"), Some(Substance::Battery));
    assert_eq!(string_to_substance("Q"), None);
    assert_eq!(string_to_substance(""), None);
    assert_eq!(string_to_substance("AB"), None);
    assert_eq!(string_to_substance("a"), None);
}

#[test]
fn codes_of_effects() {
    assert_eq!(string_to_effect("Ag").unwrap().bits(), 1);
    assert_eq!(string_to_effect("Be").unwrap().bits(), BRIGHT_EYED);
    assert_eq!(string_to_effect("Cy").unwrap().bits(), CYCLOPEAN);
    assert_eq!(string_to_effect("Lf").unwrap().bits(), LONG_FACED);
    assert_eq!(string_to_effect("Tp").unwrap().bits(), THOUGHT_PROVOKING);
    assert_eq!(string_to_effect("Zo").unwrap().bits(), ZOMBIFYING);
    assert!(string_to_effect("Zz").is_none());
    assert!(string_to_effect("A").is_none());
    assert!(string_to_effect("Agg").is_none());
    let codes = [
        "Ag", "At", "Ba", "Be", "Ca", "Cd", "Cy", "Di", "El", "En", "Eu", "Ex", "Fc", "Fo", "Gi",
        "Gl", "Je", "La", "Lf", "Mu", "Pa", "Re", "Sc", "Se", "Sh", "Si", "Sl", "Sm", "Sn", "Sp",
        "To", "Tp", "Tt", "Zo",
    ];
    for (i, code) in codes.iter().enumerate() {
        assert_eq!(string_to_effect(code).unwrap().bits(), 1u64 << i);
    }
}

#[test]
fn lists_of_effect_codes() {
    assert_eq!(
        parse_effect_list(&words(&["Ca", "En"])).unwrap().bits(),
        CALMING | ENERGIZING
    );
    assert_eq!(parse_effect_list(&words(&[])).unwrap().bits(), 0);
    assert!(parse_effect_list(&words(&["Ca", "??"])).is_none());
}

#[test]
fn one_rule_source() {
    let ok = source(&["Lf"], &["El"], "O", &[("Lf", "El")]);
    assert_eq!(
        parse_rule(&ok),
        Ok(Some((
            Substance::Addy,
            rule(LONG_FACED, ELECTRIFYING, LONG_FACED, ELECTRIFYING)
        )))
    );
    // an unknown substance makes the rule be passed over, whatever else it holds
    let skipped = source(&["??"], &[], "Z", &[]);
    assert_eq!(parse_rule(&skipped), Ok(None));
    // an unknown effect in a rule of a known substance is an error
    let bad = source(&["Lf"], &[], "O", &[("Lf", "Xx")]);
    assert_eq!(parse_rule(&bad), Err(RulesError::UnknownEffect("Xx".to_string())));
    // the first unknown code is named: of what must be there, then of what
    // must not, then of the replacements, each in order
    let worse = source(&["Lf", "Q1", "Q2"], &["Q3"], "O", &[("Q4", "Lf")]);
    assert_eq!(parse_rule(&worse), Err(RulesError::UnknownEffect("Q1".to_string())));
    let absent = source(&["Lf"], &["El", "Q3"], "O", &[("Q4", "Lf")]);
    assert_eq!(parse_rule(&absent), Err(RulesError::UnknownEffect("Q3".to_string())));
    let swapped = source(&["Lf"], &["El"], "O", &[("Lf", "El"), ("Lf", "Q5"), ("Q4", "Q6")]);
    assert_eq!(parse_rule(&swapped), Err(RulesError::UnknownEffect("Q5".to_string())));
    assert_eq!(unknown_code(&words(&["Lf", "lf", "El", ""])), Some("lf".to_string()));
    assert_eq!(unknown_code(&words(&["Lf", "El"])), None);
    assert_eq!(
        unknown_pair_code(&vec![("Lf".to_string(), "El".to_string()), ("".to_string(), "?".to_string())]),
        Some("".to_string())
    );
    assert_eq!(find_rule_error(&vec![ok_again(), worse, absent]), Some(RulesError::UnknownEffect("Q1".to_string())));
    assert_eq!(find_rule_error(&vec![ok_again()]), None);
    assert!(check_rules(&vec![ok, skipped]));
    assert!(!check_rules(&vec![bad]));
}

#[test]
fn rules_are_ordered_by_what_they_must_not_find() {
    // declared the wrong way round: the second must take its turn first
    let declared = vec![
        rule(ENERGIZING, THOUGHT_PROVOKING, ENERGIZING, THOUGHT_PROVOKING),
        rule(CYCLOPEAN, ENERGIZING, CYCLOPEAN, ENERGIZING),
    ];
    let ordered = order_rules(&declared).unwrap();
    assert_eq!(ordered, vec![declared[1], declared[0]]);
    // declared in the order of their turns, they stay as they are
    let in_turn = vec![declared[1], declared[0]];
    assert_eq!(order_rules(&in_turn).unwrap(), in_turn);
}

#[test]
fn a_chain_of_replacements_runs_to_its_end_in_one_pass() {
    let declared = vec![
        source(&["At"], &["Ba"], "A", &[("At", "Ba")]),
        source(&["Ca"], &["At"], "A", &[("Ca", "At")]),
    ];
    let rules = build_rules(&declared, &Vec::new()).ok().unwrap();
    assert_eq!(
        *rules.rules(Substance::Cuke),
        vec![rule(CALMING, ATHLETIC, CALMING, ATHLETIC), rule(ATHLETIC, BALDING, ATHLETIC, BALDING)]
    );
    let calming = Effects::from_bits(CALMING).unwrap();
    assert_eq!(rules.apply(Substance::Cuke, calming).bits(), BALDING);
    let athletic = Effects::from_bits(ATHLETIC).unwrap();
    assert_eq!(rules.apply(Substance::Cuke, athletic).bits(), BALDING);
    // what the first rule must not find stops the chain
    let both = Effects::from_bits(CALMING | ATHLETIC).unwrap();
    assert_eq!(rules.apply(Substance::Cuke, both).bits(), CALMING | BALDING);
}

#[test]
fn rules_in_a_circle_are_refused() {
    let declared = vec![
        rule(CYCLOPEAN, ENERGIZING, CYCLOPEAN, ENERGIZING),
        rule(ENERGIZING, CYCLOPEAN, ENERGIZING, CYCLOPEAN),
    ];
    assert_eq!(order_rules(&declared), Err(RulesError::CyclicRules));
    // a rule that waits for itself
    let alone = vec![rule(CALMING, CALMING, CALMING, SEDATING)];
    assert_eq!(order_rules(&alone), Err(RulesError::CyclicRules));
    assert_eq!(order_rules(&Vec::new()), Ok(Vec::new()));
}

#[test]
fn only_the_first_rule_of_a_trigger_stays() {
    let declared = vec![
        rule(CALMING, SEDATING, CALMING, SEDATING),
        rule(CALMING, REFRESHING, CALMING, REFRESHING),
    ];
    let ordered = order_rules(&declared).unwrap();
    assert_eq!(ordered, vec![declared[0]]);
    assert_eq!(find_rule(&declared, CALMING), Some(declared[0]));
    assert_eq!(find_rule(&declared, SEDATING), None);
    assert_eq!(
        arrange_rules(&declared, &vec![SEDATING, CALMING, REFRESHING]),
        vec![declared[0]]
    );
}

#[test]
fn table_from_sources() {
    let sources = vec![
        source(&["Cy"], &["En"], "H", &[("Cy", "En")]),
        source(&["En"], &["Tp"], "H", &[("En", "Tp")]),
        source(&["Lf"], &["El"], "O", &[("Lf", "El")]),
        source(&["??"], &[], "?", &[]),
    ];
    let effects = vec![
        EffectSource { substance: "H".to_string(), effect: words(&["Gi"]) },
        EffectSource { substance: "O".to_string(), effect: words(&["Tp"]) },
    ];
    let rules = build_rules(&sources, &effects).ok().unwrap();
    // the first rule must not find ENERGIZING; the second takes its turn after it
    assert_eq!(
        rules.apply(Substance::Banana, set(CYCLOPEAN | ENERGIZING)).bits(),
        CYCLOPEAN | THOUGHT_PROVOKING | GINGERITIS
    );
    assert_eq!(
        rules.apply(Substance::Banana, set(CYCLOPEAN)).bits(),
        THOUGHT_PROVOKING | GINGERITIS
    );
    assert_eq!(
        rules.apply(Substance::Addy, set(LONG_FACED)).bits(),
        ELECTRIFYING | THOUGHT_PROVOKING
    );
    assert_eq!(rules.rules(Substance::Banana).len(), 2);
    assert_eq!(rules.rules(Substance::Cuke).len(), 0);
    assert_eq!(
        rules_for(&sources, Substance::Addy),
        vec![rule(LONG_FACED, ELECTRIFYING, LONG_FACED, ELECTRIFYING)]
    );
}

#[test]
fn table_errors() {
    let good = vec![source(&["Lf"], &["El"], "O", &[("Lf", "El")])];
    let no_effects: Vec<EffectSource> = Vec::new();
    let bad_rule = vec![
        source(&["Lf"], &["El"], "O", &[("Lf", "El")]),
        source(&["Yy"], &[], "?", &[]),
        source(&["Xx"], &[], "O", &[]),
        source(&["Zz"], &[], "O", &[]),
    ];
    assert_eq!(
        build_rules(&bad_rule, &no_effects).err(),
        Some(RulesError::UnknownEffect("Xx".to_string()))
    );
    let circle = vec![
        source(&["Cy"], &["En"], "H", &[("Cy", "En")]),
        source(&["En"], &["Cy"], "H", &[("En", "Cy")]),
    ];
    assert_eq!(
        build_rules(&circle, &no_effects).err(),
        Some(RulesError::CyclicRules)
    );
    let bad_substance = vec![EffectSource { substance: "?".to_string(), effect: words(&["Gi"]) }];
    assert_eq!(
        build_rules(&good, &bad_substance).err(),
        Some(RulesError::UnknownSubstance)
    );
    let bad_effect = vec![EffectSource { substance: "H".to_string(), effect: words(&["Gi", "??"]) }];
    assert_eq!(
        build_rules(&good, &bad_effect).err(),
        Some(RulesError::UnknownEffect("??".to_string()))
    );
    // the last entry of a substance counts
    let twice = vec![
        EffectSource { substance: "H".to_string(), effect: words(&["Gi"]) },
        EffectSource { substance: "H".to_string(), effect: words(&["Ca"]) },
    ];
    let rules = build_rules(&good, &twice).ok().unwrap();
    assert_eq!(rules.inherent(Substance::Banana).bits(), CALMING);
}

#[test]
fn rules_that_wait_for_nothing_go_by_their_masks() {
    // six rules that do not wait for each other, declared in falling order
    let triggers = [TOXIC, PARANOIA, MUNCHIES, FOGGY, BALDING, ATHLETIC];
    let declared: Vec<Rule> = triggers
        .iter()
        .map(|t| rule(*t, ZOMBIFYING, *t, CALMING))
        .collect();
    let ordered = order_rules(&declared).unwrap();
    let mut expected = declared.clone();
    expected.reverse();
    assert_eq!(ordered, expected);
    // the same rules in another order of declaration take their turns in the same order
    let mut shuffled = declared.clone();
    shuffled.swap(0, 3);
    shuffled.swap(1, 5);
    assert_eq!(order_rules(&shuffled).unwrap(), expected);
    for _ in 0..20 {
        assert_eq!(order_rules(&declared).unwrap(), expected);
    }
}

#[test]
fn layers_come_one_after_the_other() {
    // the rule set off by CALMING waits for the rule that must not find
    // CALMING, and that one for the rule that must not find SEDATING
    let declared = vec![
        rule(SEDATING, CALMING, SEDATING, REFRESHING),
        rule(CALMING, ZOMBIFYING, CALMING, REFRESHING),
        rule(ENERGIZING, SEDATING, ENERGIZING, REFRESHING),
    ];
    let ordered = order_rules(&declared).unwrap();
    assert_eq!(ordered, vec![declared[2], declared[0], declared[1]]);
}
