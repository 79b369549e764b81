use schedule1::mixing::effects::{
    BRIGHT_EYED, CYCLOPEAN, ELECTRIFYING, ENERGIZING, EUPHORIC, FOGGY, GINGERITIS, JENNERISING,
    LONG_FACED, REFRESHING, THOUGHT_PROVOKING,
};
use schedule1::mixing::parse::{build_rules, EffectSource, RuleSource};
use schedule1::mixing::{Effects, MixtureRules, Substance};

/// The rules of the substances that the scenarios use, as a configuration
/// spells them: an effect, what it turns into, and the effect that must not
/// be there. Most replacements wait for their outcome to be absent. Where the
/// outcome of one replacement sets off another of the same substance and an
/// effect is to move one step only, the second is told not to find an effect
/// that leads back to what sets off the first, so that it takes its turn
/// before the first.
fn rules() -> MixtureRules {
    let replacements: [(&str, &[(&str, &str, &str)]); 7] = [
        // Cuke
        (
            "A",
            &[
                ("Eu", "La", "La"),
                ("Fo", "Cy", "Cy"),
                ("Gi", "Tp", "Tp"),
                ("Mu", "At", "At"),
                ("Sl", "Mu", "Mu"),
                ("Sn", "Pa", "Pa"),
                ("To", "Eu", "Eu"),
            ],
        ),
        // Banana
        (
            "H",
            &[
                ("Ca", "Sn", "Sn"),
                ("Cy", "En", "Je"),
                ("Di", "Fc", "Fc"),
                ("En", "Tp", "Pa"),
                ("Fc", "Si", "Si"),
                ("Lf", "Re", "Re"),
                ("Pa", "Je", "Cy"),
                ("Sm", "Ag", "Ag"),
                ("To", "Sm", "Sm"),
            ],
        ),
        // Iodine
        (
            "J",
            &[
                ("Ca", "Ba", "Ba"),
                ("Cd", "Gi", "Gi"),
                ("Eu", "Si", "Si"),
                ("Fo", "Pa", "Pa"),
                ("Re", "Tp", "Tp"),
                ("To", "Sn", "Sn"),
            ],
        ),
        // Horse Semen
        ("M", &[("Ag", "Ca", "Ca"), ("Gi", "Re", "Re"), ("Si", "En", "En"), ("Tp", "El", "El")]),
        // Mega Bean
        (
            "N",
            &[
                ("At", "La", "La"),
                ("Ca", "Gl", "Gl"),
                ("En", "Cy", "Cy"),
                ("Fc", "Di", "Di"),
                ("Je", "Pa", "Pa"),
                ("Si", "Fc", "Fc"),
                ("Sh", "El", "El"),
                ("Sl", "To", "To"),
                ("Sn", "Ca", "Ca"),
                ("Tp", "En", "En"),
            ],
        ),
        // Addy
        (
            "O",
            &[
                ("Ex", "Eu", "Eu"),
                ("Fo", "En", "En"),
                ("Gl", "Re", "Re"),
                ("Lf", "El", "El"),
                ("Se", "Gi", "Gi"),
            ],
        ),
        // Battery
        (
            "P",
            &[
                ("Cy", "Gl", "Gl"),
                ("El", "Eu", "Zo"),
                ("Eu", "Zo", "El"),
                ("La", "Cd", "Cd"),
                ("Mu", "Tt", "Tt"),
                ("Sh", "Mu", "Mu"),
            ],
        ),
    ];
    let mut sources = Vec::new();
    for (substance, triples) in replacements {
        for (from, to, unless) in triples {
            sources.push(RuleSource {
                if_present: vec![from.to_string()],
                if_not_present: vec![unless.to_string()],
                requires_substance: substance.to_string(),
                replace: vec![(from.to_string(), to.to_string())],
            });
        }
    }
    let inherent = [("A", "En"), ("H", "Gi"), ("J", "Je"), ("M", "Lf"), ("N", "Fo"), ("O", "Tp"), ("P", "Be")];
    let effects = inherent
        .iter()
        .map(|(s, e)| EffectSource { substance: s.to_string(), effect: vec![e.to_string()] })
        .collect();
    build_rules(&sources, &effects).ok().unwrap()
}

fn set(bits: u64) -> Effects {
    Effects::from_bits(bits).unwrap()
}

#[test]
fn test_regression_cocaine() {
    let rules = rules();

    let effects = Effects::empty();

    // First mix
    let effects = rules.apply(Substance::HorseSemen, effects);
    assert_eq!(effects, set(LONG_FACED));

    // Second mix
    let effects = rules.apply(Substance::Addy, effects);
    assert_eq!(effects, set(ELECTRIFYING | THOUGHT_PROVOKING));

    // Third mix
    let effects = rules.apply(Substance::Battery, effects);
    assert_eq!(effects, set(EUPHORIC | THOUGHT_PROVOKING | BRIGHT_EYED));

    // Fourth mix
    let effects = rules.apply(Substance::HorseSemen, effects);
    assert_eq!(effects, set(ELECTRIFYING | BRIGHT_EYED | LONG_FACED | EUPHORIC));
}

#[test]
fn test_regression_cocaine2() {
    let rules = rules();

    let effects = Effects::empty();

    // First mix
    let effects = rules.apply(Substance::MegaBean, effects);
    assert_eq!(effects, set(FOGGY));

    // Second mix
    let effects = rules.apply(Substance::Cuke, effects);
    assert_eq!(effects, set(CYCLOPEAN | ENERGIZING));

    // Third mix
    let effects = rules.apply(Substance::Banana, effects);
    assert_eq!(effects, set(ENERGIZING | THOUGHT_PROVOKING | GINGERITIS));

    // Fourth mix
    let effects = rules.apply(Substance::HorseSemen, effects);
    assert_eq!(effects, set(ENERGIZING | ELECTRIFYING | REFRESHING | LONG_FACED));

    // Fifth mix
    let effects = rules.apply(Substance::Iodine, effects);
    assert_eq!(
        effects,
        set(ENERGIZING | ELECTRIFYING | THOUGHT_PROVOKING | LONG_FACED | JENNERISING)
    );
}
