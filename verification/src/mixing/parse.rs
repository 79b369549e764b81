//! From the text of a rule configuration to rules: the codes of substances
//! and effects, and the rules and inherent effects they spell.

use super::effects::{Effects, ALL_EFFECTS, NUM_EFFECTS};
use super::order::{
    arrange, has_cycle, is_topological, order_rules, rule_links, rule_nodes, turn_order,
};
use super::{MixtureRules, Rule, Substance, NUM_SUBSTANCES};
use vstd::prelude::*;
use vstd::string::*;

verus! {

/// What is wrong with a rule configuration.
#[derive(Debug, Clone, PartialEq, Eq)]
pub enum RulesError {
    /// An effect code that names no effect: the code as it was spelled.
    UnknownEffect(String),
    /// A substance code, in the list of inherent effects, that names no
    /// substance.
    UnknownSubstance,
    /// The rules of one substance depend on each other in a circle.
    CyclicRules,
}

/// The letter that stands for a substance.
pub open spec fn substance_code(substance: Substance) -> char {
    match substance {
        Substance::Cuke => 'A',
        Substance::FluMedicine => 'B',
        Substance::Gasoline => 'C',
        Substance::Donut => 'D',
        Substance::EnergyDrink => 'E',
        Substance::MouthWash => 'F',
        Substance::MotorOil => 'G',
        Substance::Banana => 'H',
        Substance::Chili => 'I',
        Substance::Iodine => 'J',
        Substance::Paracetamol => 'K',
        Substance::Viagra => 'L',
        Substance::HorseSemen => 'M',
        Substance::MegaBean => 'N',
        Substance::Addy => 'O',
        Substance::Battery => 'P',
    }
}

/// The two letters that stand for the effect at a position of the universe.
pub open spec fn effect_code(index: u8) -> (char, char) {
    match index {
        0 => ('A', 'g'),
        1 => ('A', 't'),
        2 => ('B', 'a'),
        3 => ('B', 'e'),
        4 => ('C', 'a'),
        5 => ('C', 'd'),
        6 => ('C', 'y'),
        7 => ('D', 'i'),
        8 => ('E', 'l'),
        9 => ('E', 'n'),
        10 => ('E', 'u'),
        11 => ('E', 'x'),
        12 => ('F', 'c'),
        13 => ('F', 'o'),
        14 => ('G', 'i'),
        15 => ('G', 'l'),
        16 => ('J', 'e'),
        17 => ('L', 'a'),
        18 => ('L', 'f'),
        19 => ('M', 'u'),
        20 => ('P', 'a'),
        21 => ('R', 'e'),
        22 => ('S', 'c'),
        23 => ('S', 'e'),
        24 => ('S', 'h'),
        25 => ('S', 'i'),
        26 => ('S', 'l'),
        27 => ('S', 'm'),
        28 => ('S', 'n'),
        29 => ('S', 'p'),
        30 => ('T', 'o'),
        31 => ('T', 'p'),
        32 => ('T', 't'),
        _ => ('Z', 'o'),
    }
}

/// The substance that a text names, if it names one.
pub open spec fn spec_string_to_substance(text: Seq<char>) -> Option<Substance> {
    if exists|s: Substance| text == seq![substance_code(s)] {
        Some(choose|s: Substance| text == seq![substance_code(s)])
    } else {
        None
    }
}

/// Position of the effect that a text names, if it names one.
pub open spec fn spec_effect_index(text: Seq<char>) -> Option<u8> {
    if exists|i: u8| i < NUM_EFFECTS && text == seq![effect_code(i).0, effect_code(i).1] {
        Some(choose|i: u8| i < NUM_EFFECTS && text == seq![effect_code(i).0, effect_code(i).1])
    } else {
        None
    }
}

/// Mask of the effect that a text names, if it names one.
pub open spec fn spec_string_to_effect(text: Seq<char>) -> Option<u64> {
    match spec_effect_index(text) {
        Some(i) => Some(1u64 << i),
        None => None,
    }
}

/// No two substances share a letter.
pub proof fn lemma_substance_codes_differ(a: Substance, b: Substance)
    requires
        substance_code(a) == substance_code(b),
    ensures
        a == b,
{
}

/// No two effects share a code.
pub proof fn lemma_effect_codes_differ(i: u8, j: u8)
    requires
        i < NUM_EFFECTS,
        j < NUM_EFFECTS,
        effect_code(i) == effect_code(j),
    ensures
        i == j,
{
}

/// A text of one letter names the substance with that letter, and no other.
pub proof fn lemma_substance_of_code(s: Substance)
    ensures
        spec_string_to_substance(seq![substance_code(s)]) == Some(s),
{
    let text = seq![substance_code(s)];
    let t = choose|t: Substance| text == seq![substance_code(t)];
    assert(text[0] == substance_code(t));
    lemma_substance_codes_differ(s, t);
}

/// A text of the two letters of an effect names that effect, and no other.
pub proof fn lemma_effect_of_code(i: u8)
    requires
        i < NUM_EFFECTS,
    ensures
        spec_effect_index(seq![effect_code(i).0, effect_code(i).1]) == Some(i),
{
    let text = seq![effect_code(i).0, effect_code(i).1];
    let j = choose|j: u8| j < NUM_EFFECTS && text == seq![effect_code(j).0, effect_code(j).1];
    assert(text[0] == effect_code(j).0 && text[1] == effect_code(j).1);
    lemma_effect_codes_differ(i, j);
}

/// The mask of one effect lies inside the universe.
proof fn lemma_single_inside(i: u8)
    by (bit_vector)
    requires
        i < 34,
    ensures
        1u64 << i <= 0x3_ffff_ffffu64,
{
}

fn substance_letter(substance: Substance) -> (r: char)
    ensures
        r == substance_code(substance),
{
    match substance {
        Substance::Cuke => 'A',
        Substance::FluMedicine => 'B',
        Substance::Gasoline => 'C',
        Substance::Donut => 'D',
        Substance::EnergyDrink => 'E',
        Substance::MouthWash => 'F',
        Substance::MotorOil => 'G',
        Substance::Banana => 'H',
        Substance::Chili => 'I',
        Substance::Iodine => 'J',
        Substance::Paracetamol => 'K',
        Substance::Viagra => 'L',
        Substance::HorseSemen => 'M',
        Substance::MegaBean => 'N',
        Substance::Addy => 'O',
        Substance::Battery => 'P',
    }
}

fn effect_letters(index: u8) -> (r: (char, char))
    ensures
        r == effect_code(index),
{
    match index {
        0 => ('A', 'g'),
        1 => ('A', 't'),
        2 => ('B', 'a'),
        3 => ('B', 'e'),
        4 => ('C', 'a'),
        5 => ('C', 'd'),
        6 => ('C', 'y'),
        7 => ('D', 'i'),
        8 => ('E', 'l'),
        9 => ('E', 'n'),
        10 => ('E', 'u'),
        11 => ('E', 'x'),
        12 => ('F', 'c'),
        13 => ('F', 'o'),
        14 => ('G', 'i'),
        15 => ('G', 'l'),
        16 => ('J', 'e'),
        17 => ('L', 'a'),
        18 => ('L', 'f'),
        19 => ('M', 'u'),
        20 => ('P', 'a'),
        21 => ('R', 'e'),
        22 => ('S', 'c'),
        23 => ('S', 'e'),
        24 => ('S', 'h'),
        25 => ('S', 'i'),
        26 => ('S', 'l'),
        27 => ('S', 'm'),
        28 => ('S', 'n'),
        29 => ('S', 'p'),
        30 => ('T', 'o'),
        31 => ('T', 'p'),
        32 => ('T', 't'),
        _ => ('Z', 'o'),
    }
}

/// The substance that a code names: the letters `A` to `P` name the sixteen
/// substances in order, and nothing else names one.
pub fn string_to_substance(substance: &str) -> (r: Option<Substance>)
    ensures
        r == spec_string_to_substance(substance@),
{
    if substance.unicode_len() != 1 {
        assert forall|s: Substance| substance@ != seq![substance_code(s)] by {
            assert(seq![substance_code(s)].len() == 1);
        }
        return None;
    }
    let letter = substance.get_char(0);
    let mut i: u8 = 0;
    while i < 16
        invariant
            i <= 16,
            substance@.len() == 1,
            letter == substance@[0],
            forall|s: Substance| s.spec_index() < i ==> substance_code(s) != letter,
        decreases 16 - i,
    {
        match Substance::from_index(i) {
            Some(candidate) => {
                if substance_letter(candidate) == letter {
                    proof {
                        assert(substance@ == seq![substance_code(candidate)]);
                        lemma_substance_of_code(candidate);
                    }
                    return Some(candidate);
                }
                assert forall|s: Substance| s.spec_index() < i + 1 implies substance_code(s)
                    != letter by {
                    if s.spec_index() == i {
                        super::lemma_substance_index_round_trip(s);
                    }
                }
            },
            None => {},
        }
        i += 1;
    }
    assert forall|s: Substance| substance@ != seq![substance_code(s)] by {
        assert(seq![substance_code(s)][0] == substance_code(s));
    }
    None
}

/// The effect that a code names, as the set with that one effect; `None`
/// where the code names none.
pub fn string_to_effect(s: &str) -> (r: Option<Effects>)
    ensures
        r is Some <==> spec_string_to_effect(s@) is Some,
        r matches Some(e) ==> Some(e@) == spec_string_to_effect(s@),
{
    if s.unicode_len() != 2 {
        assert forall|i: u8| s@ != seq![effect_code(i).0, effect_code(i).1] by {
            assert(seq![effect_code(i).0, effect_code(i).1].len() == 2);
        }
        return None;
    }
    let first = s.get_char(0);
    let second = s.get_char(1);
    let mut i: u8 = 0;
    while i < NUM_EFFECTS
        invariant
            i <= NUM_EFFECTS,
            s@.len() == 2,
            first == s@[0],
            second == s@[1],
            forall|j: u8| j < i ==> effect_code(j) != (first, second),
        decreases NUM_EFFECTS - i,
    {
        let letters = effect_letters(i);
        if letters.0 == first && letters.1 == second {
            proof {
                assert(s@ == seq![effect_code(i).0, effect_code(i).1]);
                lemma_effect_of_code(i);
                lemma_single_inside(i);
            }
            return Some(Effects::from_mask(1u64 << i));
        }
        i += 1;
    }
    assert forall|j: u8| j < NUM_EFFECTS implies s@ != seq![effect_code(j).0, effect_code(j).1] by {
        let text = seq![effect_code(j).0, effect_code(j).1];
        assert(text[0] == effect_code(j).0 && text[1] == effect_code(j).1);
    }
    None
}

/// Mask of the set that a list of effect codes spells; `None` where a code
/// names no effect.
pub open spec fn codes_mask(codes: Seq<String>) -> Option<u64>
    decreases codes.len(),
{
    if codes.len() == 0 {
        Some(0)
    } else {
        match (codes_mask(codes.drop_last()), spec_string_to_effect(codes.last()@)) {
            (Some(rest), Some(one)) => Some(rest | one),
            _ => None,
        }
    }
}

/// The set that a list of effect codes spells; `None` where a code names no
/// effect.
pub fn parse_effect_list(codes: &Vec<String>) -> (r: Option<Effects>)
    ensures
        r is Some <==> codes_mask(codes@) is Some,
        r matches Some(e) ==> Some(e@) == codes_mask(codes@),
{
    let mut all = Effects::empty();
    let mut i: usize = 0;
    while i < codes.len()
        invariant
            i <= codes.len(),
            codes_mask(codes@.subrange(0, i as int)) == Some(all@),
        decreases codes.len() - i,
    {
        proof {
            assert(codes@.subrange(0, i + 1).drop_last() == codes@.subrange(0, i as int));
        }
        match string_to_effect(codes[i].as_str()) {
            Some(one) => {
                all = all.union(one);
            },
            None => {
                proof {
                    lemma_codes_mask_prefix(codes@, i + 1);
                }
                return None;
            },
        }
        i += 1;
    }
    proof {
        assert(codes@.subrange(0, i as int) == codes@);
    }
    Some(all)
}

/// A list of codes with a bad start is bad.
pub proof fn lemma_codes_mask_prefix(codes: Seq<String>, n: int)
    requires
        0 <= n <= codes.len(),
        codes_mask(codes.subrange(0, n)) is None,
    ensures
        codes_mask(codes) is None,
    decreases codes.len() - n,
{
    if n < codes.len() {
        assert(codes.subrange(0, n + 1).drop_last() == codes.subrange(0, n));
        lemma_codes_mask_prefix(codes, n + 1);
    } else {
        assert(codes.subrange(0, n) == codes);
    }
}

/// One rule as the configuration spells it: lists of effect codes, the code of
/// the substance the rule belongs to, and the pairs of an effect that goes and
/// the effect that comes in its place.
pub struct RuleSource {
    pub if_present: Vec<String>,
    pub if_not_present: Vec<String>,
    pub requires_substance: String,
    pub replace: Vec<(String, String)>,
}

/// The inherent effects of one substance as the configuration spells them.
pub struct EffectSource {
    pub substance: String,
    pub effect: Vec<String>,
}

/// The first code of the list that names no effect, if there is one.
pub open spec fn first_unknown(codes: Seq<String>) -> Option<String>
    decreases codes.len(),
{
    if codes.len() == 0 {
        None
    } else {
        match first_unknown(codes.drop_last()) {
            Some(code) => Some(code),
            None => if spec_string_to_effect(codes.last()@) is None {
                Some(codes.last())
            } else {
                None
            },
        }
    }
}

/// A list of codes spells a set where none of its codes is unknown, and only
/// there.
pub proof fn lemma_first_unknown(codes: Seq<String>)
    ensures
        first_unknown(codes) is None <==> codes_mask(codes) is Some,
    decreases codes.len(),
{
    if codes.len() > 0 {
        lemma_first_unknown(codes.drop_last());
    }
}

/// The first unknown code of a start of the list is the first of the list.
pub proof fn lemma_first_unknown_prefix(codes: Seq<String>, n: int)
    requires
        0 <= n <= codes.len(),
        first_unknown(codes.subrange(0, n)) is Some,
    ensures
        first_unknown(codes) == first_unknown(codes.subrange(0, n)),
    decreases codes.len() - n,
{
    if n < codes.len() {
        assert(codes.subrange(0, n + 1).drop_last() == codes.subrange(0, n));
        lemma_first_unknown_prefix(codes, n + 1);
    } else {
        assert(codes.subrange(0, n) == codes);
    }
}

/// The first code of the list that names no effect, if there is one.
pub fn unknown_code(codes: &Vec<String>) -> (r: Option<String>)
    ensures
        r == first_unknown(codes@),
{
    let mut i: usize = 0;
    while i < codes.len()
        invariant
            i <= codes.len(),
            first_unknown(codes@.subrange(0, i as int)) is None,
        decreases codes.len() - i,
    {
        proof {
            assert(codes@.subrange(0, i + 1).drop_last() == codes@.subrange(0, i as int));
            assert(codes@.subrange(0, i + 1).last() == codes@[i as int]);
        }
        if string_to_effect(codes[i].as_str()).is_none() {
            proof {
                lemma_first_unknown_prefix(codes@, i + 1);
            }
            return Some(codes[i].clone());
        }
        i += 1;
    }
    proof {
        assert(codes@.subrange(0, i as int) == codes@);
    }
    None
}

/// The first code of a list of replacement pairs that names no effect, if
/// there is one: of a pair the effect that goes is read first.
pub open spec fn first_unknown_pair(pairs: Seq<(String, String)>) -> Option<String>
    decreases pairs.len(),
{
    if pairs.len() == 0 {
        None
    } else {
        match first_unknown_pair(pairs.drop_last()) {
            Some(code) => Some(code),
            None => if spec_string_to_effect(pairs.last().0@) is None {
                Some(pairs.last().0)
            } else if spec_string_to_effect(pairs.last().1@) is None {
                Some(pairs.last().1)
            } else {
                None
            },
        }
    }
}

/// A list of pairs spells two sets where none of its codes is unknown, and
/// only there.
pub proof fn lemma_first_unknown_pair(pairs: Seq<(String, String)>)
    ensures
        first_unknown_pair(pairs) is None <==> pairs_mask(pairs) is Some,
    decreases pairs.len(),
{
    if pairs.len() > 0 {
        lemma_first_unknown_pair(pairs.drop_last());
    }
}

/// The first unknown code of a start of the list of pairs is the first of
/// the list.
pub proof fn lemma_first_unknown_pair_prefix(pairs: Seq<(String, String)>, n: int)
    requires
        0 <= n <= pairs.len(),
        first_unknown_pair(pairs.subrange(0, n)) is Some,
    ensures
        first_unknown_pair(pairs) == first_unknown_pair(pairs.subrange(0, n)),
    decreases pairs.len() - n,
{
    if n < pairs.len() {
        assert(pairs.subrange(0, n + 1).drop_last() == pairs.subrange(0, n));
        lemma_first_unknown_pair_prefix(pairs, n + 1);
    } else {
        assert(pairs.subrange(0, n) == pairs);
    }
}

/// The first code of a list of replacement pairs that names no effect, if
/// there is one.
pub fn unknown_pair_code(pairs: &Vec<(String, String)>) -> (r: Option<String>)
    ensures
        r == first_unknown_pair(pairs@),
{
    let mut i: usize = 0;
    while i < pairs.len()
        invariant
            i <= pairs.len(),
            first_unknown_pair(pairs@.subrange(0, i as int)) is None,
        decreases pairs.len() - i,
    {
        proof {
            assert(pairs@.subrange(0, i + 1).drop_last() == pairs@.subrange(0, i as int));
            assert(pairs@.subrange(0, i + 1).last() == pairs@[i as int]);
        }
        if string_to_effect(pairs[i].0.as_str()).is_none() {
            proof {
                lemma_first_unknown_pair_prefix(pairs@, i + 1);
            }
            return Some(pairs[i].0.clone());
        }
        if string_to_effect(pairs[i].1.as_str()).is_none() {
            proof {
                lemma_first_unknown_pair_prefix(pairs@, i + 1);
            }
            return Some(pairs[i].1.clone());
        }
        i += 1;
    }
    proof {
        assert(pairs@.subrange(0, i as int) == pairs@);
    }
    None
}

/// Masks of the effects that go and of the effects that come, for a list of
/// replacement pairs; `None` where a code names no effect.
pub open spec fn pairs_mask(pairs: Seq<(String, String)>) -> Option<(u64, u64)>
    decreases pairs.len(),
{
    if pairs.len() == 0 {
        Some((0, 0))
    } else {
        match (
            pairs_mask(pairs.drop_last()),
            spec_string_to_effect(pairs.last().0@),
            spec_string_to_effect(pairs.last().1@),
        ) {
            (Some(rest), Some(from), Some(to)) => Some((rest.0 | from, rest.1 | to)),
            _ => None,
        }
    }
}

/// A list of pairs with a bad start is bad.
pub proof fn lemma_pairs_mask_prefix(pairs: Seq<(String, String)>, n: int)
    requires
        0 <= n <= pairs.len(),
        pairs_mask(pairs.subrange(0, n)) is None,
    ensures
        pairs_mask(pairs) is None,
    decreases pairs.len() - n,
{
    if n < pairs.len() {
        assert(pairs.subrange(0, n + 1).drop_last() == pairs.subrange(0, n));
        lemma_pairs_mask_prefix(pairs, n + 1);
    } else {
        assert(pairs.subrange(0, n) == pairs);
    }
}

/// The sets of effects that go and that come, for a list of replacement
/// pairs; `None` where a code names no effect.
pub fn parse_replacements(pairs: &Vec<(String, String)>) -> (r: Option<(Effects, Effects)>)
    ensures
        r is Some <==> pairs_mask(pairs@) is Some,
        r matches Some(sets) ==> Some((sets.0@, sets.1@)) == pairs_mask(pairs@),
{
    let mut remove = Effects::empty();
    let mut add = Effects::empty();
    let mut i: usize = 0;
    while i < pairs.len()
        invariant
            i <= pairs.len(),
            pairs_mask(pairs@.subrange(0, i as int)) == Some((remove@, add@)),
        decreases pairs.len() - i,
    {
        proof {
            assert(pairs@.subrange(0, i + 1).drop_last() == pairs@.subrange(0, i as int));
        }
        let from = string_to_effect(pairs[i].0.as_str());
        let to = string_to_effect(pairs[i].1.as_str());
        match (from, to) {
            (Some(from), Some(to)) => {
                remove = remove.union(from);
                add = add.union(to);
            },
            _ => {
                proof {
                    lemma_pairs_mask_prefix(pairs@, i + 1);
                }
                return None;
            },
        }
        i += 1;
    }
    proof {
        assert(pairs@.subrange(0, i as int) == pairs@);
    }
    Some((remove, add))
}

/// The rule that a source spells; `None` where one of its codes names no
/// effect.
pub open spec fn rule_of(src: RuleSource) -> Option<Rule> {
    match (codes_mask(src.if_present@), codes_mask(src.if_not_present@), pairs_mask(src.replace@)) {
        (Some(present), Some(absent), Some(swap)) => Some(
            Rule {
                if_present: Effects::of(present),
                if_not_present: Effects::of(absent),
                remove: Effects::of(swap.0),
                add: Effects::of(swap.1),
            },
        ),
        _ => None,
    }
}

/// The first code of a rule source that names no effect, if there is one:
/// first among the effects that must be there, then among those that must
/// not, then among the replacements.
pub open spec fn unknown_in_rule(src: RuleSource) -> Option<String> {
    match (first_unknown(src.if_present@), first_unknown(src.if_not_present@)) {
        (Some(code), _) => Some(code),
        (None, Some(code)) => Some(code),
        (None, None) => first_unknown_pair(src.replace@),
    }
}

/// What a rule source stands for: nothing, where its substance code names no
/// substance; else its substance and rule, or the error that one of its effect
/// codes names no effect, with the first such code.
pub open spec fn spec_parse_rule(src: RuleSource) -> Result<Option<(Substance, Rule)>, RulesError> {
    match spec_string_to_substance(src.requires_substance@) {
        None => Ok(None),
        Some(substance) => match rule_of(src) {
            Some(rule) => Ok(Some((substance, rule))),
            None => Err(RulesError::UnknownEffect(unknown_in_rule(src)->0)),
        },
    }
}

/// The error of an unknown code of a list of codes that spells no set.
fn unknown_code_error(codes: &Vec<String>) -> (e: RulesError)
    requires
        codes_mask(codes@) is None,
    ensures
        first_unknown(codes@) is Some,
        e == RulesError::UnknownEffect(first_unknown(codes@)->0),
{
    proof {
        lemma_first_unknown(codes@);
    }
    match unknown_code(codes) {
        Some(code) => RulesError::UnknownEffect(code),
        None => vstd::pervasive::unreached(),
    }
}

/// Reads one rule. A rule of an unknown substance is passed over; an unknown
/// effect code in a rule of a known substance is an error.
pub fn parse_rule(src: &RuleSource) -> (r: Result<Option<(Substance, Rule)>, RulesError>)
    ensures
        r == spec_parse_rule(*src),
{
    let substance = match string_to_substance(src.requires_substance.as_str()) {
        Some(substance) => substance,
        None => {
            return Ok(None);
        },
    };
    proof {
        lemma_first_unknown(src.if_present@);
        lemma_first_unknown(src.if_not_present@);
        lemma_first_unknown_pair(src.replace@);
    }
    let if_present = match parse_effect_list(&src.if_present) {
        Some(set) => set,
        None => {
            return Err(unknown_code_error(&src.if_present));
        },
    };
    let if_not_present = match parse_effect_list(&src.if_not_present) {
        Some(set) => set,
        None => {
            return Err(unknown_code_error(&src.if_not_present));
        },
    };
    let (remove, add) = match parse_replacements(&src.replace) {
        Some(sets) => sets,
        None => {
            return match unknown_pair_code(&src.replace) {
                Some(code) => Err(RulesError::UnknownEffect(code)),
                None => vstd::pervasive::unreached(),
            };
        },
    };
    proof {
        Effects::lemma_of_view(if_present@);
        Effects::lemma_of_view(if_not_present@);
        Effects::lemma_of_view(remove@);
        Effects::lemma_of_view(add@);
        if_present.lemma_same_mask(Effects::of(if_present@));
        if_not_present.lemma_same_mask(Effects::of(if_not_present@));
        remove.lemma_same_mask(Effects::of(remove@));
        add.lemma_same_mask(Effects::of(add@));
    }
    Ok(Some((substance, Rule { if_present, if_not_present, remove, add })))
}

/// No rule of a known substance holds an unknown effect code.
pub open spec fn rules_well_spelled(sources: Seq<RuleSource>) -> bool {
    forall|i: int| 0 <= i < sources.len() ==> spec_parse_rule(#[trigger] sources[i]) is Ok
}

/// The rules that the sources declare for a substance, in the order of the
/// sources.
pub open spec fn declared_rules(sources: Seq<RuleSource>, substance: Substance) -> Seq<Rule>
    decreases sources.len(),
{
    if sources.len() == 0 {
        Seq::empty()
    } else {
        let rest = declared_rules(sources.drop_last(), substance);
        match spec_parse_rule(sources.last()) {
            Ok(Some((s, rule))) => if s == substance {
                rest.push(rule)
            } else {
                rest
            },
            _ => rest,
        }
    }
}

/// What is wrong with an entry of the list of inherent effects, if anything.
pub open spec fn entry_error(entry: EffectSource) -> Option<RulesError> {
    if spec_string_to_substance(entry.substance@) is None {
        Some(RulesError::UnknownSubstance)
    } else if codes_mask(entry.effect@) is None {
        Some(RulesError::UnknownEffect(first_unknown(entry.effect@)->0))
    } else {
        None
    }
}

/// `e` is what is wrong with the first entry with which something is wrong.
pub open spec fn first_entry_error(entries: Seq<EffectSource>, e: RulesError) -> bool {
    exists|k: int|
        0 <= k < entries.len() && entry_error(#[trigger] entries[k]) == Some(e) && forall|j: int|
            0 <= j < k ==> entry_error(#[trigger] entries[j]) is None
}

/// Mask of the inherent effects that the entries declare for a substance: the
/// last entry for it counts, and without one it has none.
pub open spec fn declared_inherent(entries: Seq<EffectSource>, substance: Substance) -> u64
    decreases entries.len(),
{
    if entries.len() == 0 {
        0
    } else if spec_string_to_substance(entries.last().substance@) == Some(substance) && codes_mask(
        entries.last().effect@,
    ) is Some {
        codes_mask(entries.last().effect@)->0
    } else {
        declared_inherent(entries.drop_last(), substance)
    }
}

/// `out` holds the rules of `rules` in the order of their turns, in which a
/// rule that is set off by what another rule must not find takes its turn
/// after that rule.
pub open spec fn is_ordering_of(out: Seq<Rule>, rules: Seq<Rule>) -> bool {
    out == arrange(rules, turn_order(rules)) && is_topological(
        turn_order(rules),
        rule_nodes(rules),
        rule_links(rules),
    )
}

/// What is wrong with the first rule that is not well spelled, if there is
/// one.
pub open spec fn first_rule_error(sources: Seq<RuleSource>) -> Option<RulesError>
    decreases sources.len(),
{
    if sources.len() == 0 {
        None
    } else {
        match first_rule_error(sources.drop_last()) {
            Some(e) => Some(e),
            None => match spec_parse_rule(sources.last()) {
                Err(e) => Some(e),
                Ok(_) => None,
            },
        }
    }
}

/// The first bad rule of a start of the list is the first of the list.
pub proof fn lemma_first_rule_error_prefix(sources: Seq<RuleSource>, n: int)
    requires
        0 <= n <= sources.len(),
        first_rule_error(sources.subrange(0, n)) is Some,
    ensures
        first_rule_error(sources) == first_rule_error(sources.subrange(0, n)),
    decreases sources.len() - n,
{
    if n < sources.len() {
        assert(sources.subrange(0, n + 1).drop_last() == sources.subrange(0, n));
        lemma_first_rule_error_prefix(sources, n + 1);
    } else {
        assert(sources.subrange(0, n) == sources);
    }
}

/// The rules are well spelled where none of them is bad, and only there.
pub proof fn lemma_first_rule_error(sources: Seq<RuleSource>)
    ensures
        first_rule_error(sources) is None <==> rules_well_spelled(sources),
    decreases sources.len(),
{
    if sources.len() > 0 {
        let rest = sources.drop_last();
        lemma_first_rule_error(rest);
        if rules_well_spelled(sources) {
            assert forall|i: int| 0 <= i < rest.len() implies spec_parse_rule(#[trigger] rest[i]) is Ok by {
                assert(rest[i] == sources[i]);
            }
            assert(spec_parse_rule(sources[sources.len() - 1]) is Ok);
        }
        if first_rule_error(sources) is None {
            assert forall|i: int| 0 <= i < sources.len() implies spec_parse_rule(
                #[trigger] sources[i],
            ) is Ok by {
                if i < rest.len() {
                    assert(rest[i] == sources[i]);
                }
            }
        }
    }
}

/// What is wrong with the first rule that is not well spelled, if there is
/// one.
pub fn find_rule_error(sources: &Vec<RuleSource>) -> (r: Option<RulesError>)
    ensures
        r == first_rule_error(sources@),
        r is None <==> rules_well_spelled(sources@),
{
    proof {
        lemma_first_rule_error(sources@);
    }
    let mut i: usize = 0;
    while i < sources.len()
        invariant
            i <= sources.len(),
            first_rule_error(sources@.subrange(0, i as int)) is None,
        decreases sources.len() - i,
    {
        proof {
            assert(sources@.subrange(0, i + 1).drop_last() == sources@.subrange(0, i as int));
            assert(sources@.subrange(0, i + 1).last() == sources@[i as int]);
        }
        match parse_rule(&sources[i]) {
            Err(e) => {
                proof {
                    lemma_first_rule_error_prefix(sources@, i + 1);
                }
                return Some(e);
            },
            Ok(_) => {},
        }
        i += 1;
    }
    proof {
        assert(sources@.subrange(0, i as int) == sources@);
    }
    None
}

/// Whether no rule of a known substance holds an unknown effect code.
pub fn check_rules(sources: &Vec<RuleSource>) -> (ok: bool)
    ensures
        ok == rules_well_spelled(sources@),
{
    let mut i: usize = 0;
    while i < sources.len()
        invariant
            i <= sources.len(),
            forall|j: int| 0 <= j < i ==> spec_parse_rule(#[trigger] sources@[j]) is Ok,
        decreases sources.len() - i,
    {
        if parse_rule(&sources[i]).is_err() {
            return false;
        }
        i += 1;
    }
    true
}

/// The rules that the sources declare for a substance, in the order of the
/// sources.
pub fn rules_for(sources: &Vec<RuleSource>, substance: Substance) -> (r: Vec<Rule>)
    ensures
        r@ == declared_rules(sources@, substance),
{
    let mut out: Vec<Rule> = Vec::new();
    let mut i: usize = 0;
    while i < sources.len()
        invariant
            i <= sources.len(),
            out@ == declared_rules(sources@.subrange(0, i as int), substance),
        decreases sources.len() - i,
    {
        proof {
            assert(sources@.subrange(0, i + 1).drop_last() == sources@.subrange(0, i as int));
        }
        match parse_rule(&sources[i]) {
            Ok(Some((s, rule))) => {
                if s == substance {
                    out.push(rule);
                }
            },
            _ => {},
        }
        i += 1;
    }
    proof {
        assert(sources@.subrange(0, i as int) == sources@);
    }
    out
}

/// Builds the rule table from what a configuration spells.
///
/// Fails with `UnknownEffect` and the first unknown code of the first rule of
/// a known substance that holds one; else with `CyclicRules` where the rules of a substance
/// wait for each other in a circle; else with what is wrong with the first bad
/// entry of the inherent effects. Otherwise the table holds, for each
/// substance, its declared rules in an order in which a rule set off by what
/// another rule must not find takes its turn after that rule, and its
/// inherent effects.
#[verifier::loop_isolation(false)]
pub fn build_rules(rules: &Vec<RuleSource>, effects: &Vec<EffectSource>) -> (r: Result<
    MixtureRules,
    RulesError,
>)
    ensures
        !rules_well_spelled(rules@) ==> first_rule_error(rules@) is Some && r == Err::<
            MixtureRules,
            RulesError,
        >(first_rule_error(rules@)->0),
        rules_well_spelled(rules@) && (exists|s: Substance|
            has_cycle(rule_links(declared_rules(rules@, s)))) ==> r == Err::<
            MixtureRules,
            RulesError,
        >(RulesError::CyclicRules),
        forall|e: RulesError|
            rules_well_spelled(rules@) && (forall|s: Substance|
                !has_cycle(rule_links(declared_rules(rules@, s)))) && first_entry_error(effects@, e)
                ==> r == Err::<MixtureRules, RulesError>(e),
        rules_well_spelled(rules@) && (forall|s: Substance|
            !has_cycle(rule_links(declared_rules(rules@, s)))) && (forall|k: int|
            0 <= k < effects.len() ==> entry_error(#[trigger] effects@[k]) is None) ==> r is Ok,
        r matches Ok(m) ==> forall|s: Substance|
            #![trigger m.rules_of(s)]
            #![trigger m.inherent_of(s)]
            is_ordering_of(m.rules_of(s), declared_rules(rules@, s)) && m.inherent_of(s)
                == declared_inherent(effects@, s),
{
    match find_rule_error(rules) {
        Some(e) => {
            return Err(e);
        },
        None => {},
    }
    let mut table: Vec<Vec<Rule>> = Vec::new();
    let mut i: u8 = 0;
    while i < 16
        invariant
            i <= 16,
            table.len() == i,
            forall|s: Substance|
                #![trigger s.spec_index()]
                s.spec_index() < i ==> !has_cycle(rule_links(declared_rules(rules@, s)))
                    && is_ordering_of(table[s.spec_index() as int]@, declared_rules(rules@, s)),
        decreases 16 - i,
    {
        let substance = match Substance::from_index(i) {
            Some(substance) => substance,
            None => {
                assert(false);
                return Err(RulesError::CyclicRules);
            },
        };
        let declared = rules_for(rules, substance);
        let ghost before = table@;
        match order_rules(&declared) {
            Ok(ordered) => {
                table.push(ordered);
            },
            Err(e) => {
                return Err(RulesError::CyclicRules);
            },
        }
        proof {
            assert forall|s: Substance| #![trigger s.spec_index()] s.spec_index() < i + 1 implies !has_cycle(
                rule_links(declared_rules(rules@, s)),
            ) && is_ordering_of(table[s.spec_index() as int]@, declared_rules(rules@, s)) by {
                if s.spec_index() == i {
                    super::lemma_substance_index_round_trip(s);
                    assert(s == substance);
                    assert(is_ordering_of(table[i as int]@, declared@));
                } else {
                    assert(table[s.spec_index() as int] == before[s.spec_index() as int]);
                }
            }
        }
        i += 1;
    }
    proof {
        assert forall|s: Substance| !has_cycle(rule_links(declared_rules(rules@, s))) by {
            super::lemma_substance_index_round_trip(s);
        }
    }
    let mut inherent: Vec<Effects> = Vec::new();
    let mut i: u8 = 0;
    while i < 16
        invariant
            i <= 16,
            inherent.len() == i,
            forall|j: int| 0 <= j < i ==> (#[trigger] inherent[j])@ == 0,
        decreases 16 - i,
    {
        inherent.push(Effects::empty());
        i += 1;
    }
    let mut k: usize = 0;
    while k < effects.len()
        invariant
            k <= effects.len(),
            inherent.len() == 16,
            forall|j: int| 0 <= j < k ==> entry_error(#[trigger] effects@[j]) is None,
            forall|s: Substance|
                (#[trigger] inherent[s.spec_index() as int])@ == declared_inherent(
                    effects@.subrange(0, k as int),
                    s,
                ),
        decreases effects.len() - k,
    {
        proof {
            assert(effects@.subrange(0, k + 1).drop_last() == effects@.subrange(0, k as int));
            assert(effects@.subrange(0, k + 1).last() == effects@[k as int]);
        }
        let substance = match string_to_substance(effects[k].substance.as_str()) {
            Some(substance) => substance,
            None => {
                proof {
                    lemma_first_error_unique(effects@, k as int);
                }
                return Err(RulesError::UnknownSubstance);
            },
        };
        let set = match parse_effect_list(&effects[k].effect) {
            Some(set) => set,
            None => {
                proof {
                    lemma_first_error_unique(effects@, k as int);
                }
                return Err(unknown_code_error(&effects[k].effect));
            },
        };
        let ghost before = inherent@;
        inherent.set(substance.index() as usize, set);
        proof {
            assert forall|s: Substance|
                (#[trigger] inherent[s.spec_index() as int])@ == declared_inherent(
                    effects@.subrange(0, k + 1),
                    s,
                ) by {
                if s != substance {
                    super::lemma_substance_index_round_trip(s);
                    super::lemma_substance_index_round_trip(substance);
                    assert(inherent[s.spec_index() as int] == before[s.spec_index() as int]);
                }
            }
        }
        k += 1;
    }
    proof {
        assert(effects@.subrange(0, k as int) == effects@);
        assert forall|e: RulesError| !first_entry_error(effects@, e) by {
            if first_entry_error(effects@, e) {
                let j = choose|j: int|
                    0 <= j < effects@.len() && entry_error(#[trigger] effects@[j]) == Some(e);
                assert(entry_error(effects@[j]) is None);
            }
        }
    }
    match MixtureRules::from_parts(table, inherent) {
        Some(m) => {
            proof {
                assert forall|s: Substance|
                    #![trigger m.rules_of(s)]
                    #![trigger m.inherent_of(s)]
                    is_ordering_of(m.rules_of(s), declared_rules(rules@, s)) && m.inherent_of(s)
                        == declared_inherent(effects@, s) by {
                    super::lemma_substance_index_round_trip(s);
                    assert(is_ordering_of(
                        table[s.spec_index() as int]@,
                        declared_rules(rules@, s),
                    ));
                    assert(inherent[s.spec_index() as int]@ == declared_inherent(effects@, s));
                }
            }
            Ok(m)
        },
        None => {
            assert(false);
            Err(RulesError::CyclicRules)
        },
    }
}

/// Where entry `k` is the first bad one, the first error is its error and no
/// other.
proof fn lemma_first_error_unique(entries: Seq<EffectSource>, k: int)
    requires
        0 <= k < entries.len(),
        entry_error(entries[k]) is Some,
        forall|j: int| 0 <= j < k ==> entry_error(#[trigger] entries[j]) is None,
    ensures
        forall|e: RulesError| first_entry_error(entries, e) <==> Some(e) == entry_error(entries[k]),
        exists|j: int| 0 <= j < entries.len() && entry_error(#[trigger] entries[j]) is Some,
{
    assert forall|e: RulesError| first_entry_error(entries, e) implies Some(e) == entry_error(
        entries[k],
    ) by {
        let j = choose|j: int|
            0 <= j < entries.len() && entry_error(#[trigger] entries[j]) == Some(e) && forall|i: int|
                0 <= i < j ==> entry_error(#[trigger] entries[i]) is None;
        if j < k {
            assert(entry_error(entries[j]) is None);
        }
        if k < j {
            assert(entry_error(entries[k]) is None);
        }
    }
}

} // verus!
