use schedule1::mixing::{Drugs, Effects, MixtureRules, Rule, Substance, NUM_SUBSTANCES};
use schedule1::packing::PackedValues;
use schedule1::search::pareto::{compare, order_items, DominationResult, ParetoItem};
use schedule1::search::pareto_db::plan_add;
use schedule1::search::{
    apply_substance, depth_first_search_pareto, ParetoSearchFront, SearchQueueItem,
};
use std::cmp::Ordering;
use std::collections::HashMap;

fn set(bits: u64) -> Effects {
    Effects::from_bits(bits).unwrap()
}

fn rules() -> MixtureRules {
    let rule = Rule {
        if_present: set(0b001),
        if_not_present: set(0b100),
        remove: set(0b001),
        add: set(0b100),
    };
    let mut table: Vec<Vec<Rule>> = vec![Vec::new(); NUM_SUBSTANCES];
    table[Substance::Donut.index() as usize] = vec![rule];
    let mut inherent = vec![Effects::empty(); NUM_SUBSTANCES];
    inherent[Substance::Cuke.index() as usize] = set(0b001);
    inherent[Substance::Banana.index() as usize] = set(0b010);
    MixtureRules::from_parts(table, inherent).unwrap()
}

fn item(substances: &[Substance], effects: u64) -> SearchQueueItem {
    let mut packed = PackedValues::<Substance, 4>::new();
    for s in substances {
        packed.push(*s).unwrap();
    }
    SearchQueueItem { drug: Drugs::Meth, substances: packed, effects: set(effects) }
}

#[test]
fn cost_and_length_of_a_recipe() {
    let recipe = item(&[Substance::Cuke, Substance::Addy, Substance::Battery], 0);
    assert_eq!(recipe.cost(), 2 + 9 + 8);
    assert_eq!(recipe.num_mixins(), 3);
    assert_eq!(item(&[], 0).cost(), 0);
    assert_eq!(item(&[], 0).num_mixins(), 0);
}

#[test]
fn a_substance_that_changes_nothing_is_not_applied() {
    let rules = rules();
    assert_eq!(apply_substance(set(0), Substance::Cuke, &rules), Some(set(0b001)));
    assert_eq!(apply_substance(set(0b001), Substance::Cuke, &rules), None);
    assert_eq!(apply_substance(set(0b001), Substance::Donut, &rules), Some(set(0b100)));
    assert_eq!(apply_substance(set(0), Substance::Addy, &rules), None);
}

#[test]
fn search_front_keeps_what_is_not_beaten() {
    let mut front = ParetoSearchFront::new();
    assert!(front.is_empty());
    assert!(front.add(item(&[Substance::Addy], 1)));
    // dearer and longer
    assert!(!front.add(item(&[Substance::Addy, Substance::Cuke], 1)));
    // cheaper and as long: takes the place of the first
    assert!(front.add(item(&[Substance::Cuke], 1)));
    assert_eq!(front.len(), 1);
    assert_eq!(front.get_all()[0].objective1, 2);
    assert_eq!(front.get_all()[0].objective2, 1);
    assert_eq!(ParetoSearchFront::default().len(), 0);
}

#[test]
fn depth_first_search_fills_the_fronts() {
    let rules = rules();
    let mut fronts: HashMap<u64, ParetoSearchFront> = HashMap::new();
    depth_first_search_pareto(&rules, item(&[], 0), 2, &mut fronts);
    let mut keys: Vec<u64> = fronts.keys().copied().collect();
    keys.sort();
    // cuke; banana; cuke then donut; cuke and banana in either order
    assert_eq!(keys, vec![0b001, 0b010, 0b011, 0b100]);
    for (key, front) in &fronts {
        assert!(!front.is_empty());
        for entry in front.get_all() {
            assert_eq!(entry.data.effects.bits(), *key);
            assert_eq!(entry.objective1, entry.data.cost());
            assert_eq!(entry.objective2, entry.data.num_mixins());
            assert!(entry.objective2 <= 2);
            // the recipe makes the effects
            let mut effects = Effects::empty();
            for s in entry.data.substances.to_vec() {
                effects = rules.apply(s, effects);
            }
            assert_eq!(effects, entry.data.effects);
        }
    }
    assert_eq!(fronts[&0b100].get_all()[0].data.substances.to_vec(), vec![Substance::Cuke, Substance::Donut]);
    assert_eq!(fronts[&0b011].len(), 1);
    assert_eq!(fronts[&0b011].get_all()[0].objective1, 4);
}

#[test]
fn depth_first_search_stops_at_the_depth() {
    let rules = rules();
    let mut fronts: HashMap<u64, ParetoSearchFront> = HashMap::new();
    depth_first_search_pareto(&rules, item(&[], 0), 0, &mut fronts);
    assert!(fronts.is_empty());
    depth_first_search_pareto(&rules, item(&[], 0), 1, &mut fronts);
    let mut keys: Vec<u64> = fronts.keys().copied().collect();
    keys.sort();
    assert_eq!(keys, vec![0b001, 0b010]);
}

/// Whether the front of `effects` holds a recipe that costs no more than
/// `cost` and has no more than `length` substances.
fn holds_as_good(
    fronts: &HashMap<u64, ParetoSearchFront>,
    effects: Effects,
    cost: i64,
    length: usize,
) -> bool {
    match fronts.get(&effects.bits()) {
        Some(front) => front
            .get_all()
            .iter()
            .any(|entry| entry.objective1 <= cost && entry.objective2 <= length),
        None => false,
    }
}

#[test]
fn depth_first_search_accounts_for_every_recipe() {
    let rules = rules();
    let mut fronts: HashMap<u64, ParetoSearchFront> = HashMap::new();
    depth_first_search_pareto(&rules, item(&[], 0), 3, &mut fronts);
    let mut recipes: u32 = 0;
    for a in 0..16u8 {
        let first = Substance::from_index(a).unwrap();
        let Some(one) = apply_substance(Effects::empty(), first, &rules) else { continue };
        let one_cost = item(&[first], 0).cost();
        assert!(holds_as_good(&fronts, one, one_cost, 1));
        recipes += 1;
        for b in 0..16u8 {
            let second = Substance::from_index(b).unwrap();
            let Some(two) = apply_substance(one, second, &rules) else { continue };
            let two_cost = item(&[first, second], 0).cost();
            assert!(holds_as_good(&fronts, two, two_cost, 2));
            recipes += 1;
            for c in 0..16u8 {
                let third = Substance::from_index(c).unwrap();
                let Some(three) = apply_substance(two, third, &rules) else { continue };
                let three_cost = item(&[first, second, third], 0).cost();
                assert!(holds_as_good(&fronts, three, three_cost, 3));
                recipes += 1;
            }
        }
    }
    // cuke, banana; cuke-banana, cuke-donut, banana-cuke; and four of three
    assert_eq!(recipes, 9);
    // nothing beyond a recipe that the given fronts beat
    let mut given: HashMap<u64, ParetoSearchFront> = HashMap::new();
    let mut front = ParetoSearchFront::new();
    assert!(front.add(item(&[], 0b001)));
    given.insert(0b001, front);
    depth_first_search_pareto(&rules, item(&[], 0), 2, &mut given);
    let mut keys: Vec<u64> = given.keys().copied().collect();
    keys.sort();
    assert_eq!(keys, vec![0b001, 0b010, 0b011]);
    assert_eq!(given[&0b001].len(), 1);
    assert_eq!(given[&0b001].get_all()[0].objective2, 0);
}

#[test]
fn pairs_of_objectives_compare() {
    assert_eq!(compare(1, 1, 2, 2), DominationResult::FirstDominates);
    assert_eq!(compare(1, 2, 1, 2), DominationResult::Equal);
    assert_eq!(compare(3, 2, 1, 2), DominationResult::SecondDominates);
    assert_eq!(compare(1, 3, 2, 2), DominationResult::NonDominated);
    assert_eq!(
        ParetoItem::<(), i64, usize>::compare_raw(5, 1, 5, 2),
        DominationResult::FirstDominates
    );
    let a = ParetoItem::new((), 1, 5);
    let b = ParetoItem::new((), 1, 6);
    let c = ParetoItem::new((), 2, 0);
    assert_eq!(order_items(&a, &b), Ordering::Less);
    assert_eq!(order_items(&b, &a), Ordering::Greater);
    assert_eq!(order_items(&a, &a), Ordering::Equal);
    assert_eq!(order_items(&b, &c), Ordering::Less);
}

#[test]
fn stored_recipes_decide_about_a_new_one() {
    let rows = vec![(1, 10u16, 3u8), (2, 7, 4), (3, 12, 2)];
    // as cheap and as short as row 1: no room
    assert_eq!(plan_add(&rows, 10, 3), None);
    // dearer and longer than row 2
    assert_eq!(plan_add(&rows, 8, 5), None);
    // beats rows 1 and 3
    assert_eq!(plan_add(&rows, 9, 2), Some(vec![1, 3]));
    // beats nothing and is not beaten
    assert_eq!(plan_add(&rows, 6, 9), Some(Vec::new()));
    assert_eq!(plan_add(&Vec::new(), 6, 9), Some(Vec::new()));
    // cheaper than everything and as short as the shortest
    assert_eq!(plan_add(&rows, 1, 2), Some(vec![1, 2, 3]));
}
