use schedule1::combinatorial::CombinatorialEncoder;
use schedule1::effect_graph::{EffectGraph, GRAPH_VERSION};
use schedule1::mixing::{Effects, MixtureRules, Rule, Substance, NUM_SUBSTANCES};
use schedule1::mosp::{
    extend, label_nondominated_nonequal, multiobjective_shortest_path, next_candidate_label, Label,
    NICHE,
};
use schedule1::query::{
    find_with_length, lookup, reversed, search_exact, search_inexact, trace_path,
};
use schedule1::flat_storage::FlatStorage;
use schedule1::metadata::{count_backlinks, route_statistics, shortest_label};
use schedule1::ranking::{best_label, rank_profits, ProfitEntry};

fn set(bits: u64) -> Effects {
    Effects::from_bits(bits).unwrap()
}

fn rule(if_present: u64, if_not_present: u64, remove: u64, add: u64) -> Rule {
    Rule {
        if_present: set(if_present),
        if_not_present: set(if_not_present),
        remove: set(remove),
        add: set(add),
    }
}

fn table(rules_of: Vec<(Substance, Vec<Rule>)>, inherent_of: Vec<(Substance, u64)>) -> MixtureRules {
    let mut rules: Vec<Vec<Rule>> = vec![Vec::new(); NUM_SUBSTANCES];
    for (s, r) in rules_of {
        rules[s.index() as usize] = r;
    }
    let mut inherent = vec![Effects::empty(); NUM_SUBSTANCES];
    for (s, e) in inherent_of {
        inherent[s.index() as usize] = set(e);
    }
    MixtureRules::from_parts(rules, inherent).unwrap()
}

fn label(length: u8, cost: u16, previous_substance: Substance, backlink: u32) -> Label {
    Label { length, cost, previous_substance, backlink }
}

/// Cuke adds effect 0, Banana adds effect 1, Donut turns effect 0 into
/// effect 2, all over a universe of three effects.
fn small_rules() -> MixtureRules {
    table(
        vec![(Substance::Donut, vec![rule(0b001, 0b100, 0b001, 0b100)])],
        vec![(Substance::Cuke, 0b001), (Substance::Banana, 0b010)],
    )
}

fn costs() -> Vec<u16> {
    (0..16u8)
        .map(|i| schedule1::mixing::substance_cost(Substance::from_index(i).unwrap()) as u16)
        .collect()
}

fn small_graph() -> EffectGraph<3, 3> {
    EffectGraph::<3, 3>::new(&small_rules(), CombinatorialEncoder::<3, 3>::new()).unwrap()
}

#[test]
fn graph_of_the_small_rules() {
    let g = small_graph();
    assert_eq!(GRAPH_VERSION, 1);
    // 1 + 3 + 3 + 1 sets of three effects
    assert_eq!(g.num_nodes(), 8);
    let empty = g.encode(Effects::empty());
    assert_eq!(empty, 0);
    assert_eq!(g.decode(empty), Some(Effects::empty()));
    let with0 = g.encode(set(0b001));
    let with1 = g.encode(set(0b010));
    let with2 = g.encode(set(0b100));
    let with01 = g.encode(set(0b011));
    assert_eq!(g.successors(empty)[Substance::Cuke.index() as usize], with0);
    assert_eq!(g.successors(empty)[Substance::Banana.index() as usize], with1);
    assert_eq!(g.successors(empty)[Substance::Donut.index() as usize], empty);
    assert_eq!(g.successors(with0)[Substance::Donut.index() as usize], with2);
    assert_eq!(g.successors(with0)[Substance::Banana.index() as usize], with01);
    // what is there does not come twice
    assert_eq!(g.successors(with01)[Substance::Cuke.index() as usize], with01);
    assert_eq!(g.predecessors(empty), &[] as &[u32]);
    assert_eq!(g.predecessors(with0), &[empty]);
    assert_eq!(g.predecessors(with2), &[with0]);
    assert_eq!(
        g.predecessors_with_substances(with01),
        vec![(with0, Substance::Banana), (with1, Substance::Cuke)]
    );
    assert_eq!(g.encoder().maximum_index(), 8);
    assert_eq!(g.successor_rows().len(), 8);
    assert_eq!(g.predecessor_rows().len(), 8);
}

#[test]
fn graph_successors_and_predecessors_fit() {
    let g = small_graph();
    let n = g.num_nodes() as u32;
    for u in 0..n {
        let effects = g.decode(u).unwrap();
        for s in 0..16u8 {
            let substance = Substance::from_index(s).unwrap();
            let w = g.successors(u)[s as usize];
            assert!(w < n);
            assert_eq!(w, g.encode(small_rules().apply(substance, effects)));
            if w != u {
                assert!(g.predecessors(w).contains(&u));
            }
        }
        let preds = g.predecessors(u);
        for (i, v) in preds.iter().enumerate() {
            assert!(*v != u);
            assert!(g.successors(*v).contains(&u));
            assert!(!preds[..i].contains(v));
        }
        for (v, s) in g.predecessors_with_substances(u) {
            let row = g.successors(v);
            let first = row.iter().position(|w| *w == u).unwrap();
            assert_eq!(first, s.index() as usize);
        }
    }
}

#[test]
fn graph_is_refused_where_a_substance_leaves_the_domain() {
    // the inherent effect lies outside a universe of two effects
    let rules = table(vec![], vec![(Substance::Cuke, 0b100)]);
    assert!(EffectGraph::<2, 2>::new(&rules, CombinatorialEncoder::<2, 2>::new()).is_none());
    // a rule that adds a second effect where only one has room
    let grows = table(vec![(Substance::Cuke, vec![rule(0b01, 0, 0, 0b10)])], vec![]);
    assert!(EffectGraph::<2, 1>::new(&grows, CombinatorialEncoder::<2, 1>::new()).is_none());
    assert!(EffectGraph::<2, 2>::new(&grows, CombinatorialEncoder::<2, 2>::new()).is_some());
}

#[test]
fn test_mosp_trivial() {
    // one node: the empty set of a universe without effects
    let rules = table(vec![], vec![]);
    let g = EffectGraph::<0, 0>::new(&rules, CombinatorialEncoder::<0, 0>::new()).unwrap();
    assert_eq!(g.num_nodes(), 1);
    let labels = multiobjective_shortest_path(&g, &costs(), Effects::empty());
    assert_eq!(labels.len(), 1);
    assert_eq!(labels[0].len(), 1);
    assert_eq!(labels[0][0].length, 0);
    assert_eq!(labels[0][0].cost, 0);
    assert_eq!(labels[0][0].backlink(), None);
    assert_eq!(labels[0][0], Label::source());
}

#[test]
fn mosp_leaves_unreachable_nodes_empty() {
    let rules = table(vec![], vec![]);
    let g = EffectGraph::<3, 2>::new(&rules, CombinatorialEncoder::<3, 2>::new()).unwrap();
    let start = set(0b010);
    let labels = multiobjective_shortest_path(&g, &costs(), start);
    let at = g.encode(start) as usize;
    for (u, row) in labels.iter().enumerate() {
        if u == at {
            assert_eq!(row, &vec![Label::source()]);
        } else {
            assert!(row.is_empty());
        }
    }
}

#[test]
fn mosp_on_the_small_graph() {
    let g = small_graph();
    let labels = multiobjective_shortest_path(&g, &costs(), Effects::empty());
    let empty = g.encode(Effects::empty());
    let with0 = g.encode(set(0b001));
    let with1 = g.encode(set(0b010));
    let with2 = g.encode(set(0b100));
    let with01 = g.encode(set(0b011));
    let with12 = g.encode(set(0b110));
    assert_eq!(labels[empty as usize], vec![Label::source()]);
    assert_eq!(labels[with0 as usize], vec![label(1, 2, Substance::Cuke, empty)]);
    assert_eq!(labels[with1 as usize], vec![label(1, 2, Substance::Banana, empty)]);
    assert_eq!(labels[with2 as usize], vec![label(2, 5, Substance::Donut, with0)]);
    // cuke then banana and banana then cuke are equally long and dear
    assert_eq!(labels[with01 as usize].len(), 1);
    assert_eq!(labels[with01 as usize][0].length, 2);
    assert_eq!(labels[with01 as usize][0].cost, 4);
    assert_eq!(labels[with12 as usize].len(), 1);
    assert_eq!(labels[with12 as usize][0].length, 3);
    assert_eq!(labels[with12 as usize][0].cost, 7);
}

/// Two ways from the empty set to effect 1: directly by a dear substance, or
/// in two steps by two cheap ones.
fn two_way_rules() -> MixtureRules {
    table(
        vec![(Substance::Banana, vec![rule(0b01, 0b10, 0b01, 0b10)])],
        vec![(Substance::HorseSemen, 0b10), (Substance::Cuke, 0b01)],
    )
}

#[test]
fn mosp_keeps_the_short_and_the_cheap_way() {
    let g = EffectGraph::<2, 2>::new(&two_way_rules(), CombinatorialEncoder::<2, 2>::new()).unwrap();
    let labels = multiobjective_shortest_path(&g, &costs(), Effects::empty());
    let empty = g.encode(Effects::empty());
    let with0 = g.encode(set(0b01));
    let with1 = g.encode(set(0b10));
    // the second label was offered by node 0b01 while the first was pending,
    // and came back when the node was refilled: its backlink is node 0b01
    assert!(with0 != with1);
    assert_eq!(
        labels[with1 as usize],
        vec![
            label(1, 9, Substance::HorseSemen, empty),
            label(2, 4, Substance::Banana, with0),
        ]
    );
    // no label beats or equals another, and the order is by length
    for row in &labels {
        for (i, a) in row.iter().enumerate() {
            for (j, b) in row.iter().enumerate() {
                if i != j {
                    assert!(!(a.length <= b.length && a.cost <= b.cost));
                }
                if i < j {
                    assert!(a.length < b.length && a.cost > b.cost);
                }
            }
        }
    }
}

#[test]
fn labels_against_existing_labels() {
    let existing = vec![label(1, 9, Substance::Cuke, 0), label(2, 4, Substance::Cuke, 0)];
    // beaten by the first
    assert!(!label_nondominated_nonequal(label(1, 10, Substance::Cuke, 0), &existing));
    // equal to the second
    assert!(!label_nondominated_nonequal(label(2, 4, Substance::Banana, 3), &existing));
    // between the two
    assert!(label_nondominated_nonequal(label(3, 3, Substance::Cuke, 0), &existing));
    // beats an existing label
    assert!(label_nondominated_nonequal(label(1, 8, Substance::Cuke, 0), &existing));
    assert!(label_nondominated_nonequal(label(0, 0, Substance::Cuke, 0), &[]));
}

#[test]
fn labels_are_extended_with_care() {
    let l = label(3, 10, Substance::Cuke, 5);
    assert_eq!(extend(&l, Substance::Addy, 9, 7), Some(label(4, 19, Substance::Addy, 7)));
    let long = label(255, 10, Substance::Cuke, 5);
    assert_eq!(extend(&long, Substance::Addy, 9, 7), None);
    let dear = label(3, 65530, Substance::Cuke, 5);
    assert_eq!(extend(&dear, Substance::Addy, 9, 7), None);
    assert_eq!(extend(&dear, Substance::Addy, 5, 7), Some(label(4, 65535, Substance::Addy, 7)));
}

#[test]
fn labels_and_their_keys() {
    let l = label(2, 7, Substance::Donut, 11);
    assert_eq!(l.to_key(), (2, 7, 3, 11));
    assert_eq!(Label::from_key((2, 7, 3, 11)), Some(l));
    assert_eq!(Label::from_key((2, 7, 16, 11)), None);
    assert_eq!(l.backlink(), Some((11, Substance::Donut)));
    assert_eq!(label(0, 0, Substance::Cuke, NICHE).backlink(), None);
    assert!(label(1, 9, Substance::Cuke, 0).before(&label(2, 0, Substance::Cuke, 0)));
    assert!(label(1, 3, Substance::Cuke, 0).before(&label(1, 4, Substance::Cuke, 0)));
    assert!(label(1, 3, Substance::Cuke, 0).before(&label(1, 3, Substance::Donut, 0)));
    assert!(label(1, 3, Substance::Cuke, 0).before(&label(1, 3, Substance::Cuke, 1)));
    assert!(!label(1, 3, Substance::Cuke, 1).before(&label(1, 3, Substance::Cuke, 1)));
}

#[test]
fn next_candidate_is_the_smallest_offer() {
    // two links lead to node 2, from node 0 and from node 1
    let permanent = vec![
        vec![label(0, 0, Substance::Cuke, NICHE)],
        vec![label(1, 2, Substance::Cuke, 0), label(2, 1, Substance::Cuke, 0)],
        vec![label(1, 9, Substance::HorseSemen, 0)],
    ];
    let preds = vec![(0u32, Substance::HorseSemen), (1u32, Substance::Banana)];
    // from node 0: (1, 9) equals the existing label; from node 1: (2, 4) is new
    assert_eq!(
        next_candidate_label(2, &preds, &costs(), &permanent),
        Some(label(2, 4, Substance::Banana, 1))
    );
    let none: Vec<(u32, Substance)> = Vec::new();
    assert_eq!(next_candidate_label(2, &none, &costs(), &permanent), None);
}

fn flat(labels: Vec<Vec<Label>>) -> FlatStorage<Label> {
    FlatStorage::from(labels)
}

#[test]
fn recipes_behind_labels() {
    let g = small_graph();
    let labels = multiobjective_shortest_path(&g, &costs(), Effects::empty());
    let with2 = g.encode(set(0b100)) as usize;
    let with12 = g.encode(set(0b110));
    let paths = flat(labels.clone());
    assert_eq!(trace_path(labels[0][0], &paths), Some(Vec::new()));
    assert_eq!(
        trace_path(labels[with2][0], &paths),
        Some(vec![Substance::Cuke, Substance::Donut])
    );
    let recipes = lookup(with12, &paths).unwrap();
    assert_eq!(recipes.len(), 1);
    assert_eq!(recipes[0].len(), 3);
    // the recipe leads from the start to the node, at the cost of the label
    let rules = small_rules();
    for (u, row) in labels.iter().enumerate() {
        for l in row {
            let recipe = trace_path(*l, &paths).unwrap();
            assert_eq!(recipe.len(), l.length as usize);
            let cost: i64 = recipe.iter().map(|s| schedule1::mixing::substance_cost(*s)).sum();
            assert_eq!(cost, l.cost as i64);
            let mut effects = Effects::empty();
            for s in &recipe {
                effects = rules.apply(*s, effects);
            }
            assert_eq!(g.encode(effects) as usize, u);
        }
    }
    let encoder = CombinatorialEncoder::<3, 3>::new();
    assert_eq!(
        search_exact(set(0b100), &encoder, &paths),
        Some(vec![vec![Substance::Cuke, Substance::Donut]])
    );
    assert_eq!(
        search_exact(set(0b101), &encoder, &paths),
        Some(vec![vec![Substance::Cuke, Substance::Donut, Substance::Cuke]])
    );
    let nothing = flat(vec![Vec::new(); 8]);
    assert_eq!(search_exact(set(0b101), &encoder, &nothing), Some(Vec::new()));
}

#[test]
fn broken_backlinks_are_found_out() {
    // the backlink leads to a node that does not exist
    let paths = flat(vec![vec![label(1, 2, Substance::Cuke, 9)]]);
    assert_eq!(trace_path(label(1, 2, Substance::Cuke, 9), &paths), None);
    // the node of the backlink has no label one step shorter
    let paths = flat(vec![vec![label(0, 0, Substance::Cuke, NICHE)], vec![]]);
    assert_eq!(trace_path(label(2, 4, Substance::Cuke, 0), &paths), None);
    // a label of length 0 with a backlink
    assert_eq!(trace_path(label(0, 0, Substance::Cuke, 0), &paths), None);
    let broken = flat(vec![vec![label(1, 2, Substance::Cuke, 5)]]);
    assert_eq!(lookup(0, &broken), None);
    assert_eq!(find_with_length(&[label(1, 2, Substance::Cuke, 0)], 1), Some(label(1, 2, Substance::Cuke, 0)));
    assert_eq!(find_with_length(&[label(1, 2, Substance::Cuke, 0)], 0), None);
    assert_eq!(
        reversed(&vec![Substance::Cuke, Substance::Addy, Substance::Donut]),
        vec![Substance::Donut, Substance::Addy, Substance::Cuke]
    );
}

#[test]
fn inexact_search_finds_the_cheapest_and_the_shortest() {
    let g = EffectGraph::<2, 2>::new(&two_way_rules(), CombinatorialEncoder::<2, 2>::new()).unwrap();
    let labels = multiobjective_shortest_path(&g, &costs(), Effects::empty());
    let paths = flat(labels);
    let encoder = CombinatorialEncoder::<2, 2>::new();
    let with0 = g.encode(set(0b01));
    let with1 = g.encode(set(0b10)) as usize;
    let (cheapest, shortest) = search_inexact(set(0b10), &encoder, &paths).unwrap();
    assert_eq!(cheapest, (with1, label(2, 4, Substance::Banana, with0)));
    assert_eq!(shortest, (with1, label(1, 9, Substance::HorseSemen, 0)));
    // every set holds the empty set: the start is cheapest and shortest
    let (cheapest, shortest) = search_inexact(Effects::empty(), &encoder, &paths).unwrap();
    assert_eq!(cheapest, (0, Label::source()));
    assert_eq!(shortest, (0, Label::source()));
    // only the full set holds both effects
    let both = g.encode(set(0b11)) as usize;
    let (cheapest, shortest) = search_inexact(set(0b11), &encoder, &paths).unwrap();
    assert_eq!(cheapest.0, both);
    assert_eq!((cheapest.1.length, cheapest.1.cost), (3, 6));
    assert_eq!(shortest.0, both);
    assert_eq!((shortest.1.length, shortest.1.cost), (2, 11));
    // nothing is found where no node has a label
    let nothing = flat(vec![Vec::new(); 4]);
    assert_eq!(search_inexact(Effects::empty(), &encoder, &nothing), None);
}

#[test]
fn profits_are_ranked_from_the_highest_down() {
    let paths = flat(vec![
        vec![label(0, 0, Substance::Cuke, NICHE)],
        vec![label(1, 9, Substance::HorseSemen, 0), label(2, 4, Substance::Banana, 2)],
        vec![label(1, 2, Substance::Cuke, 0)],
        vec![],
    ]);
    let prices = [35u16, 60, 50, 99];
    let all = rank_profits(&paths, &prices, 255, 10);
    assert_eq!(
        all,
        vec![
            ProfitEntry { profit: 56, sell_price: 60, index: 1, label: label(2, 4, Substance::Banana, 2) },
            ProfitEntry { profit: 48, sell_price: 50, index: 2, label: label(1, 2, Substance::Cuke, 0) },
            ProfitEntry { profit: 35, sell_price: 35, index: 0, label: label(0, 0, Substance::Cuke, NICHE) },
        ]
    );
    // only the best two
    let two = rank_profits(&paths, &prices, 255, 2);
    assert_eq!(two, all[..2].to_vec());
    // with at most one substance the dear short recipe counts at node 1
    let short = rank_profits(&paths, &prices, 1, 1);
    assert_eq!(
        short,
        vec![ProfitEntry { profit: 51, sell_price: 60, index: 1, label: label(1, 9, Substance::HorseSemen, 0) }]
    );
    assert_eq!(rank_profits(&paths, &prices, 255, 0), Vec::new());
    assert_eq!(best_label(&[label(3, 1, Substance::Cuke, 0)], 2), None);
    // of two equally cheap recipes the first counts
    assert_eq!(
        best_label(&[label(1, 5, Substance::Cuke, 0), label(2, 5, Substance::Addy, 0)], 2),
        Some(label(1, 5, Substance::Cuke, 0))
    );
}

#[test]
fn profits_with_equal_profit_are_ranked_by_price_then_node() {
    let paths = flat(vec![
        vec![label(0, 0, Substance::Cuke, NICHE)],
        vec![label(1, 10, Substance::Cuke, 0)],
        vec![label(1, 0, Substance::Cuke, 0)],
    ]);
    let prices = [40u16, 50, 40];
    let ranked = rank_profits(&paths, &prices, 255, 3);
    let order: Vec<usize> = ranked.iter().map(|e| e.index).collect();
    assert_eq!(order, vec![1, 2, 0]);
    assert!(ranked.iter().all(|e| e.profit == 40));
}

#[test]
fn graph_from_parts_checks_the_links() {
    let g = small_graph();
    let successors = g.successor_rows().clone();
    let values = g.predecessor_rows().values().clone();
    let offsets = g.predecessor_rows().offsets().clone();
    let stored = |values: Vec<u32>, offsets: Vec<u32>| FlatStorage::from_raw(values, offsets).unwrap();
    let encoder = || CombinatorialEncoder::<3, 3>::new();
    let same = EffectGraph::<3, 3>::from_parts(
        successors.clone(),
        stored(values.clone(), offsets.clone()),
        encoder(),
    )
    .unwrap();
    assert_eq!(same.num_nodes(), 8);
    assert_eq!(same.successors(1), g.successors(1));
    assert_eq!(same.predecessors(4), g.predecessors(4));
    // a successor that is no node
    let mut bad = successors.clone();
    bad[0][0] = 8;
    assert!(EffectGraph::<3, 3>::from_parts(bad, stored(values.clone(), offsets.clone()), encoder()).is_none());
    // an edge that is not recorded
    let mut bad = successors.clone();
    bad[0][15] = 7;
    assert!(EffectGraph::<3, 3>::from_parts(bad, stored(values.clone(), offsets.clone()), encoder()).is_none());
    // a predecessor that does not lead to the node
    let mut bad = values.clone();
    bad[0] = 7;
    assert!(EffectGraph::<3, 3>::from_parts(successors.clone(), stored(bad, offsets.clone()), encoder()).is_none());
    // too few nodes
    let mut short = successors.clone();
    short.pop();
    assert!(EffectGraph::<3, 3>::from_parts(short, stored(values.clone(), offsets.clone()), encoder()).is_none());
    // a predecessor twice
    let mut twice_values = values.clone();
    let mut twice_offsets = offsets.clone();
    let first = twice_values[0];
    twice_values.insert(0, first);
    for o in twice_offsets.iter_mut().skip(2) {
        *o += 1;
    }
    if offsets[1] == 0 && offsets[2] > 0 {
        assert!(EffectGraph::<3, 3>::from_parts(
            successors.clone(),
            stored(twice_values, twice_offsets),
            encoder()
        )
        .is_none());
    }
}

/// Every walk of up to `depth` steps from the start is beaten or equalled by a
/// label of the node it ends at.
fn walks_are_covered<const N: u8, const K: u8>(
    g: &EffectGraph<N, K>,
    labels: &Vec<Vec<Label>>,
    node: u32,
    length: u8,
    cost: u16,
    depth: u8,
) {
    assert!(labels[node as usize]
        .iter()
        .any(|l| l.length <= length && l.cost <= cost));
    if depth == 0 {
        return;
    }
    let row = *g.successors(node);
    for s in 0..16usize {
        walks_are_covered(g, labels, row[s], length + 1, cost + costs()[s], depth - 1);
    }
}

#[test]
fn labels_beat_or_equal_the_walks() {
    let g = small_graph();
    let labels = multiobjective_shortest_path(&g, &costs(), Effects::empty());
    walks_are_covered(&g, &labels, g.encode(Effects::empty()), 0, 0, 4);
    let g = EffectGraph::<2, 2>::new(&two_way_rules(), CombinatorialEncoder::<2, 2>::new()).unwrap();
    let labels = multiobjective_shortest_path(&g, &costs(), Effects::empty());
    walks_are_covered(&g, &labels, g.encode(Effects::empty()), 0, 0, 4);
}

#[test]
fn a_refilled_node_takes_every_link_of_a_predecessor() {
    // Three nodes. From node 0, substance 0 leads to node 1 and substance 1
    // to node 2; from node 1, substances 2 and 3 both lead to node 2.
    let mut successors = vec![[0u32; 16], [1u32; 16], [2u32; 16]];
    successors[0][0] = 1;
    successors[0][1] = 2;
    successors[1][2] = 2;
    successors[1][3] = 2;
    let predecessors = FlatStorage::from(vec![vec![], vec![0u32], vec![0u32, 1]]);
    let g = EffectGraph::<2, 1>::from_parts(successors, predecessors, CombinatorialEncoder::<2, 1>::new())
        .unwrap();
    let mut costs = vec![50u16; 16];
    costs[0] = 5;
    costs[1] = 100;
    costs[2] = 10;
    costs[3] = 1;
    let labels = multiobjective_shortest_path(&g, &costs, Effects::empty());
    assert_eq!(labels[0], vec![Label::source()]);
    assert_eq!(labels[1], vec![label(1, 5, Substance::Cuke, 0)]);
    // the walk by the substances 0 and 3 has length 2 and cost 6: it was
    // offered while a shorter label was pending, and the refill of node 2
    // brought it back, not the dearer walk by the substances 0 and 2
    assert_eq!(
        labels[2],
        vec![
            label(1, 100, Substance::FluMedicine, 0),
            label(2, 6, Substance::Donut, 1),
        ]
    );
    let paths = FlatStorage::from(labels.clone());
    assert_eq!(trace_path(labels[2][1], &paths), Some(vec![Substance::Cuke, Substance::Donut]));
}

/// The substances add effects of a universe of two: `both` adds both at once.
fn adding_rules(both: Substance, first: Substance, second: Substance) -> MixtureRules {
    table(Vec::new(), vec![(both, 0b11), (first, 0b01), (second, 0b10)])
}

fn costs_with(dear: Substance) -> Vec<u16> {
    let mut costs = vec![1u16; 16];
    costs[dear.index() as usize] = 10;
    costs
}

#[test]
fn a_cheap_way_by_later_substances_is_found() {
    let rules = adding_rules(Substance::Cuke, Substance::FluMedicine, Substance::Gasoline);
    let g = EffectGraph::<2, 2>::new(&rules, CombinatorialEncoder::<2, 2>::new()).unwrap();
    let labels = multiobjective_shortest_path(&g, &costs_with(Substance::Cuke), Effects::empty());
    let pairs: Vec<(u8, u16)> = labels[3].iter().map(|l| (l.length, l.cost)).collect();
    assert_eq!(pairs, vec![(1, 10), (2, 2)]);
    assert_eq!(labels[3][0], label(1, 10, Substance::Cuke, 0));
}

/// Every label leads back to the start: its recipe has the label's length
/// and cost and ends at the label's node, and its backlink is the node
/// before the last step.
fn labels_lead_back<const N: u8, const K: u8>(
    g: &EffectGraph<N, K>,
    rules: &MixtureRules,
    costs: &Vec<u16>,
    start: Effects,
    labels: &Vec<Vec<Label>>,
) {
    let paths = FlatStorage::from(labels.clone());
    for (u, row) in labels.iter().enumerate() {
        for l in row {
            let recipe = trace_path(*l, &paths).unwrap();
            assert_eq!(recipe.len(), l.length as usize);
            let cost: u32 = recipe.iter().map(|s| costs[s.index() as usize] as u32).sum();
            assert_eq!(cost, l.cost as u32);
            let mut effects = start;
            for s in &recipe {
                effects = rules.apply(*s, effects);
            }
            assert_eq!(g.encode(effects) as usize, u);
            match l.backlink() {
                None => {
                    assert_eq!(l.length, 0);
                    assert_eq!(l.cost, 0);
                    assert_eq!(u, g.encode(start) as usize);
                },
                Some((v, s)) => {
                    assert_eq!(g.successors(v)[s.index() as usize] as usize, u);
                    assert!(labels[v as usize].iter().any(|p| p.length + 1 == l.length
                        && p.cost + costs[s.index() as usize] == l.cost));
                },
            }
        }
    }
}

#[test]
fn a_recipe_costs_what_its_label_says() {
    let rules = adding_rules(Substance::Gasoline, Substance::Cuke, Substance::FluMedicine);
    let costs = costs_with(Substance::Gasoline);
    let g = EffectGraph::<2, 2>::new(&rules, CombinatorialEncoder::<2, 2>::new()).unwrap();
    let labels = multiobjective_shortest_path(&g, &costs, Effects::empty());
    let paths = FlatStorage::from(labels.clone());
    let two_steps = *labels[3].iter().find(|l| l.length == 2).unwrap();
    assert_eq!(two_steps.cost, 2);
    let recipe = trace_path(two_steps, &paths).unwrap();
    assert!(
        recipe == vec![Substance::Cuke, Substance::FluMedicine]
            || recipe == vec![Substance::FluMedicine, Substance::Cuke]
    );
    let cost: u16 = recipe.iter().map(|s| costs[s.index() as usize]).sum();
    assert_eq!(cost, 2);
    labels_lead_back(&g, &rules, &costs, Effects::empty(), &labels);
}

#[test]
fn every_label_leads_back_to_the_start() {
    let rules = small_rules();
    let g = small_graph();
    let labels = multiobjective_shortest_path(&g, &costs(), Effects::empty());
    labels_lead_back(&g, &rules, &costs(), Effects::empty(), &labels);
    let rules = two_way_rules();
    let g = EffectGraph::<2, 2>::new(&rules, CombinatorialEncoder::<2, 2>::new()).unwrap();
    let labels = multiobjective_shortest_path(&g, &costs(), Effects::empty());
    labels_lead_back(&g, &rules, &costs(), Effects::empty(), &labels);
    let rules = adding_rules(Substance::Cuke, Substance::FluMedicine, Substance::Gasoline);
    let g = EffectGraph::<2, 2>::new(&rules, CombinatorialEncoder::<2, 2>::new()).unwrap();
    let costs = costs_with(Substance::Cuke);
    let labels = multiobjective_shortest_path(&g, &costs, Effects::empty());
    labels_lead_back(&g, &rules, &costs, Effects::empty(), &labels);
    // from another start
    let labels = multiobjective_shortest_path(&g, &costs, set(0b01));
    labels_lead_back(&g, &rules, &costs, set(0b01), &labels);
}

#[test]
fn figures_about_graph_and_routes() {
    let g = small_graph();
    let links: usize = (0..8u32).map(|u| g.predecessors(u).len()).sum();
    assert_eq!(count_backlinks(&g), links);
    assert!(links > 0);

    let paths = flat(vec![
        vec![label(0, 0, Substance::Cuke, NICHE)],
        vec![label(1, 9, Substance::HorseSemen, 0), label(2, 4, Substance::Banana, 2)],
        vec![label(3, 2, Substance::Cuke, 0)],
        vec![],
        vec![label(3, 1, Substance::Cuke, 0)],
        vec![label(9, 9, Substance::Cuke, 0)],
    ]);
    let figures = route_statistics(&paths, 5, 2);
    assert_eq!(figures.total, 5);
    // one node without a label, three with one, one with two
    assert_eq!(figures.counts, vec![1, 3, 1]);
    assert_eq!(figures.lengths.len(), 256);
    assert_eq!(figures.lengths[0], 1);
    assert_eq!(figures.lengths[1], 1);
    assert_eq!(figures.lengths[3], 2);
    assert_eq!(figures.lengths.iter().sum::<usize>(), 4);
    // of the two nodes with a shortest label of length 3 the later ranks higher
    assert_eq!(figures.longest, vec![(3, 4), (3, 2)]);
    let all = route_statistics(&paths, 6, 10);
    assert_eq!(all.total, 6);
    assert_eq!(all.longest, vec![(9, 5), (3, 4), (3, 2), (1, 1), (0, 0)]);
    assert_eq!(route_statistics(&paths, 0, 3).total, 0);
    assert_eq!(route_statistics(&paths, 0, 3).counts, vec![0]);
    assert_eq!(
        shortest_label(&[label(2, 1, Substance::Cuke, 0), label(1, 5, Substance::Addy, 0), label(1, 3, Substance::Cuke, 0)]),
        Some(label(1, 5, Substance::Addy, 0))
    );
    assert_eq!(shortest_label(&[]), None);
    assert_eq!(paths.values_before(2), 3);
}
