use schedule1::search::pareto::{DominationResult, ParetoFront, ParetoItem};

#[test]
fn test_pareto_item_dominates() {
    // Create items with different costs and data lengths
    let item1 = ParetoItem::new((), 10, 3);
    let item2 = ParetoItem::new((), 20, 3);
    let item3 = ParetoItem::new((), 10, 4);
    let item4 = ParetoItem::new((), 5, 2);

    // Test domination logic
    assert_eq!(item1.compare(&item2), DominationResult::FirstDominates); // Lower cost, same length
    assert_eq!(item1.compare(&item3), DominationResult::FirstDominates); // Same cost, shorter length
    assert_eq!(item4.compare(&item1), DominationResult::FirstDominates); // Lower cost, shorter length

    assert_eq!(item2.compare(&item1), DominationResult::SecondDominates); // Lower cost, same length
    assert_eq!(item3.compare(&item1), DominationResult::SecondDominates); // Same cost, shorter length
    assert_eq!(item1.compare(&item4), DominationResult::SecondDominates); // Lower cost, shorter length

    // Test non-domination
    assert_eq!(item2.compare(&item3), DominationResult::NonDominated); // Higher cost, shorter length

    // Test equal items - neither should dominate
    let item5 = ParetoItem::new((), 10, 3);
    assert_eq!(item1.compare(&item5), DominationResult::Equal);
    assert_eq!(item5.compare(&item1), DominationResult::Equal);
}

struct Dummy {
    cost: i64,
    data: &'static [usize],
}

fn k1(d: &Dummy) -> i64 {
    d.cost
}

fn k2(d: &Dummy) -> usize {
    d.data.len()
}

#[test]
fn test_pareto_front_add() {
    let mut front = ParetoFront::new(k1, k2);

    // Adding the first item should always succeed
    assert!(front.add(Dummy {
        cost: 10,
        data: &[1, 2, 3]
    }));
    assert_eq!(front.len(), 1);

    // Adding a dominated item should fail
    assert!(!front.add(Dummy {
        cost: 20,
        data: &[1, 2, 3]
    }));
    assert_eq!(front.len(), 1);

    // Adding a non-dominated item should succeed
    assert!(front.add(Dummy {
        cost: 5,
        data: &[1, 2, 3, 4]
    }));
    assert_eq!(front.len(), 2);

    // Adding a dominating item should remove dominated items
    assert!(front.add(Dummy {
        cost: 4,
        data: &[1, 2]
    }));
    assert_eq!(front.len(), 1);

    // Check the remaining item
    let item = &front.get_all()[0];
    assert_eq!(item.data.cost, 4);
    assert_eq!(item.data.data, &[1, 2]);
}

#[test]
fn test_pareto_front_sort() {
    let mut front = ParetoFront::new(k1, k2);

    // Add items in mixed order
    front.add(Dummy {
        cost: 30,
        data: &[1, 2, 3],
    });
    front.add(Dummy {
        cost: 20,
        data: &[1, 2, 3, 4],
    });
    front.add(Dummy {
        cost: 10,
        data: &[1, 2, 3, 4, 5],
    });

    // Sort the front
    front.sort();

    // Check sorted order
    let items = front.get_all();
    assert_eq!(items[0].data.cost, 10);
    assert_eq!(items[0].data.data.len(), 5);
    assert_eq!(items[1].data.cost, 20);
    assert_eq!(items[1].data.data.len(), 4);
    assert_eq!(items[2].data.cost, 30);
    assert_eq!(items[2].data.data.len(), 3);
}

#[test]
fn test_pareto_front_min_methods() {
    let mut front = ParetoFront::new(k1, k2);

    // Test with empty front
    assert!(front.min_objective_1().is_none());
    assert!(front.min_objective_2().is_none());

    // Add items
    front.add(Dummy {
        cost: 30,
        data: &[1, 2, 3],
    });
    front.add(Dummy {
        cost: 20,
        data: &[1, 2, 3, 4],
    });
    front.add(Dummy {
        cost: 15,
        data: &[1, 2, 3, 4, 5],
    });
    front.add(Dummy {
        cost: 25,
        data: &[1],
    });

    // Test min cost item
    let min_cost = front.min_objective_1().unwrap();
    assert_eq!(min_cost.data.cost, 15);

    // Test min length item
    let min_length = front.min_objective_2().unwrap();
    assert_eq!(min_length.data.data.len(), 1);
}

#[test]
fn test_complex_pareto_front() {
    let mut front = ParetoFront::new(k1, k2);

    // Add a series of items with different trade-offs
    front.add(Dummy {
        cost: 100,
        data: &[1],
    });
    front.add(Dummy {
        cost: 80,
        data: &[1, 2],
    });
    front.add(Dummy {
        cost: 60,
        data: &[1, 2, 3],
    });
    front.add(Dummy {
        cost: 40,
        data: &[1, 2, 3, 4],
    });
    front.add(Dummy {
        cost: 20,
        data: &[1, 2, 3, 4, 5],
    });

    // All should be on the front since none dominates another
    assert_eq!(front.len(), 5);

    // Add an item that dominates some but not all
    front.add(Dummy {
        cost: 70,
        data: &[1, 2],
    });

    // Should remove the item with cost 80 and length 2
    assert_eq!(front.len(), 5);

    // Add a strictly dominating item
    front.add(Dummy {
        cost: 10,
        data: &[],
    });

    // Should remove everything else
    assert_eq!(front.len(), 1);
    assert_eq!(front.get_all()[0].data.cost, 10);
    assert_eq!(front.get_all()[0].data.data.len(), 0);
}

#[test]
fn pareto_front_keeps_exactly_the_items_not_beaten() {
    let mut front = ParetoFront::new(k1, k2);
    front.add(Dummy { cost: 9, data: &[1] });
    front.add(Dummy { cost: 7, data: &[1, 2] });
    front.add(Dummy { cost: 5, data: &[1, 2, 3] });
    // dominates the middle item only
    assert!(front.add(Dummy { cost: 6, data: &[1, 2] }));
    let mut costs: Vec<i64> = front.get_all().iter().map(|i| i.objective1).collect();
    costs.sort();
    assert_eq!(costs, vec![5, 6, 9]);
    // the new item is stored last
    assert_eq!(front.get_all()[2].objective1, 6);
    assert_eq!(front.get_all()[2].objective2, 2);
    // an item with the objectives of a stored one is refused
    assert!(!front.add(Dummy { cost: 5, data: &[4, 5, 6] }));
    assert_eq!(front.len(), 3);
}

#[test]
fn pareto_front_is_an_antichain_after_many_adds() {
    let mut front = ParetoFront::new(k1, k2);
    let lengths: [&'static [usize]; 5] = [&[], &[1], &[1, 2], &[1, 2, 3], &[1, 2, 3, 4]];
    for step in 0..40i64 {
        let cost = (step * 7) % 13;
        let data = lengths[(step as usize * 3) % 5];
        front.add(Dummy { cost, data });
        let items = front.get_all();
        for (i, a) in items.iter().enumerate() {
            for (j, b) in items.iter().enumerate() {
                if i != j {
                    assert_eq!(a.compare(b), DominationResult::NonDominated);
                }
            }
        }
    }
}

#[test]
fn sort_orders_by_first_then_second_objective() {
    let mut front = ParetoFront::new(k1, k2);
    front.add(Dummy { cost: 3, data: &[1, 2, 3] });
    front.add(Dummy { cost: 1, data: &[1, 2, 3, 4, 5] });
    front.add(Dummy { cost: 2, data: &[1, 2, 3, 4] });
    front.sort();
    let costs: Vec<i64> = front.get_all().iter().map(|i| i.objective1).collect();
    assert_eq!(costs, vec![1, 2, 3]);
    assert_eq!(front.len(), 3);
}

#[test]
fn min_methods_return_the_first_of_equal_minima() {
    let mut front = ParetoFront::new(k1, k2);
    front.add(Dummy { cost: 4, data: &[1, 2] });
    front.add(Dummy { cost: 2, data: &[1, 2, 3] });
    let best = front.min_objective_1().unwrap();
    assert_eq!(best.objective1, 2);
    let shortest = front.min_objective_2().unwrap();
    assert_eq!(shortest.objective2, 2);
    assert!(!front.is_empty());
}
