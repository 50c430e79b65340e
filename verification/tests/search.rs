use knapsack::{select_best, Item, Problem, Solution, SolveError};

fn problem(capacity: u32, pairs: &[(u32, u32)]) -> Problem {
    let mut items = Vec::new();
    for (index, (value, weight)) in pairs.iter().enumerate() {
        items.push(Item { index, value: *value, weight: *weight });
    }
    Problem { capacity, items }
}

fn included_weight(problem: &Problem, solution: &Solution) -> u64 {
    let mut sum = 0u64;
    for (i, item) in problem.items.iter().enumerate() {
        if solution.included[i] {
            sum += item.weight as u64;
        }
    }
    sum
}

fn included_value(problem: &Problem, solution: &Solution) -> u128 {
    let mut sum = 0u128;
    for (i, item) in problem.items.iter().enumerate() {
        if solution.included[i] {
            sum += item.value as u128;
        }
    }
    sum
}

#[test]
fn fill_goes_from_the_tail_and_never_back() {
    let p = problem(10, &[(1, 6), (2, 5), (3, 5)]);
    // From the tail: the item at place 2 fits, the next one fills the bag,
    // the one in front does not fit any more.
    let candidate = p.evaluate(&p.items);
    assert_eq!(candidate.value, 5);
    assert_eq!(candidate.included, vec![false, true, true]);
    assert!(candidate.is_optimal);
    // The heavy item at the tail goes in first and keeps the others out.
    let ordering = vec![p.items[1], p.items[2], p.items[0]];
    let candidate = p.evaluate(&ordering);
    assert_eq!(candidate.value, 1);
    assert_eq!(candidate.included, vec![true, false, false]);
}

#[test]
fn fill_of_an_item_as_heavy_as_the_capacity() {
    let p = problem(u32::MAX, &[(u32::MAX, u32::MAX), (u32::MAX, 1)]);
    let candidate = p.evaluate(&p.items);
    assert_eq!(candidate.value, u32::MAX as u128);
    assert_eq!(candidate.included, vec![false, true]);
    let ordering = vec![p.items[1], p.items[0]];
    let candidate = p.evaluate(&ordering);
    assert_eq!(candidate.value, u32::MAX as u128);
    assert_eq!(candidate.included, vec![true, false]);
}

#[test]
fn values_beyond_thirty_two_bits_add_up() {
    let p = problem(10, &[(u32::MAX, 1), (u32::MAX, 1), (u32::MAX, 1)]);
    let solution = p.solve().unwrap();
    assert_eq!(solution.value, 3 * (u32::MAX as u128));
    assert_eq!(solution.included, vec![true, true, true]);
}

#[test]
fn best_is_the_last_of_the_greatest() {
    let make = |value: u128, mark: bool| Solution {
        value,
        is_optimal: true,
        included: vec![mark],
    };
    let best = select_best(vec![make(3, false), make(7, false), make(5, false), make(7, true)]);
    assert_eq!(best, Ok(make(7, true)));
    let best = select_best(vec![make(9, true), make(7, false)]);
    assert_eq!(best, Ok(make(9, true)));
    let best = select_best(vec![make(0, true)]);
    assert_eq!(best, Ok(make(0, true)));
}

#[test]
fn best_of_nothing_is_no_solution() {
    assert_eq!(select_best(Vec::new()), Err(SolveError::NoSolution));
}

#[test]
fn of_two_equal_bags_the_later_ordering_wins() {
    // The orderings are (0, 1) and (1, 0); each fill takes the item at its
    // tail only, and both bags are worth 5.
    let p = problem(5, &[(5, 5), (5, 5)]);
    let solution = p.solve().unwrap();
    assert_eq!(solution.value, 5);
    assert_eq!(solution.included, vec![true, false]);
}

#[test]
fn solution_is_feasible_and_worth_its_items() {
    let cases = vec![
        problem(11, &[(8, 4), (10, 5), (15, 8), (4, 3)]),
        problem(0, &[(8, 4), (10, 5)]),
        problem(7, &[(3, 0), (4, 0), (9, 7), (1, 8)]),
        problem(10, &[(1, 1), (2, 2), (3, 3), (4, 4), (5, 5), (6, 6)]),
    ];
    for p in cases {
        assert!(p.is_well_formed());
        let solution = p.solve().unwrap();
        assert_eq!(solution.included.len(), p.items.len());
        assert!(included_weight(&p, &solution) <= p.capacity as u64);
        assert_eq!(included_value(&p, &solution), solution.value);
        assert!(solution.is_optimal);
    }
}

#[test]
fn known_best_values() {
    assert_eq!(
        problem(11, &[(8, 4), (10, 5), (15, 8), (4, 3)])
            .solve()
            .unwrap()
            .value,
        19
    );
    assert_eq!(
        problem(10, &[(1, 1), (2, 2), (3, 3), (4, 4), (5, 5), (6, 6)])
            .solve()
            .unwrap()
            .value,
        10
    );
    assert_eq!(
        problem(7, &[(3, 0), (4, 0), (9, 7), (1, 8)])
            .solve()
            .unwrap()
            .value,
        16
    );
    assert_eq!(problem(0, &[(8, 4), (10, 5)]).solve().unwrap().value, 0);
}

#[test]
fn solving_twice_gives_the_same() {
    let p = problem(11, &[(8, 4), (10, 5), (15, 8), (4, 3)]);
    let first = p.solve().unwrap();
    let second = p.solve().unwrap();
    assert_eq!(first, second);
    let again = problem(11, &[(8, 4), (10, 5), (15, 8), (4, 3)]);
    assert_eq!(again.solve().unwrap(), first);
}

#[test]
fn more_capacity_never_gives_less_value() {
    let pairs = [(8, 4), (10, 5), (15, 8), (4, 3), (1, 10)];
    let mut last = 0u128;
    let values: Vec<u128> = (0..=31)
        .map(|capacity| problem(capacity, &pairs).solve().unwrap().value)
        .collect();
    for value in &values {
        assert!(*value >= last);
        last = *value;
    }
    assert_eq!(values[0], 0);
    assert_eq!(values[3], 4);
    assert_eq!(values[11], 19);
    assert_eq!(values[30], 38);
}

#[test]
fn well_formed_means_each_item_at_its_own_place() {
    assert!(problem(1, &[(1, 1), (2, 2)]).is_well_formed());
    assert!(problem(1, &[]).is_well_formed());
    let crooked = Problem {
        capacity: 1,
        items: vec![Item { index: 1, value: 1, weight: 1 }, Item { index: 0, value: 2, weight: 2 }],
    };
    assert!(!crooked.is_well_formed());
    let beyond = Problem {
        capacity: 1,
        items: vec![Item { index: 0, value: 1, weight: 1 }, Item { index: 2, value: 2, weight: 2 }],
    };
    assert!(!beyond.is_well_formed());
}
