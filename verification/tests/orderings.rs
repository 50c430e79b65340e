use knapsack::permutations;
use knapsack::permute::heaps_alg;

fn factorial(n: usize) -> usize {
    (1..=n).product()
}

#[test]
fn one_element_has_one_ordering() {
    let mut v = vec![7u8];
    assert_eq!(permutations(&mut v), vec![vec![7u8]]);
    assert_eq!(v, vec![7u8]);
}

#[test]
fn two_elements_in_the_order_of_the_generator() {
    let mut v = vec!['a', 'b'];
    assert_eq!(permutations(&mut v), vec![vec!['a', 'b'], vec!['b', 'a']]);
    assert_eq!(v, vec!['b', 'a']);
}

#[test]
fn three_elements_in_the_order_of_the_generator() {
    let mut v = vec![1u32, 2, 3];
    let perms = permutations(&mut v);
    assert_eq!(
        perms,
        vec![
            vec![1, 2, 3],
            vec![2, 1, 3],
            vec![3, 1, 2],
            vec![1, 3, 2],
            vec![2, 3, 1],
            vec![3, 2, 1],
        ]
    );
    assert_eq!(v, vec![3, 2, 1]);
}

#[test]
fn four_elements_end_one_place_to_the_left() {
    let mut v = vec![0usize, 1, 2, 3];
    let perms = permutations(&mut v);
    assert_eq!(perms.len(), 24);
    assert_eq!(perms[0], vec![0, 1, 2, 3]);
    assert_eq!(perms[23], vec![1, 2, 3, 0]);
    assert_eq!(v, vec![1, 2, 3, 0]);
}

#[test]
fn every_ordering_once_up_to_seven_elements() {
    for n in 1..=7usize {
        let mut v: Vec<usize> = (0..n).collect();
        let mut perms = permutations(&mut v);
        assert_eq!(perms.len(), factorial(n));
        for p in &perms {
            let mut sorted = p.clone();
            sorted.sort();
            assert_eq!(sorted, (0..n).collect::<Vec<usize>>());
        }
        perms.sort();
        perms.dedup();
        assert_eq!(perms.len(), factorial(n));
    }
}

#[test]
fn equal_elements_are_told_apart_by_place() {
    let mut v = vec![5u8, 5, 5];
    let perms = permutations(&mut v);
    assert_eq!(perms.len(), 6);
    for p in &perms {
        assert_eq!(p, &vec![5u8, 5, 5]);
    }
}

#[test]
fn a_run_of_a_lower_level_leaves_the_rest_alone() {
    let mut v = vec![1u32, 2, 3, 4, 5];
    let perms = heaps_alg(&mut v, 3);
    assert_eq!(perms.len(), 6);
    for p in &perms {
        assert_eq!(p[3], 4);
        assert_eq!(p[4], 5);
    }
    assert_eq!(perms[5], vec![3, 2, 1, 4, 5]);
    assert_eq!(v, vec![3, 2, 1, 4, 5]);
}
