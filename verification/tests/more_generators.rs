use set_partitions::lexico;
use set_partitions::lexico_stateless::gen_partitions;
use set_partitions::rgs_graycode;
use set_partitions::rgs_graycode_ehrlich;

const BELL: [usize; 8] = [1, 1, 2, 5, 15, 52, 203, 877];

fn is_restricted(a: &[usize]) -> bool {
    let mut limit = 0;
    for &x in a {
        if x > limit {
            return false;
        }
        if x + 1 > limit {
            limit = x + 1;
        }
    }
    a.is_empty() || a[0] == 0
}

fn distance(a: &[usize], b: &[usize]) -> usize {
    a.iter().zip(b.iter()).filter(|(x, y)| x != y).count()
}

#[test]
fn lexico_order_for_three_elements() {
    let expected: Vec<Vec<Vec<usize>>> = vec![
        vec![vec![0], vec![1], vec![2]],
        vec![vec![0], vec![1, 2]],
        vec![vec![0, 1], vec![2]],
        vec![vec![0, 1, 2]],
        vec![vec![0, 2], vec![1]],
    ];
    assert_eq!(lexico::gen_partitions(3), expected);
}

#[test]
fn lexico_visits_in_the_order_of_the_successor_engine() {
    for n in 0..8 {
        let shifted: Vec<Vec<Vec<usize>>> = gen_partitions(n)
            .iter()
            .map(|p| p.iter().map(|b| b.iter().map(|x| x - 1).collect()).collect())
            .collect();
        assert_eq!(lexico::gen_partitions(n), shifted);
    }
}

#[test]
fn lexico_empty_set_has_one_partition_without_blocks() {
    let all = lexico::gen_partitions(0);
    assert_eq!(all.len(), 1);
    assert!(all[0].is_empty());
}

#[test]
fn graycode_order_for_three_elements() {
    let expected: Vec<Vec<usize>> =
        vec![vec![0, 1, 2], vec![0, 1, 1], vec![0, 1, 0], vec![0, 0, 0], vec![0, 0, 1]];
    assert_eq!(rgs_graycode::rgs_graycode(3), expected);
}

#[test]
fn graycode_short_cases() {
    assert_eq!(rgs_graycode::rgs_graycode(0), vec![Vec::<usize>::new()]);
    assert_eq!(rgs_graycode::rgs_graycode(1), vec![vec![0]]);
    assert_eq!(rgs_graycode::rgs_graycode(2), vec![vec![0, 1], vec![0, 0]]);
}

#[test]
fn graycode_gives_each_restricted_growth_string_once() {
    for n in 0..BELL.len() {
        let all = rgs_graycode::rgs_graycode(n);
        assert_eq!(all.len(), BELL[n]);
        assert!(all.iter().all(|a| a.len() == n && is_restricted(a)));
        let mut sorted = all.clone();
        sorted.sort();
        sorted.dedup();
        assert_eq!(sorted.len(), all.len());
    }
}

#[test]
fn graycode_wrap_fn_hands_its_argument_back() {
    assert_eq!(rgs_graycode::wrap_fn(17usize), 17);
    assert_eq!(rgs_graycode_ehrlich::wrap_fn(vec![1, 2]), vec![1, 2]);
}

#[test]
fn ehrlich_order_for_three_elements() {
    let expected: Vec<Vec<usize>> =
        vec![vec![0, 0, 0], vec![0, 0, 1], vec![0, 1, 1], vec![0, 1, 2], vec![0, 1, 0]];
    assert_eq!(rgs_graycode_ehrlich::rgs_graycode(3), expected);
}

#[test]
fn ehrlich_short_cases() {
    assert_eq!(rgs_graycode_ehrlich::rgs_graycode(0), vec![Vec::<usize>::new()]);
    assert_eq!(rgs_graycode_ehrlich::rgs_graycode(1), vec![vec![0]]);
    assert_eq!(rgs_graycode_ehrlich::rgs_graycode(2), vec![vec![0, 0], vec![0, 1]]);
}

#[test]
fn ehrlich_gives_each_restricted_growth_string_once() {
    for n in 0..BELL.len() {
        let all = rgs_graycode_ehrlich::rgs_graycode(n);
        assert_eq!(all.len(), BELL[n]);
        assert!(all.iter().all(|a| a.len() == n && is_restricted(a)));
        let mut sorted = all.clone();
        sorted.sort();
        sorted.dedup();
        assert_eq!(sorted.len(), all.len());
    }
}

#[test]
fn ehrlich_neighbours_differ_in_one_place() {
    for n in 1..8 {
        let all = rgs_graycode_ehrlich::rgs_graycode(n);
        for w in all.windows(2) {
            assert_eq!(distance(&w[0], &w[1]), 1);
        }
    }
}
