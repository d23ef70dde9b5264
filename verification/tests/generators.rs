use set_partitions::bell_triangle;
use set_partitions::indexed::{to_parts, IndexedPartition};
use set_partitions::lexico_stateless::gen_partitions;
use set_partitions::restricted_growth;
use set_partitions::stirling;

const BELL: [usize; 8] = [1, 1, 2, 5, 15, 52, 203, 877];

fn key(p: &[Vec<usize>]) -> Vec<Vec<usize>> {
    let mut blocks: Vec<Vec<usize>> = p.to_vec();
    for b in blocks.iter_mut() {
        b.sort();
    }
    blocks.sort();
    blocks
}

fn keys(all: &[Vec<Vec<usize>>]) -> Vec<Vec<Vec<usize>>> {
    let mut ks: Vec<Vec<Vec<usize>>> = all.iter().map(|p| key(p)).collect();
    ks.sort();
    ks
}

fn shifted(all: &[Vec<Vec<usize>>]) -> Vec<Vec<Vec<usize>>> {
    all.iter()
        .map(|p| p.iter().map(|b| b.iter().map(|x| x - 1).collect()).collect())
        .collect()
}

#[test]
fn bell_triangle_counts_are_bell_numbers() {
    for n in 0..BELL.len() {
        assert_eq!(bell_triangle::partitions(n).len(), BELL[n]);
    }
}

#[test]
fn bell_triangle_order_for_three_elements() {
    let expected: Vec<Vec<Vec<usize>>> = vec![
        vec![vec![0], vec![1], vec![2]],
        vec![vec![0, 1], vec![2]],
        vec![vec![1], vec![0, 2]],
        vec![vec![0], vec![1, 2]],
        vec![vec![0, 1, 2]],
    ];
    assert_eq!(bell_triangle::partitions(3), expected);
}

#[test]
fn bell_triangle_gives_the_same_partitions_as_the_successor_engine() {
    for n in 0..7 {
        let a = keys(&bell_triangle::partitions(n));
        let b = keys(&shifted(&gen_partitions(n)));
        assert_eq!(a, b);
    }
}

#[test]
fn bell_triangle_swappend_swaps_and_appends() {
    let mut ip = IndexedPartition { part_count: 2, index: vec![0, 1, 0] };
    bell_triangle::Augmentation::swappend(3, 2).apply(&mut ip);
    assert_eq!(ip.index, vec![0, 0, 1, 0]);
    assert_eq!(ip.part_count, 2);
    bell_triangle::Augmentation::add_singleton().apply(&mut ip);
    assert_eq!(ip.index, vec![0, 0, 1, 0, 2]);
    assert_eq!(ip.part_count, 3);
}

#[test]
fn bell_triangle_stack_applies_from_the_top() {
    let mut ops = bell_triangle::AugmentationStack::new();
    ops.push(bell_triangle::Augmentation::swappend(2, 1));
    ops.push(bell_triangle::Augmentation::add_singleton());
    let mut ip = IndexedPartition { part_count: 1, index: vec![0] };
    ops.apply(&mut ip);
    assert_eq!(ip.index, vec![1, 0, 1]);
    ops.pop();
    assert_eq!(ops.stack.len(), 1);
}

#[test]
fn stirling_counts_are_bell_numbers() {
    for n in 0..BELL.len() {
        assert_eq!(stirling::partitions(n).len(), BELL[n]);
    }
}

#[test]
fn stirling_groups_by_number_of_parts() {
    let all = stirling::partitions(4);
    let sizes: Vec<usize> = all.iter().map(|p| p.len()).collect();
    let mut sorted = sizes.clone();
    sorted.sort();
    assert_eq!(sizes, sorted);
    let with_two = sizes.iter().filter(|k| **k == 2).count();
    assert_eq!(with_two, 7);
    let with_three = sizes.iter().filter(|k| **k == 3).count();
    assert_eq!(with_three, 6);
}

#[test]
fn stirling_order_for_three_elements() {
    let expected: Vec<Vec<Vec<usize>>> = vec![
        vec![vec![0, 1, 2]],
        vec![vec![0, 1], vec![2]],
        vec![vec![0, 2], vec![1]],
        vec![vec![0], vec![1, 2]],
        vec![vec![0], vec![1], vec![2]],
    ];
    assert_eq!(stirling::partitions(3), expected);
}

#[test]
fn stirling_gives_the_same_partitions_as_the_successor_engine() {
    for n in 0..7 {
        let a = keys(&stirling::partitions(n));
        let b = keys(&shifted(&gen_partitions(n)));
        assert_eq!(a, b);
    }
}

#[test]
fn stirling_insert_at_joins_a_part() {
    let mut ip = IndexedPartition { part_count: 2, index: vec![0, 1] };
    stirling::Augmentation::insert_at(1).apply(&mut ip);
    assert_eq!(ip.index, vec![0, 1, 1]);
    stirling::Augmentation::add_singleton().apply(&mut ip);
    assert_eq!(ip.index, vec![0, 1, 1, 2]);
    assert_eq!(ip.part_count, 3);
}

#[test]
fn stirling_pop_on_empty_stack_is_harmless() {
    let mut ops = stirling::AugmentationStack::new();
    ops.pop();
    ops.push(stirling::Augmentation::insert_at(0));
    ops.pop();
    assert!(ops.ops.is_empty());
}

#[test]
fn restricted_growth_strings_for_three_elements() {
    let all = restricted_growth::partitions(3);
    let strings: Vec<Vec<usize>> = all.iter().map(|ip| ip.index.clone()).collect();
    assert_eq!(
        strings,
        vec![vec![0, 0, 0], vec![0, 0, 1], vec![0, 1, 0], vec![0, 1, 1], vec![0, 1, 2]]
    );
    let counts: Vec<usize> = all.iter().map(|ip| ip.part_count).collect();
    assert_eq!(counts, vec![1, 2, 2, 2, 3]);
}

#[test]
fn restricted_growth_counts_are_bell_numbers() {
    for n in 0..BELL.len() {
        assert_eq!(restricted_growth::partitions(n).len(), BELL[n]);
    }
}

#[test]
fn restricted_growth_short_cases_do_not_count_parts() {
    let none = restricted_growth::partitions(0);
    assert_eq!(none.len(), 1);
    assert!(none[0].index.is_empty());
    assert_eq!(none[0].part_count, 0);
    let one = restricted_growth::partitions(1);
    assert_eq!(one.len(), 1);
    assert_eq!(one[0].index, vec![0]);
    assert_eq!(one[0].part_count, 0);
}

#[test]
fn indexed_partition_constructors() {
    let fresh = IndexedPartition::new(3);
    assert_eq!(fresh.index, vec![0, 0, 0]);
    assert_eq!(fresh.part_count, 0);
    let mut roomy = IndexedPartition::with_capacity(5);
    assert!(roomy.index.is_empty());
    roomy.index.push(0);
    roomy.part_count = 1;
    roomy.clear();
    assert!(roomy.index.is_empty());
    assert_eq!(roomy.part_count, 0);
}

#[test]
fn to_parts_groups_elements_by_part() {
    let ip = IndexedPartition { part_count: 3, index: vec![0, 1, 0, 2, 1] };
    assert_eq!(to_parts(&ip), vec![vec![0, 2], vec![1, 4], vec![3]]);
}

#[test]
fn restricted_growth_strings_are_all_of_them_in_order() {
    for n in 0..7 {
        let strings: Vec<Vec<usize>> =
            restricted_growth::partitions(n).iter().map(|ip| ip.index.clone()).collect();
        let mut sorted = strings.clone();
        sorted.sort();
        sorted.dedup();
        assert_eq!(strings, sorted);
        for a in &strings {
            let mut limit = 0;
            for &x in a {
                assert!(x <= limit);
                if x + 1 > limit {
                    limit = x + 1;
                }
            }
        }
    }
}
