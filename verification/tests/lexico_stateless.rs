use set_partitions::bag::UnslottedItems;
use set_partitions::lexico_stateless::{
    append_minimum, gen_partitions, increment, LexicoPartitionIter,
};

fn collect(n: usize) -> Vec<Vec<Vec<usize>>> {
    let mut iter = LexicoPartitionIter::new(n);
    let mut all = Vec::new();
    while let Some(p) = iter.next() {
        all.push(p.to_vec());
    }
    all
}

fn is_partition(p: &[Vec<usize>], n: usize) -> bool {
    let mut seen = vec![false; n + 1];
    for block in p {
        if block.is_empty() {
            return false;
        }
        for w in block.windows(2) {
            if w[0] >= w[1] {
                return false;
            }
        }
        for &x in block {
            if x < 1 || x > n || seen[x] {
                return false;
            }
            seen[x] = true;
        }
    }
    (1..=n).all(|x| seen[x])
}

#[test]
fn trace_for_three_elements() {
    let expected: Vec<Vec<Vec<usize>>> = vec![
        vec![vec![1], vec![2], vec![3]],
        vec![vec![1], vec![2, 3]],
        vec![vec![1, 2], vec![3]],
        vec![vec![1, 2, 3]],
        vec![vec![1, 3], vec![2]],
    ];
    assert_eq!(collect(3), expected);
}

#[test]
fn trace_for_four_elements() {
    let expected: Vec<Vec<Vec<usize>>> = vec![
        vec![vec![1], vec![2], vec![3], vec![4]],
        vec![vec![1], vec![2], vec![3, 4]],
        vec![vec![1], vec![2, 3], vec![4]],
        vec![vec![1], vec![2, 3, 4]],
        vec![vec![1], vec![2, 4], vec![3]],
        vec![vec![1, 2], vec![3], vec![4]],
        vec![vec![1, 2], vec![3, 4]],
        vec![vec![1, 2, 3], vec![4]],
        vec![vec![1, 2, 3, 4]],
        vec![vec![1, 2, 4], vec![3]],
        vec![vec![1, 3], vec![2], vec![4]],
        vec![vec![1, 3], vec![2, 4]],
        vec![vec![1, 3, 4], vec![2]],
        vec![vec![1, 4], vec![2], vec![3]],
        vec![vec![1, 4], vec![2, 3]],
    ];
    assert_eq!(collect(4), expected);
}

#[test]
fn counts_are_bell_numbers() {
    let bell = [1usize, 1, 2, 5, 15, 52, 203, 877, 4140];
    for n in 0..bell.len() {
        assert_eq!(collect(n).len(), bell[n]);
    }
}

#[test]
fn every_partition_is_disjoint_ascending_and_covers() {
    for n in 0..8 {
        for p in collect(n) {
            assert!(is_partition(&p, n));
        }
    }
}

#[test]
fn no_partition_appears_twice() {
    for n in 0..8 {
        let all = collect(n);
        let mut keys: Vec<Vec<Vec<usize>>> = all
            .iter()
            .map(|p| {
                let mut blocks = p.clone();
                blocks.sort();
                blocks
            })
            .collect();
        keys.sort();
        keys.dedup();
        assert_eq!(keys.len(), all.len());
    }
}

#[test]
fn first_partition_is_all_singletons() {
    for n in 1..7 {
        let mut iter = LexicoPartitionIter::new(n);
        let first = iter.next().unwrap().to_vec();
        let expected: Vec<Vec<usize>> = (1..=n).map(|i| vec![i]).collect();
        assert_eq!(first, expected);
    }
}

#[test]
fn last_partition_for_one_and_two_elements_is_one_block() {
    assert_eq!(collect(1).last().unwrap(), &vec![vec![1]]);
    assert_eq!(collect(2).last().unwrap(), &vec![vec![1, 2]]);
}

#[test]
fn last_partition_pairs_least_with_greatest() {
    assert_eq!(collect(3).last().unwrap(), &vec![vec![1, 3], vec![2]]);
    assert_eq!(collect(4).last().unwrap(), &vec![vec![1, 4], vec![2, 3]]);
    assert_eq!(collect(5).last().unwrap(), &vec![vec![1, 5], vec![2, 4], vec![3]]);
}

#[test]
fn empty_set_has_one_partition_without_blocks() {
    let all = collect(0);
    assert_eq!(all.len(), 1);
    assert!(all[0].is_empty());
}

#[test]
fn sequence_stays_ended() {
    let mut iter = LexicoPartitionIter::new(2);
    assert!(iter.next().is_some());
    assert!(iter.next().is_some());
    assert!(iter.next().is_none());
    assert!(iter.next().is_none());
    assert!(iter.next().is_none());
}

#[test]
fn fresh_engines_give_the_same_sequence() {
    for n in 0..7 {
        assert_eq!(collect(n), collect(n));
    }
}

#[test]
fn gen_partitions_is_the_whole_sequence() {
    for n in 0..7 {
        assert_eq!(gen_partitions(n), collect(n));
    }
}

#[test]
fn increment_carries_a_short_last_block_leftward() {
    let mut p = vec![vec![1], vec![2], vec![3]];
    let mut bag = UnslottedItems::new(3);
    assert!(increment(&mut p, &mut bag));
    assert_eq!(p, vec![vec![1], vec![2, 3]]);
    assert!(bag.is_empty());
}

#[test]
fn increment_splits_the_tail_of_a_long_last_block() {
    let mut p = vec![vec![1, 2, 3]];
    let mut bag = UnslottedItems::new(3);
    assert!(increment(&mut p, &mut bag));
    assert_eq!(p, vec![vec![1, 3], vec![2]]);
    assert!(bag.is_empty());
}

#[test]
fn increment_retreats_inside_a_block() {
    let mut p = vec![vec![1, 2, 4], vec![3]];
    let mut bag = UnslottedItems::new(4);
    assert!(increment(&mut p, &mut bag));
    assert_eq!(p, vec![vec![1, 3], vec![2], vec![4]]);
    assert!(bag.is_empty());
}

#[test]
fn increment_reports_exhaustion() {
    let mut p = vec![vec![1, 3], vec![2]];
    let mut bag = UnslottedItems::new(3);
    assert!(!increment(&mut p, &mut bag));
    let mut single = vec![vec![1, 2]];
    assert!(!increment(&mut single, &mut bag_for(2)));
    let mut none: Vec<Vec<usize>> = Vec::new();
    assert!(!increment(&mut none, &mut bag_for(0)));
}

fn bag_for(n: usize) -> UnslottedItems {
    UnslottedItems::new(n)
}

#[test]
fn append_minimum_opens_a_block_for_each_free_element() {
    let mut p = vec![vec![1, 4]];
    let mut bag = UnslottedItems::new(4);
    bag.insert_all(&[3, 2]);
    append_minimum(&mut p, &mut bag);
    assert_eq!(p, vec![vec![1, 4], vec![2], vec![3]]);
    assert!(bag.is_empty());
}
