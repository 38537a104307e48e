use pmsa::{
    merge_into, par_merge, par_merge_by, par_merge_by_key, par_merge_in_parts, seq_merge, seq_merge_by,
    seq_merge_by_key,
};
use std::cmp::Ordering;

fn seq(l: &[u64], r: &[u64]) -> Vec<u64> {
    let mut out = Vec::new();
    seq_merge(l, r, &mut out);
    out
}

fn sorted_concat(l: &[u64], r: &[u64]) -> Vec<u64> {
    let mut all: Vec<u64> = l.iter().chain(r.iter()).cloned().collect();
    all.sort();
    all
}

/// A sorted vector of `len` values with steps of 0 to 8, from a fixed seed.
fn sorted_values(len: usize, seed: u64) -> Vec<u64> {
    let mut state = seed;
    let mut value = 0u64;
    let mut out = Vec::with_capacity(len);
    for _ in 0..len {
        state = state.wrapping_mul(6364136223846793005).wrapping_add(1442695040888963407);
        out.push(value);
        value += (state >> 33) % 9;
    }
    out
}

#[test]
fn interleaved_inputs_merge_in_order() {
    assert_eq!(seq(&[1, 3, 5, 7], &[2, 4, 6, 8]), vec![1, 2, 3, 4, 5, 6, 7, 8]);
    assert_eq!(par_merge(&[1, 3, 5, 7], &[2, 4, 6, 8]), vec![1, 2, 3, 4, 5, 6, 7, 8]);
}

#[test]
fn empty_left_gives_right() {
    assert_eq!(seq(&[], &[2, 4]), vec![2, 4]);
    assert_eq!(par_merge(&[], &[2, 4]), vec![2, 4]);
}

#[test]
fn empty_right_gives_left() {
    assert_eq!(seq(&[2, 4], &[]), vec![2, 4]);
    assert_eq!(par_merge(&[2, 4], &[]), vec![2, 4]);
}

#[test]
fn both_empty_give_empty() {
    assert_eq!(seq(&[], &[]), Vec::<u64>::new());
    assert_eq!(par_merge::<u64>(&[], &[]), Vec::<u64>::new());
}

#[test]
fn single_items_merge() {
    assert_eq!(seq(&[5], &[3]), vec![3, 5]);
    assert_eq!(par_merge(&[5], &[3]), vec![3, 5]);
    assert_eq!(par_merge(&[3], &[5]), vec![3, 5]);
}

#[test]
fn equal_items_keep_left_before_right() {
    let left = [(1, 'l', 0), (1, 'l', 1), (1, 'l', 2)];
    let right = [(1, 'r', 0), (1, 'r', 1)];
    let expected = vec![(1, 'l', 0), (1, 'l', 1), (1, 'l', 2), (1, 'r', 0), (1, 'r', 1)];
    let mut out = Vec::new();
    seq_merge_by_key(&left, &right, &mut out, |item| item.0);
    assert_eq!(out, expected);
    assert_eq!(par_merge_by_key(&left, &right, |item| item.0), expected);
    assert_eq!(seq(&[1, 1, 1], &[1, 1]), vec![1, 1, 1, 1, 1]);
    assert_eq!(par_merge(&[1, 1, 1], &[1, 1]), vec![1, 1, 1, 1, 1]);
}

#[test]
fn equal_keys_put_left_item_first() {
    let left = [(1, "a")];
    let right = [(1, "b")];
    let mut out = Vec::new();
    seq_merge_by(&left, &right, &mut out, |x, y| x.0.cmp(&y.0));
    assert_eq!(out, vec![(1, "a"), (1, "b")]);
    assert_eq!(par_merge_by(&left, &right, |x, y| x.0.cmp(&y.0)), vec![(1, "a"), (1, "b")]);
    assert_eq!(par_merge_by_key(&left, &right, |x| x.0), vec![(1, "a"), (1, "b")]);
}

#[test]
fn merge_appends_behind_what_the_sink_holds() {
    let mut out = vec![9u64, 9];
    seq_merge(&[1, 4], &[2, 3], &mut out);
    assert_eq!(out, vec![9, 9, 1, 2, 3, 4]);
}

#[test]
fn merge_by_reverse_order() {
    let mut out = Vec::new();
    seq_merge_by(&[7, 5, 1], &[6, 2], &mut out, |a: &i32, b: &i32| b.cmp(a));
    assert_eq!(out, vec![7, 6, 5, 2, 1]);
    assert_eq!(par_merge_by(&[7, 5, 1], &[6, 2], |a: &i32, b: &i32| b.cmp(a)), vec![7, 6, 5, 2, 1]);
}

#[test]
fn merge_into_asks_left_first() {
    let mut out = Vec::new();
    merge_into(&[1, 2, 2], &[2, 3], &mut out, &|a: &u8, b: &u8| a <= b);
    assert_eq!(out, vec![1, 2, 2, 2, 3]);
    let mut strict = Vec::new();
    merge_into(&[(2, 'l')], &[(2, 'r')], &mut strict, &|a: &(u8, char), b: &(u8, char)| a.0 < b.0);
    assert_eq!(strict, vec![(2, 'r'), (2, 'l')]);
}

#[test]
fn unsorted_inputs_follow_the_comparisons() {
    assert_eq!(seq(&[3, 1], &[2]), vec![2, 3, 1]);
}

#[test]
fn parallel_equals_sequential_on_many_shapes() {
    let shapes: [(usize, usize); 9] =
        [(0, 0), (1, 0), (0, 1), (1, 1), (7, 7), (1, 200), (200, 1), (33, 500), (500, 33)];
    for (i, &(n, m)) in shapes.iter().enumerate() {
        let l = sorted_values(n, 17 + i as u64);
        let r = sorted_values(m, 91 + i as u64);
        let expected = sorted_concat(&l, &r);
        assert_eq!(seq(&l, &r), expected);
        assert_eq!(par_merge(&l, &r), expected);
        for parts in [1usize, 2, 3, 8, 64, 1000] {
            assert_eq!(par_merge_in_parts(&l, &r, parts, &|a: &u64, b: &u64| a <= b), expected);
        }
    }
}

#[test]
fn blocks_keep_left_before_right_across_cuts() {
    // all keys equal: every cut of the driver falls between equal keys
    for (n, m) in [(40usize, 50usize), (50, 40), (8, 8), (3, 100), (100, 3)] {
        let left: Vec<(u8, char, usize)> = (0..n).map(|i| (7, 'l', i)).collect();
        let right: Vec<(u8, char, usize)> = (0..m).map(|i| (7, 'r', i)).collect();
        let mut expected = left.clone();
        expected.extend(right.iter().cloned());
        for parts in [1usize, 2, 4, 7, 16] {
            let out = par_merge_in_parts(&left, &right, parts, &|a: &(u8, char, usize), b: &(u8, char, usize)| {
                a.0 <= b.0
            });
            assert_eq!(out, expected);
        }
        assert_eq!(par_merge_by_key(&left, &right, |item| item.0), expected);
    }
}

#[test]
fn blocks_keep_ties_stable_with_few_keys() {
    for (n, m) in [(64usize, 200usize), (200, 64), (100, 100)] {
        let left: Vec<(u64, char, usize)> = (0..n).map(|i| ((i / 16) as u64, 'l', i)).collect();
        let right: Vec<(u64, char, usize)> = (0..m).map(|i| ((i / 40) as u64, 'r', i)).collect();
        let mut expected = Vec::new();
        seq_merge_by_key(&left, &right, &mut expected, |item| item.0);
        // stable: by key, then left before right, then by position
        let mut reference: Vec<(u64, char, usize)> = left.iter().chain(right.iter()).cloned().collect();
        reference.sort_by(|a, b| a.0.cmp(&b.0).then(a.1.cmp(&b.1)).then(a.2.cmp(&b.2)));
        assert_eq!(expected, reference);
        for parts in [1usize, 3, 4, 5, 12, 300] {
            let out = par_merge_in_parts(&left, &right, parts, &|a: &(u64, char, usize), b: &(u64, char, usize)| {
                a.0.cmp(&b.0) != Ordering::Greater
            });
            assert_eq!(out, reference);
        }
        assert_eq!(par_merge_by(&left, &right, |a, b| a.0.cmp(&b.0)), reference);
    }
}

#[test]
fn one_side_entirely_below_the_other() {
    let low: Vec<u64> = (0..100).collect();
    let high: Vec<u64> = (100..130).collect();
    let all: Vec<u64> = (0..130).collect();
    assert_eq!(par_merge(&low, &high), all);
    assert_eq!(par_merge(&high, &low), all);
    for parts in [1usize, 4, 9] {
        assert_eq!(par_merge_in_parts(&low, &high, parts, &|a: &u64, b: &u64| a <= b), all);
        assert_eq!(par_merge_in_parts(&high, &low, parts, &|a: &u64, b: &u64| a <= b), all);
    }
}

#[test]
fn more_parts_than_items() {
    let out = par_merge_in_parts(&[2u64, 9], &[1, 3, 10, 11], 50, &|a: &u64, b: &u64| a <= b);
    assert_eq!(out, vec![1, 2, 3, 9, 10, 11]);
}

#[test]
fn million_items_merge_alike() {
    let l = sorted_values(1_000_000, 1);
    let r = sorted_values(1_000_000, 2);
    let mut sequential = Vec::with_capacity(l.len() + r.len());
    seq_merge(&l, &r, &mut sequential);
    let parallel = par_merge(&l, &r);
    assert_eq!(sequential.len(), 2_000_000);
    assert!(sequential.windows(2).all(|w| w[0] <= w[1]));
    assert!(parallel == sequential);
}

#[test]
fn unsorted_inputs_keep_every_item() {
    let l: Vec<u64> = vec![9, 1, 8, 2, 7, 3, 7, 7, 0];
    let r: Vec<u64> = vec![5, 5, 4, 6, 0, 10, 2];
    let expected = sorted_concat(&l, &r);
    for parts in [1usize, 2, 3, 5, 9, 40] {
        let mut out = par_merge_in_parts(&l, &r, parts, &|a: &u64, b: &u64| a <= b);
        out.sort();
        assert_eq!(out, expected);
        let mut swapped = par_merge_in_parts(&r, &l, parts, &|a: &u64, b: &u64| a <= b);
        swapped.sort();
        assert_eq!(swapped, expected);
    }
    let mut out = par_merge(&l, &r);
    out.sort();
    assert_eq!(out, expected);
}

#[test]
fn many_seeded_inputs_merge_alike() {
    let mut state = 12345u64;
    for round in 0..200u64 {
        state = state.wrapping_mul(6364136223846793005).wrapping_add(1442695040888963407);
        let n = ((state >> 40) % 60) as usize;
        state = state.wrapping_mul(6364136223846793005).wrapping_add(1442695040888963407);
        let m = ((state >> 40) % 60) as usize;
        state = state.wrapping_mul(6364136223846793005).wrapping_add(1442695040888963407);
        let parts = 1 + ((state >> 40) % 17) as usize;
        // few distinct keys, so that ties are common; the tag tells the side
        let left: Vec<(u64, bool, usize)> =
            sorted_values(n, round).iter().enumerate().map(|(i, v)| (v / 16, false, i)).collect();
        let right: Vec<(u64, bool, usize)> =
            sorted_values(m, round + 1000).iter().enumerate().map(|(i, v)| (v / 16, true, i)).collect();
        let mut reference: Vec<(u64, bool, usize)> = left.iter().chain(right.iter()).cloned().collect();
        reference.sort();
        let mut sequential = Vec::new();
        seq_merge_by_key(&left, &right, &mut sequential, |item| item.0);
        assert_eq!(sequential, reference);
        let parallel = par_merge_in_parts(&left, &right, parts, &|a: &(u64, bool, usize), b: &(u64, bool, usize)| {
            a.0 <= b.0
        });
        assert_eq!(parallel, reference);
    }
}
