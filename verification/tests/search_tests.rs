use kanjidle::search::{multi_cartesian_diagonal, split};
use std::collections::HashMap;

fn cartesian_diagonal(n1: usize, n2: usize) -> Vec<Vec<usize>> {
    let mut out = Vec::new();
    for i in 0..=(n1 + n2) {
        for j in 0..=i {
            let i2 = i - j;
            if i2 < n1 && j < n2 {
                out.push(vec![i2, j]);
            }
        }
    }
    out
}

fn cartesian_diagonal_3d(n1: usize, n2: usize, n3: usize) -> Vec<Vec<usize>> {
    let mut out = Vec::new();
    for i in 0..=(n1 + n2 + n3) {
        for j in 0..=i {
            let i2 = i - j;
            for k in 0..=j {
                let j2 = j - k;
                if i2 < n1 && j2 < n2 && k < n3 {
                    out.push(vec![i2, j2, k]);
                }
            }
        }
    }
    out
}

fn sums_non_decreasing(ixes: &[Vec<usize>]) -> bool {
    ixes.windows(2).all(|w| w[0].iter().sum::<usize>() <= w[1].iter().sum::<usize>())
}

fn sum_counts(ixes: &[Vec<usize>]) -> HashMap<usize, usize> {
    let mut counts = HashMap::new();
    for x in ixes {
        *counts.entry(x.iter().sum::<usize>()).or_insert(0) += 1;
    }
    counts
}

#[test]
fn multi_cartesian_diagonal_2d() {
    let ixes1 = cartesian_diagonal(3, 4);
    assert_eq!(ixes1.len(), 3 * 4);
    assert!(sums_non_decreasing(&ixes1));
    let expected: HashMap<usize, usize> =
        [(0, 1), (1, 2), (2, 3), (3, 3), (4, 2), (5, 1)].into_iter().collect();
    assert_eq!(sum_counts(&ixes1), expected);

    let ixes2 = multi_cartesian_diagonal(&vec![3, 4]);
    assert_eq!(ixes1, ixes2);
}

#[test]
fn multi_cartesian_diagonal_3d() {
    let ixes1 = cartesian_diagonal_3d(3, 4, 5);
    assert_eq!(ixes1.len(), 3 * 4 * 5);
    assert!(sums_non_decreasing(&ixes1));
    let expected: HashMap<usize, usize> = [
        (0, 1),
        (1, 3),
        (2, 6),
        (3, 9),
        (4, 11),
        (5, 11),
        (6, 9),
        (7, 6),
        (8, 3),
        (9, 1),
    ]
    .into_iter()
    .collect();
    assert_eq!(sum_counts(&ixes1), expected);

    let ixes2 = multi_cartesian_diagonal(&vec![3, 4, 5]);
    assert_eq!(ixes1, ixes2);
}

#[test]
fn multi_cartesian_diagonal_nd() {
    let ixes = multi_cartesian_diagonal(&vec![3, 4, 5, 2, 1, 10]);
    assert_eq!(ixes.len(), 3 * 4 * 5 * 2 * 1 * 10);
    assert!(sums_non_decreasing(&ixes));
}

#[test]
fn diagonal_distinct_tuples() {
    let ixes = multi_cartesian_diagonal(&vec![2, 3, 2]);
    assert_eq!(ixes.len(), 12);
    for a in 0..ixes.len() {
        for b in (a + 1)..ixes.len() {
            assert_ne!(ixes[a], ixes[b]);
        }
    }
    for x in &ixes {
        assert_eq!(x.len(), 3);
        assert!(x[0] < 2 && x[1] < 3 && x[2] < 2);
    }
}

#[test]
fn split_even_and_uneven() {
    let items: Vec<u32> = (0..10).collect();
    let chunks = split(&items, 3);
    assert_eq!(chunks.len(), 3);
    assert_eq!(chunks[0], vec![0, 1, 2, 3]);
    assert_eq!(chunks[1], vec![4, 5, 6]);
    assert_eq!(chunks[2], vec![7, 8, 9]);

    let even = split(&items, 5);
    assert_eq!(even.len(), 5);
    for c in &even {
        assert_eq!(c.len(), 2);
    }
}

#[test]
fn split_concatenates_back() {
    for n in 1..8usize {
        for len in 0..12usize {
            let items: Vec<usize> = (0..len).collect();
            let chunks = split(&items, n);
            assert_eq!(chunks.len(), n);
            let flat: Vec<usize> = chunks.iter().flatten().copied().collect();
            assert_eq!(flat, items);
            let mut lens: Vec<usize> = chunks.iter().map(|c| c.len()).collect();
            lens.sort();
            assert!(lens[lens.len() - 1] - lens[0] <= 1);
        }
    }
}

#[test]
fn split_fewer_items_than_chunks() {
    // one item per chunk, then empty surplus chunks, always n of them
    let items: Vec<u8> = vec![7, 8];
    let chunks = split(&items, 5);
    assert_eq!(chunks, vec![vec![7], vec![8], vec![], vec![], vec![]]);
}
