use combinations::{CombinationError, Combinations};

fn all(source: Vec<i64>, len: usize) -> Vec<Vec<i64>> {
    let mut g = Combinations::new(source, len).unwrap_or_else(|_| panic!("invalid length"));
    let mut out = Vec::new();
    while let Some(c) = g.next() {
        out.push(c);
    }
    out
}

#[test]
fn equals() {
    let mut g = Combinations::new(vec![2, 2, 2], 2).unwrap_or_else(|_| panic!("invalid length"));
    assert!(g.next().unwrap() == vec![2, 2])
}

#[test]
fn t_123() {
    let mut g = Combinations::new(vec![1, 2, 3], 2).unwrap_or_else(|_| panic!("invalid length"));
    let mut taken = Vec::new();
    while taken.len() < 10 {
        match g.next() {
            Some(c) => taken.push(c),
            None => break,
        }
    }
    assert!(taken == vec![vec![1, 2], vec![1, 3], vec![2, 3]])
}

#[test]
fn complicated() {
    let actual = all(vec![1, 2, 2, 3, 4], 3);
    let expected = vec![
        vec![1, 2, 2],
        vec![1, 2, 3],
        vec![1, 2, 4],
        vec![1, 3, 4],
        vec![2, 2, 3],
        vec![2, 2, 4],
        vec![2, 3, 4],
    ];
    assert!(actual == expected)
}

#[test]
fn all_equal_values_give_one_combination() {
    assert_eq!(all(vec![2, 2, 2], 2), vec![vec![2, 2]]);
}

#[test]
fn length_equal_to_source_is_rejected() {
    assert!(matches!(
        Combinations::new(vec![1, 2], 2),
        Err(CombinationError::InvalidCombinationLength)
    ));
}

#[test]
fn length_zero_is_rejected() {
    assert!(matches!(
        Combinations::new(vec![1, 2, 3], 0),
        Err(CombinationError::InvalidCombinationLength)
    ));
}

#[test]
fn length_above_source_is_rejected() {
    assert!(matches!(
        Combinations::new(vec![1, 2, 3], 5),
        Err(CombinationError::InvalidCombinationLength)
    ));
    assert!(matches!(
        Combinations::new(Vec::new(), 1),
        Err(CombinationError::InvalidCombinationLength)
    ));
}

#[test]
fn valid_lengths_are_accepted() {
    for k in 1..4 {
        assert!(Combinations::new(vec![4, 3, 2, 1], k).is_ok());
    }
}

#[test]
fn unsorted_source_is_sorted_first() {
    assert_eq!(all(vec![5, 1, 3], 1), vec![vec![1], vec![3], vec![5]]);
}

#[test]
fn exhaustion_is_final() {
    let mut g = Combinations::new(vec![1, 2, 3], 2).unwrap_or_else(|_| panic!("invalid length"));
    let mut comb = Vec::new();
    assert!(g.next_combination(&mut comb));
    assert_eq!(comb, vec![1, 2]);
    assert!(g.next_combination(&mut comb));
    assert_eq!(comb, vec![1, 3]);
    assert!(g.next_combination(&mut comb));
    assert_eq!(comb, vec![2, 3]);
    assert!(!g.next_combination(&mut comb));
    assert!(!g.next_combination(&mut comb));
    assert!(g.next().is_none());
}

#[test]
fn next_combination_replaces_buffer_contents() {
    let mut g = Combinations::new(vec![3, 1, 2], 2).unwrap_or_else(|_| panic!("invalid length"));
    let mut comb = vec![9, 9, 9, 9];
    assert!(g.next_combination(&mut comb));
    assert_eq!(comb, vec![1, 2]);
}

#[test]
fn fresh_generators_agree() {
    assert_eq!(all(vec![3, 1, 2, 2, 5, 1], 3), all(vec![3, 1, 2, 2, 5, 1], 3));
    assert_eq!(all(vec![3, 1, 2, 2, 5, 1], 3), all(vec![1, 1, 2, 2, 3, 5], 3));
}

#[test]
fn output_strictly_increasing_without_repeats() {
    let out = all(vec![4, 1, 4, 2, 1, 4, 3], 3);
    for w in out.windows(2) {
        assert!(w[0] < w[1]);
    }
    for c in &out {
        assert_eq!(c.len(), 3);
    }
}

#[test]
fn count_matches_distinct_combinations() {
    // [1,1,2,2,3], k = 2: 11 12 13 22 23
    let out = all(vec![2, 1, 3, 1, 2], 2);
    assert_eq!(
        out,
        vec![vec![1, 1], vec![1, 2], vec![1, 3], vec![2, 2], vec![2, 3]]
    );
    // distinct values only: binomial(5, 3) = 10
    assert_eq!(all(vec![1, 2, 3, 4, 5], 3).len(), 10);
}

#[test]
fn negative_and_extreme_values() {
    let out = all(vec![i64::MAX, i64::MIN, 0, -1], 2);
    assert_eq!(
        out,
        vec![
            vec![i64::MIN, -1],
            vec![i64::MIN, 0],
            vec![i64::MIN, i64::MAX],
            vec![-1, 0],
            vec![-1, i64::MAX],
            vec![0, i64::MAX],
        ]
    );
}
