use dsp::permutation::{apply, compute};

#[test]
fn computed_permutation_sorts_the_timestamps() {
    let stamps = vec![30, 10, 20, 10, -5];
    let p = compute(&stamps);
    assert_eq!(p.len(), stamps.len());
    let mut seen = p.clone();
    seen.sort();
    assert_eq!(seen, vec![0, 1, 2, 3, 4]);
    let ordered: Vec<i64> = p.iter().map(|i| stamps[*i]).collect();
    assert_eq!(ordered, vec![-5, 10, 10, 20, 30]);
}

#[test]
fn computed_permutation_of_nothing_is_empty() {
    assert_eq!(compute(&vec![]), Vec::<usize>::new());
}

#[test]
fn apply_gathers_from_the_named_rows() {
    let before = vec!['a', 'b', 'c', 'd', 'e'];
    let perm = vec![2, 0, 1, 4, 3];
    let mut data = before.clone();
    apply(&perm, &mut data);
    assert_eq!(data, vec!['c', 'a', 'b', 'e', 'd']);
    for i in 0..perm.len() {
        assert_eq!(data[i], before[perm[i]]);
    }
}

#[test]
fn apply_identity_and_single_cycle() {
    let mut data = vec![1u64, 2, 3];
    apply(&[0, 1, 2], &mut data);
    assert_eq!(data, vec![1, 2, 3]);
    apply(&[1, 2, 0], &mut data);
    assert_eq!(data, vec![2, 3, 1]);
    let mut nothing: Vec<i64> = vec![];
    apply(&[], &mut nothing);
    assert!(nothing.is_empty());
}

#[test]
fn sorting_a_column_by_its_own_permutation() {
    let stamps: Vec<i64> = (0..1000).map(|i| (i * 7919) % 1009).collect();
    let p = compute(&stamps);
    let mut sorted = stamps.clone();
    apply(&p, &mut sorted);
    assert!(sorted.windows(2).all(|w| w[0] <= w[1]));
    let mut expected = stamps.clone();
    expected.sort();
    assert_eq!(sorted, expected);
}
