use io_partitions::{
    block_qualifies, block_with_label, count_partitions, get_input_output_partitions,
    CandidateError,
};

fn candidates(values: &[u64], input_len: usize) -> Vec<Vec<u32>> {
    get_input_output_partitions(&values.to_vec(), input_len).unwrap()
}

#[test]
fn it_works() {
    // Inputs are the indices below `input_len`; the rest are outputs.
    let set: Vec<u64> = vec![100, 200, 300];
    let input_len = 1;
    let partitions = get_input_output_partitions(&set, input_len).unwrap();
    println!("{:?}", partitions);
    // 100 on the input side balances none of 200, 300 and 500.
    assert_eq!(partitions.len(), 0);

    let set: Vec<u64> = vec![300, 200, 200, 300];
    let input_len = 1;
    let partitions = get_input_output_partitions(&set, input_len).unwrap();
    println!("{:?}", partitions);
    assert_eq!(partitions.len(), 1);

    let set: Vec<u64> = vec![100, 100, 100, 100, 300, 100];
    let input_len = 3;
    let partitions = get_input_output_partitions(&set, input_len).unwrap();
    println!("{:?}", partitions);
    assert_eq!(partitions.len(), 10);
}

#[test]
fn two_inputs_balance_one_output() {
    assert_eq!(candidates(&[100, 200, 300], 2), vec![vec![0, 1, 2]]);
}

#[test]
fn single_input_matches_equal_output() {
    assert_eq!(candidates(&[300, 200, 200, 300], 1), vec![vec![0, 3]]);
    assert_eq!(
        candidates(&[300, 200, 200, 300], 2),
        vec![vec![0, 1, 2, 3], vec![0, 3], vec![1, 2]]
    );
}

#[test]
fn ten_candidates_in_lexicographic_order() {
    let expected: Vec<Vec<u32>> = vec![
        vec![0, 1, 2, 4],
        vec![0, 1, 3, 5],
        vec![0, 2, 3, 5],
        vec![0, 3],
        vec![0, 5],
        vec![1, 2, 3, 5],
        vec![1, 3],
        vec![1, 5],
        vec![2, 3],
        vec![2, 5],
    ];
    assert_eq!(candidates(&[100, 100, 100, 100, 300, 100], 3), expected);
}

#[test]
fn zero_values_balance() {
    assert_eq!(candidates(&[0, 0], 1), vec![vec![0, 1]]);
}

#[test]
fn large_values_do_not_overflow() {
    let m = u64::MAX;
    assert_eq!(candidates(&[m, m, m, m], 2), vec![vec![0, 1, 2, 3], vec![0, 2], vec![0, 3], vec![1, 2], vec![1, 3]]);
}

#[test]
fn same_inputs_give_same_result() {
    let values = vec![5, 3, 2, 4, 1, 5];
    let first = get_input_output_partitions(&values, 3);
    let second = get_input_output_partitions(&values, 3);
    assert_eq!(first, second);
    assert!(!first.unwrap().is_empty());
}

#[test]
fn no_inputs_or_no_outputs_give_nothing() {
    let values = vec![1, 1, 2, 2];
    assert_eq!(candidates(&values, 0), Vec::<Vec<u32>>::new());
    assert_eq!(candidates(&values, 4), Vec::<Vec<u32>>::new());
    assert_eq!(candidates(&[], 0), Vec::<Vec<u32>>::new());
}

#[test]
fn boundary_past_end_is_refused() {
    let values = vec![1, 1, 2];
    assert_eq!(
        get_input_output_partitions(&values, 4),
        Err(CandidateError::InvalidBoundary { input_len: 4, len: 3 })
    );
    assert_eq!(
        get_input_output_partitions(&Vec::new(), 1),
        Err(CandidateError::InvalidBoundary { input_len: 1, len: 0 })
    );
}

#[test]
fn partition_counts_are_bell_numbers() {
    let bell: [u64; 9] = [1, 1, 2, 5, 15, 52, 203, 877, 4140];
    for (n, b) in bell.iter().enumerate() {
        assert_eq!(count_partitions(n), Some(*b));
    }
}

#[test]
fn one_sided_blocks_never_qualify() {
    let values = [7, 7, 7, 7];
    assert!(!block_qualifies(&values, 2, &[0, 1]));
    assert!(!block_qualifies(&values, 2, &[2, 3]));
    assert!(block_qualifies(&values, 2, &[1, 2]));
}

#[test]
fn sums_must_match_exactly() {
    assert!(block_qualifies(&[100, 200, 300], 2, &[0, 1, 2]));
    assert!(!block_qualifies(&[101, 200, 300], 2, &[0, 1, 2]));
    assert!(!block_qualifies(&[99, 200, 300], 2, &[0, 1, 2]));
    assert!(!block_qualifies(&[100, 200, 301], 2, &[0, 1, 2]));
}

#[test]
fn blocks_come_from_labels() {
    let labels = [0, 1, 0, 2, 1];
    assert_eq!(block_with_label(&labels, 0), vec![0, 2]);
    assert_eq!(block_with_label(&labels, 1), vec![1, 4]);
    assert_eq!(block_with_label(&labels, 2), vec![3]);
    assert_eq!(block_with_label(&labels, 3), Vec::<u32>::new());
}
