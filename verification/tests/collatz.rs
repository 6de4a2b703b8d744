use life_collatz::collatz::CollatzCalculator;

#[test]
fn test_sequence_1() {
    let calc = CollatzCalculator::new();
    let sequence = calc.calculate_sequence(1);
    assert_eq!(sequence, vec![1]);
    assert_eq!(calc.get_sequence_length(1), 1);
}

#[test]
fn test_sequence_2() {
    let calc = CollatzCalculator::new();
    let sequence = calc.calculate_sequence(2);
    assert_eq!(sequence, vec![2, 1]);
    assert_eq!(calc.get_sequence_length(2), 2);
}

#[test]
fn test_sequence_3() {
    let calc = CollatzCalculator::new();
    let sequence = calc.calculate_sequence(3);
    assert_eq!(sequence, vec![3, 10, 5, 16, 8, 4, 2, 1]);
    assert_eq!(calc.get_sequence_length(3), 8);
}

#[test]
fn test_sequence_4() {
    let calc = CollatzCalculator::new();
    let sequence = calc.calculate_sequence(4);
    assert_eq!(sequence, vec![4, 2, 1]);
    assert_eq!(calc.get_sequence_length(4), 3);
}

#[test]
fn test_length_of_zero_is_zero() {
    let calc = CollatzCalculator::new();
    assert_eq!(calc.get_sequence_length(0), 0);
    assert_eq!(calc.calculate_sequence(0), Vec::<u64>::new());
}

#[test]
fn test_length_matches_sequence_length() {
    let calc = CollatzCalculator::new();
    for n in 1..200u64 {
        let sequence = calc.calculate_sequence(n);
        assert_eq!(calc.get_sequence_length(n), sequence.len());
        assert_eq!(*sequence.last().unwrap(), 1);
        assert_eq!(sequence[0], n);
    }
}

#[test]
fn test_overflow_truncates_silently() {
    let calc = CollatzCalculator::new();
    // u64::MAX is odd and 3 * u64::MAX + 1 does not fit, so the sequence
    // stops at its very first element instead of erroring.
    let sequence = calc.calculate_sequence(u64::MAX);
    assert_eq!(sequence, vec![u64::MAX]);
    assert_eq!(calc.get_sequence_length(u64::MAX), 1);
}

#[test]
fn test_max_sequence_info_limit_4() {
    let calc = CollatzCalculator::new();
    // Among 1..=4 the start 3 has the longest chain, of length 8.
    assert_eq!(calc.find_max_sequence_info(4), vec![3, 8]);
}

#[test]
fn test_max_sequence_info_limit_1() {
    let calc = CollatzCalculator::new();
    assert_eq!(calc.find_max_sequence_info(1), vec![1, 1]);
}

#[test]
fn test_max_sequence_info_first_wins_ties() {
    let calc = CollatzCalculator::new();
    // 18 and 19 both have chains of length 21, the longest among 1..=19;
    // the earlier start keeps the title.
    assert_eq!(calc.get_sequence_length(18), 21);
    assert_eq!(calc.get_sequence_length(19), 21);
    assert_eq!(calc.find_max_sequence_info(19), vec![18, 21]);
}

#[test]
fn test_multiple_sequences_flat_encoding() {
    let calc = CollatzCalculator::new();
    let out = calc.calculate_multiple_sequences(vec![1, 2, 3]);
    assert_eq!(
        out,
        vec![1, 1, 2, 2, 1, 8, 3, 10, 5, 16, 8, 4, 2, 1]
    );
}

#[test]
fn test_multiple_sequences_empty_input() {
    let calc = CollatzCalculator::new();
    assert_eq!(calc.calculate_multiple_sequences(Vec::new()), Vec::<u64>::new());
}
