use lang_summary::verticals::{get_num_of_verticals, normalize_to_NUM_OF_VERTICALS, NUM_OF_VERTICALS};

/// Percentages in hundredths of a percent; `None` where undefined.
fn hundredths(percentages: &[f64]) -> Vec<Option<usize>> {
    percentages.iter().map(|p| if p.is_nan() { None } else { Some((p * 100.0).round() as usize) }).collect()
}

#[test]
fn test_normalize() {
    let mut verticals = vec![18, 15, 19, 1];
    normalize_to_NUM_OF_VERTICALS(&mut verticals, 53);
    assert_eq!(vec![16, 15, 18, 1], verticals);
    assert!(verticals.iter().sum::<usize>() == 50);

    let mut verticals = vec![17, 17, 18, 1];
    normalize_to_NUM_OF_VERTICALS(&mut verticals, 53);
    assert_eq!(vec![16, 16, 17, 1], verticals);
    assert!(verticals.iter().sum::<usize>() == 50);

    let mut verticals = vec![16, 15, 16, 1];
    normalize_to_NUM_OF_VERTICALS(&mut verticals, 48);
    assert_eq!(vec![17, 15, 17, 1], verticals);
    assert!(verticals.iter().sum::<usize>() == 50);

    let mut verticals = vec![18, 16, 17];
    normalize_to_NUM_OF_VERTICALS(&mut verticals, 51);
    assert_eq!(vec![17, 16, 17], verticals);
    assert!(verticals.iter().sum::<usize>() == 50);

    let mut verticals = vec![25, 26];
    normalize_to_NUM_OF_VERTICALS(&mut verticals, 51);
    assert_eq!(vec![25, 25], verticals);
    assert!(verticals.iter().sum::<usize>() == 50);
}

#[test]
fn test_get_num_of_verticals() {
    let percentages = vec![49.6, 50.4];
    let verticals = get_num_of_verticals(&hundredths(&percentages));
    assert!(verticals.iter().sum::<usize>() == 50);
    assert_eq!(vec![25, 25], verticals);

    let percentages = vec![0.0, 100.0];
    let verticals = get_num_of_verticals(&hundredths(&percentages));
    assert!(verticals.iter().sum::<usize>() == 50);
    assert_eq!(vec![0, 50], verticals);

    let percentages = vec![33.33, 33.33, 33.34];
    assert_eq!(vec![16, 17, 17], get_num_of_verticals(&hundredths(&percentages)));

    let percentages = vec![0.3, 65.67, 34.3];
    let verticals = get_num_of_verticals(&hundredths(&percentages));
    assert!(verticals.iter().sum::<usize>() == 50);
    assert_eq!(vec![1, 32, 17], verticals);

    let percentages = vec![0.0, 0.0, 100.0];
    let verticals = get_num_of_verticals(&hundredths(&percentages));
    assert!(verticals.iter().sum::<usize>() == 50);
    assert_eq!(vec![0, 0, 50], verticals);

    let percentages = vec![0.2, 49.9, 49.9];
    let verticals = get_num_of_verticals(&hundredths(&percentages));
    assert!(verticals.iter().sum::<usize>() == 50);
    assert_eq!(vec![1, 24, 25], verticals);

    let percentages = vec![12.5, 50.0, 25.0, 12.5];
    let verticals = get_num_of_verticals(&hundredths(&percentages));
    assert!(verticals.iter().sum::<usize>() == 50);
    assert_eq!(vec![6, 25, 13, 6], verticals);

    let percentages = vec![0.1, 0.1, 49.9, 49.9];
    let verticals = get_num_of_verticals(&hundredths(&percentages));
    assert!(verticals.iter().sum::<usize>() == 50);
    assert_eq!(vec![1, 1, 24, 24], verticals);
}

#[test]
fn normalize_spreads_when_the_largest_is_far_ahead() {
    // Under by two: the largest gets one; being far ahead, the second gets the other.
    let mut verticals = vec![10, 38];
    normalize_to_NUM_OF_VERTICALS(&mut verticals, 48);
    assert_eq!(vec![11, 39], verticals);
}

#[test]
fn normalize_lowers_the_second_when_close() {
    // Over by three: the largest drops once, then the second while they are close.
    let mut verticals = vec![27, 26];
    normalize_to_NUM_OF_VERTICALS(&mut verticals, 53);
    assert_eq!(NUM_OF_VERTICALS, verticals.iter().sum::<usize>());
    assert_eq!(vec![26, 24], verticals);
}

#[test]
fn normalize_single_entry_off_by_one() {
    let mut verticals = vec![51];
    normalize_to_NUM_OF_VERTICALS(&mut verticals, 51);
    assert_eq!(vec![50], verticals);
    let mut verticals = vec![49];
    normalize_to_NUM_OF_VERTICALS(&mut verticals, 49);
    assert_eq!(vec![50], verticals);
}

#[test]
fn verticals_of_small_and_undefined_shares() {
    // A share that rounds to no bar still gets one bar.
    let verticals = get_num_of_verticals(&[Some(10), Some(9990)]);
    assert_eq!(vec![1, 49], verticals);
    // Exactly halfway rounds up: 49.0% is 24.5 bars, shown as 25.
    let verticals = get_num_of_verticals(&[Some(4900), Some(5100)]);
    assert_eq!(vec![25, 25], verticals);
    assert_eq!(50, verticals.iter().sum::<usize>());
}

#[test]
fn undefined_percentages_start_from_one_bar_each() {
    let verticals = get_num_of_verticals(&hundredths(&[f64::NAN, f64::NAN]));
    assert_eq!(vec![28, 22], verticals);
    let verticals = get_num_of_verticals(&[None, None, None]);
    assert_eq!(vec![27, 21, 2], verticals);
}

#[test]
fn tied_largest_counts_move_leftmost_first() {
    let mut verticals = vec![17, 17, 17];
    normalize_to_NUM_OF_VERTICALS(&mut verticals, 51);
    assert_eq!(vec![16, 17, 17], verticals);
    let mut verticals = vec![16, 16, 16, 1];
    normalize_to_NUM_OF_VERTICALS(&mut verticals, 49);
    assert_eq!(vec![17, 16, 16, 1], verticals);
}

#[test]
fn counts_only_move_towards_the_target() {
    let before = vec![30, 5, 5, 5, 8];
    let mut verticals = before.clone();
    normalize_to_NUM_OF_VERTICALS(&mut verticals, 53);
    assert_eq!(vec![27, 5, 5, 5, 8], verticals);
    assert!(verticals.iter().zip(before.iter()).all(|(after, b)| after <= b));
}

#[test]
fn tied_largest_counts_can_end_apart() {
    // Both 20s move first, then the first keeps growing while it is close to the second.
    let mut verticals = vec![20, 20, 5];
    normalize_to_NUM_OF_VERTICALS(&mut verticals, 45);
    assert_eq!(vec![24, 21, 5], verticals);
}
