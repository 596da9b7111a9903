use gcd_bench::summarize;

#[test]
fn summary_of_five_samples() {
    let r = summarize(vec![5, 1, 3, 9, 2]);
    assert_eq!(r.maximum, 9);
    assert_eq!(r.minimum, 1);
    assert_eq!(r.total, 20);
    let mean = r.total as f64 / r.times.len() as f64;
    assert_eq!(mean, 4.0);
    // Sorted ascending the samples read [1, 2, 3, 5, 9]; the median sits at
    // index 5 / 2 = 2.
    assert_eq!(r.median, 3);
    // The samples keep their original order.
    assert_eq!(r.times, vec![5, 1, 3, 9, 2]);
}

#[test]
fn median_of_even_length_takes_the_upper_middle() {
    let r = summarize(vec![4, 2, 6, 8]);
    // Sorted ascending the samples read [2, 4, 6, 8]; index 4 / 2 = 2 holds
    // the upper of the two middle elements, not their average.
    assert_eq!(r.median, 6);
    assert_eq!(r.maximum, 8);
    assert_eq!(r.minimum, 2);
    assert_eq!(r.total, 20);
}

#[test]
fn summary_of_a_single_sample() {
    let r = summarize(vec![42]);
    assert_eq!(r.maximum, 42);
    assert_eq!(r.minimum, 42);
    assert_eq!(r.total, 42);
    assert_eq!(r.median, 42);
}

#[test]
fn summary_of_equal_samples() {
    let r = summarize(vec![7, 7, 7, 7]);
    assert_eq!(r.maximum, 7);
    assert_eq!(r.minimum, 7);
    assert_eq!(r.total, 28);
    assert_eq!(r.median, 7);
}

#[test]
fn comparison_counts_wins_and_sums_savings() {
    let a = summarize(vec![1, 5, 3]);
    let b = summarize(vec![2, 4, 3]);
    let (wins, saved) = a.compare_to(&b);
    // Position 0: 1 <= 2, a win saving 1. Position 1: 5 > 4, no win.
    // Position 2: 3 <= 3, a win saving 0.
    assert_eq!(wins, 2);
    assert_eq!(saved, 1);
    let average_saved = saved as f64 / wins as f64;
    assert_eq!(average_saved, 0.5);
}

#[test]
fn comparison_with_no_wins() {
    let a = summarize(vec![9, 9]);
    let b = summarize(vec![1, 2]);
    let (wins, saved) = a.compare_to(&b);
    assert_eq!(wins, 0);
    assert_eq!(saved, 0);
}

#[test]
fn comparison_where_every_position_wins() {
    let a = summarize(vec![1, 2, 3, 4]);
    let b = summarize(vec![10, 20, 30, 40]);
    let (wins, saved) = a.compare_to(&b);
    assert_eq!(wins, 4);
    assert_eq!(saved, 9 + 18 + 27 + 36);
}

#[test]
fn comparison_is_positional_not_sorted() {
    // The comparison walks the samples in their original recorded order,
    // not in the sorted order the median uses.
    let a = summarize(vec![10, 1]);
    let b = summarize(vec![2, 9]);
    let (wins, saved) = a.compare_to(&b);
    assert_eq!(wins, 1);
    assert_eq!(saved, 8);
}
