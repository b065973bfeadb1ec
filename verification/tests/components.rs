use kasiski::divisors::get_factors;
use kasiski::freq::FreqTable;
use kasiski::matching::find_match_distances;
use kasiski::slices::get_slices;

#[test]
fn factors_of_twelve() {
    assert_eq!(get_factors(12), vec![1, 2, 3, 4, 6, 12]);
}

#[test]
fn factors_of_one() {
    assert_eq!(get_factors(1), vec![1]);
}

#[test]
fn factors_of_a_prime() {
    assert_eq!(get_factors(13), vec![1, 13]);
}

#[test]
fn factors_of_zero() {
    assert_eq!(get_factors(0), Vec::<usize>::new());
}

#[test]
fn slices_of_short_text() {
    let text = b"ABCD";
    let slices = get_slices(text, 2);
    assert_eq!(slices.len(), 3);
    assert_eq!(slices[0], b"AB" as &[u8]);
    assert_eq!(slices[1], b"BC" as &[u8]);
    assert_eq!(slices[2], b"CD" as &[u8]);
}

#[test]
fn slices_full_width() {
    let text = b"ABC";
    let slices = get_slices(text, 3);
    assert_eq!(slices.len(), 1);
    assert_eq!(slices[0], b"ABC" as &[u8]);
}

#[test]
fn slices_longer_than_text() {
    let text = b"ABC";
    let slices = get_slices(text, 4);
    assert!(slices.is_empty());
}

#[test]
fn one_repeat_one_distance() {
    let text = b"ABAB";
    let slices = get_slices(text, 2);
    let dists = find_match_distances(&slices);
    assert_eq!(dists, vec![2]);
}

#[test]
fn all_equal_slices_pair_once_each() {
    let text = b"AAA";
    let slices = get_slices(text, 1);
    // Pairs (0,1), (0,2), (1,2): first positions ascending, no self-match.
    let dists = find_match_distances(&slices);
    assert_eq!(dists, vec![1, 2, 1]);
}

#[test]
fn no_repeats_no_distances() {
    let text = b"ABCDEF";
    let slices = get_slices(text, 2);
    let dists = find_match_distances(&slices);
    assert!(dists.is_empty());
}

#[test]
fn table_counts_increments() {
    let mut table = FreqTable::new();
    table.increment(5);
    table.increment(5);
    table.increment(2);
    table.increment(5);
    assert_eq!(table.count(5), 3);
    assert_eq!(table.count(2), 1);
    assert_eq!(table.count(9), 0);
}

#[test]
fn rank_filters_both_thresholds() {
    let mut table = FreqTable::new();
    for _ in 0..10 {
        table.increment(2); // key below min_key_length
    }
    for _ in 0..2 {
        table.increment(8); // tally below min_duplicates
    }
    for _ in 0..5 {
        table.increment(6);
    }
    let report = table.rank(4, 4);
    assert_eq!(report, vec![(6, 5)]);
}

#[test]
fn rank_orders_by_frequency_then_key() {
    let mut table = FreqTable::new();
    for _ in 0..5 {
        table.increment(4);
    }
    for _ in 0..5 {
        table.increment(6); // same tally as 4: larger key first
    }
    for _ in 0..7 {
        table.increment(10); // highest tally first
    }
    let report = table.rank(4, 4);
    assert_eq!(report, vec![(10, 7), (6, 5), (4, 5)]);
}
