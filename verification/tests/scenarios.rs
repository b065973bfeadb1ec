use kasiski::pipeline::examine;
use kasiski::Config;

#[test]
fn periodic_ciphertext_recovers_key_length() {
    // A 5-character block repeated 6 times: every repeat distance is a
    // multiple of 5, so 5 must dominate the report.
    let text: Vec<u8> = b"ABCDE".iter().copied().cycle().take(30).collect();
    let report = examine(&text, &Config::default());
    assert!(!report.is_empty());
    assert_eq!(report[0].0, 5);
}

#[test]
fn text_below_twice_min_slice_length_is_empty() {
    let report = examine(b"ABC", &Config::default());
    assert!(report.is_empty());
}

#[test]
fn all_distinct_characters_give_empty_report() {
    let report = examine(b"ABCDEFGHIJKLMNOPQRST", &Config::default());
    assert!(report.is_empty());
}

#[test]
fn empty_ciphertext_gives_empty_report() {
    let report = examine(b"", &Config::default());
    assert!(report.is_empty());
}

#[test]
fn examination_is_deterministic() {
    let text: Vec<u8> = b"ABCDE".iter().copied().cycle().take(30).collect();
    let cfg = Config::default();
    let first = examine(&text, &cfg);
    let second = examine(&text, &cfg);
    assert_eq!(first, second);
}

#[test]
fn exact_report_on_uniform_text() {
    // "AAAA" with all thresholds at 1. Window length 2 gives distances
    // 1, 2, 1; window length 1 gives 1, 2, 3, 1, 2, 1. Divisor tallies:
    // candidate 1 nine times, candidate 2 three times, candidate 3 once.
    let cfg = Config { min_slice_length: 1, min_key_length: 1, min_duplicates: 1 };
    let report = examine(b"AAAA", &cfg);
    assert_eq!(report, vec![(1, 9), (2, 3), (3, 1)]);
}

#[test]
fn default_config_thresholds() {
    let cfg = Config::default();
    assert_eq!(cfg.min_slice_length, 2);
    assert_eq!(cfg.min_key_length, 4);
    assert_eq!(cfg.min_duplicates, 4);
}
