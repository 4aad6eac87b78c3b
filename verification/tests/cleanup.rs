use sticker_wall::cleanup::{cleanup_old_files_by_name, is_stale, timestamp_prefix};

const DAY: u64 = 24 * 60 * 60;

#[test]
fn prefix_of_a_composed_name() {
    assert_eq!(timestamp_prefix("1700000000_composed_horiz.webp"), Some(1_700_000_000));
    assert_eq!(timestamp_prefix("1700000000_composed_vert.webp.meta.json"), Some(1_700_000_000));
    assert_eq!(timestamp_prefix("0_"), Some(0));
    assert_eq!(timestamp_prefix("007_b"), Some(7));
    assert_eq!(timestamp_prefix("12__34"), Some(12));
    assert_eq!(timestamp_prefix("5_6_7"), Some(5));
}

#[test]
fn names_that_say_nothing_of_their_age() {
    for name in ["", "_", "_12", "123", "composed.webp", "abc_1.webp", "12a_b", "a12_b", " 12_b", "12 _b", "-12_b", "+12_b", "1.5_b", "١٢_b", "é_1"] {
        assert_eq!(timestamp_prefix(name), None, "{name:?}");
    }
}

#[test]
fn prefix_up_to_64_bits() {
    assert_eq!(timestamp_prefix("18446744073709551615_x"), Some(u64::MAX));
    assert_eq!(timestamp_prefix("18446744073709551616_x"), None);
    assert_eq!(timestamp_prefix("99999999999999999999999999999_x"), None);
    assert_eq!(timestamp_prefix("00000000000000000000000000001_x"), Some(1));
}

#[test]
fn stale_only_past_the_age() {
    let name = "1700000000_composed_horiz.webp";
    assert!(!is_stale(name, 1_700_000_000, DAY));
    assert!(!is_stale(name, 1_700_000_000 + DAY, DAY));
    assert!(is_stale(name, 1_700_000_000 + DAY + 1, DAY));
    assert!(is_stale(name, u64::MAX, DAY));
    assert!(is_stale(name, 1_700_000_001, 0));
    assert!(!is_stale(name, 1_700_000_000, 0));
}

#[test]
fn a_name_from_the_future_is_not_stale() {
    assert!(!is_stale("1700000000_x", 1_600_000_000, DAY));
    assert!(!is_stale("1700000000_x", 0, 0));
    assert!(!is_stale("18446744073709551615_x", u64::MAX, 0));
}

#[test]
fn other_names_are_never_stale() {
    assert!(!is_stale("notes.txt", u64::MAX, 0));
    assert!(!is_stale("bg_tiles.webp", u64::MAX, 0));
    assert!(!is_stale("18446744073709551616_x", u64::MAX, 0));
}

#[test]
fn cleanup_picks_the_stale_names() {
    let names: Vec<String> = [
        "1700000000_composed_horiz.webp",
        "bg_tiles.webp",
        "1700090000_composed_horiz.webp",
        "1700000000_composed_horiz.webp.meta.json",
        "clean",
        "1_old",
    ]
    .iter()
    .map(|s| s.to_string())
    .collect();
    assert_eq!(cleanup_old_files_by_name(&names, 1_700_100_000, DAY), vec![0, 3, 5]);
    assert_eq!(cleanup_old_files_by_name(&names, 1_700_100_000, 0), vec![0, 2, 3, 5]);
    assert_eq!(cleanup_old_files_by_name(&names, 1_700_000_000, DAY), vec![5]);
    assert_eq!(cleanup_old_files_by_name(&names, 0, DAY), Vec::<usize>::new());
    assert_eq!(cleanup_old_files_by_name(&Vec::new(), u64::MAX, 0), Vec::<usize>::new());
}
