use sticker_wall::cleanup::{is_stale, timestamp_prefix};
use sticker_wall::model::InputData;
use sticker_wall::naming::{composed_name, decimal_string, output_name};

fn request(output_name: Option<&str>) -> InputData {
    InputData {
        background: "bg.webp".to_string(),
        stickers: Vec::new(),
        output_name: output_name.map(|s| s.to_string()),
    }
}

#[test]
fn decimal_of_small_numbers() {
    for n in 0..=110u64 {
        assert_eq!(decimal_string(n), n.to_string());
    }
}

#[test]
fn decimal_of_large_numbers() {
    assert_eq!(decimal_string(1_700_000_000), "1700000000");
    assert_eq!(decimal_string(9_999_999_999), "9999999999");
    assert_eq!(decimal_string(10_000_000_000), "10000000000");
    assert_eq!(decimal_string(u64::MAX), "18446744073709551615");
}

#[test]
fn composed_names_of_the_two_canvases() {
    assert_eq!(composed_name(1_700_000_000, false), "1700000000_composed_horiz.webp");
    assert_eq!(composed_name(1_700_000_000, true), "1700000000_composed_vert.webp");
    assert_eq!(composed_name(0, false), "0_composed_horiz.webp");
}

#[test]
fn output_name_prefers_the_requests_own() {
    assert_eq!(output_name(&request(Some("wall.webp")), 5, false), "wall.webp");
    assert_eq!(output_name(&request(Some("wall.webp")), 5, true), "wall.webp");
    assert_eq!(output_name(&request(Some("")), 5, true), "");
    assert_eq!(output_name(&request(None), 5, false), "5_composed_horiz.webp");
    assert_eq!(output_name(&request(None), 5, true), "5_composed_vert.webp");
}

#[test]
fn cleanup_reads_the_second_back_from_a_composed_name() {
    for stamp in [0, 1, 9, 10, 99, 100, 1_700_000_000, u64::MAX - 1, u64::MAX] {
        for swap in [false, true] {
            let name = composed_name(stamp, swap);
            assert_eq!(timestamp_prefix(&name), Some(stamp), "{name}");
            assert_eq!(timestamp_prefix(&format!("{name}.meta.json")), Some(stamp));
        }
    }
}

#[test]
fn a_composed_name_grows_stale() {
    let name = composed_name(1_000, false);
    assert!(!is_stale(&name, 1_000 + 60, 60));
    assert!(is_stale(&name, 1_000 + 61, 60));
}
