use sim_core::text::read_u32;
use sim_core::{build_probe, probe_args};

#[test]
fn independently_worked_probe_cases() {
    for (left, right, expected) in [
        (0, 0, 0),
        (17, 25, 42),
        (123, 456, 579),
        (u32::MAX, 1, 0),
        (u32::MAX, u32::MAX, 4_294_967_294),
    ] {
        assert_eq!(build_probe(left, right), expected);
    }
}

#[test]
fn probe_wraps_at_the_word_size() {
    assert_eq!(build_probe(u32::MAX - 1, 3), 1);
    assert_eq!(build_probe(1 << 31, 1 << 31), 0);
}

fn args(list: &[&str]) -> Vec<String> {
    list.iter().map(|s| s.to_string()).collect()
}

#[test]
fn probe_arguments_accept_values_and_reject_invalid_input() {
    for (list, expected) in [
        (vec!["17", "25"], Some(42)),
        (vec!["4294967295", "1"], Some(0)),
        (vec!["-1", "2"], None),
        (vec!["4294967296", "0"], None),
        (vec![], None),
    ] {
        assert_eq!(probe_args(&args(&list)).map(|(l, r)| build_probe(l, r)), expected);
    }
    assert_eq!(probe_args(&args(&["1", "2", "3"])), None);
    assert_eq!(probe_args(&args(&["7"])), None);
}

#[test]
fn u32_reading_matches_the_standard_library() {
    for text in [
        "0", "00", "+0", "+", "", "-0", "1", "+17", "007", "4294967295", "04294967295", "4294967296",
        "99999999999999999999", " 1", "1 ", "1e3", "12a", "a", "+-1", "++1",
    ] {
        assert_eq!(read_u32(text.as_bytes()), text.parse::<u32>().ok(), "{text:?}");
    }
}
