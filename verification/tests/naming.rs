//! Tests of stored-name collision resolution.

use rustdrive::naming::get_file_name;

fn names(ns: &[&str]) -> Vec<String> {
    ns.iter().map(|n| n.to_string()).collect()
}

#[test]
fn free_candidate_is_kept() {
    let existing = names(&["other.txt"]);
    assert_eq!(get_file_name(Some("a.txt"), &existing), "a.txt");
}

#[test]
fn missing_name_component_falls_back() {
    assert_eq!(get_file_name(None, &Vec::new()), "file.txt");
    let existing = names(&["file.txt"]);
    assert_eq!(get_file_name(None, &existing), "1_file.txt");
}

#[test]
fn collision_takes_counter_one() {
    let existing = names(&["a.txt"]);
    assert_eq!(get_file_name(Some("a.txt"), &existing), "1_a.txt");
}

#[test]
fn collision_skips_taken_prefixes() {
    let existing = names(&["x", "1_x", "2_x"]);
    assert_eq!(get_file_name(Some("x"), &existing), "3_x");
}

#[test]
fn collision_takes_smallest_gap() {
    let existing = names(&["x", "2_x", "3_x"]);
    assert_eq!(get_file_name(Some("x"), &existing), "1_x");
}

#[test]
fn counter_past_nine_uses_two_digits() {
    let mut existing = vec!["x".to_string()];
    for i in 1..=10u32 {
        existing.push(format!("{}_x", i));
    }
    assert_eq!(get_file_name(Some("x"), &existing), "11_x");
}
