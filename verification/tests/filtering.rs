use cleansrt::caption::{Caption, Timestamp};
use cleansrt::engine::{apply, apply_checked};
use cleansrt::matcher::ExclusionSet;

fn ts(h: u8, m: u8, s: u8, ms: u16) -> Timestamp {
    Timestamp { hours: h, minutes: m, seconds: s, millis: ms }
}

fn cap(num: usize, text: &str) -> Caption {
    Caption {
        num,
        start: ts(0, 0, num as u8, 0),
        end: ts(0, 0, num as u8, 500),
        text: text.as_bytes().to_vec(),
    }
}

#[test]
fn filters_and_renumbers_five_captions() {
    // captions numbered 1..5 with texts [A, B, A, C, D], excluding {A}:
    // B, C, D survive and are renumbered 1, 2, 3
    let caps = vec![cap(1, "A"), cap(2, "B"), cap(3, "A"), cap(4, "C"), cap(5, "D")];
    let ex = ExclusionSet::from_literal(&b"A".to_vec());
    let out = apply(&caps, &ex);
    assert_eq!(out.len(), 3);
    assert_eq!(out[0].num, 1);
    assert_eq!(out[0].text, b"B".to_vec());
    assert_eq!(out[1].num, 2);
    assert_eq!(out[1].text, b"C".to_vec());
    assert_eq!(out[2].num, 3);
    assert_eq!(out[2].text, b"D".to_vec());
}

#[test]
fn no_match_leaves_collection_unchanged() {
    let caps = vec![cap(1, "one"), cap(2, "two"), cap(3, "three")];
    let ex = ExclusionSet::from_literal(&b"absent".to_vec());
    let out = apply(&caps, &ex);
    assert_eq!(out.len(), 3);
    for (a, b) in caps.iter().zip(out.iter()) {
        assert_eq!(a, b);
    }
}

#[test]
fn all_matching_yields_empty_output() {
    let caps = vec![cap(1, "gone"), cap(2, "gone"), cap(3, "gone")];
    let ex = ExclusionSet::from_literal(&b"gone".to_vec());
    let out = apply(&caps, &ex);
    assert_eq!(out.len(), 0);
}

#[test]
fn empty_input_yields_empty_output() {
    let caps: Vec<Caption> = Vec::new();
    let ex = ExclusionSet::from_literal(&b"A".to_vec());
    let out = apply(&caps, &ex);
    assert_eq!(out.len(), 0);
}

#[test]
fn applying_twice_equals_applying_once() {
    let caps = vec![cap(1, "A"), cap(2, "B"), cap(3, "A"), cap(4, "C"), cap(5, "D")];
    let ex = ExclusionSet::from_literal(&b"A".to_vec());
    let once = apply(&caps, &ex);
    let twice = apply(&once, &ex);
    assert_eq!(once.len(), twice.len());
    for (a, b) in once.iter().zip(twice.iter()) {
        assert_eq!(a, b);
    }
}

#[test]
fn first_entry_passthrough_keeps_small_numbers() {
    // a surviving caption whose original number is at most 1 keeps it
    let caps = vec![cap(1, "keep"), cap(2, "drop"), cap(3, "keep")];
    let ex = ExclusionSet::from_literal(&b"drop".to_vec());
    let out = apply(&caps, &ex);
    assert_eq!(out.len(), 2);
    assert_eq!(out[0].num, 1);
    assert_eq!(out[1].num, 2);
}

#[test]
fn renumbering_below_zero_is_rejected() {
    // three drops before a caption numbered 2: 2 - 3 has no machine value
    let caps = vec![cap(10, "A"), cap(11, "A"), cap(12, "A"), cap(2, "B")];
    let ex = ExclusionSet::from_literal(&b"A".to_vec());
    assert!(apply_checked(&caps, &ex).is_none());
}

#[test]
fn renumbering_in_range_is_accepted() {
    let caps = vec![cap(1, "A"), cap(2, "B")];
    let ex = ExclusionSet::from_literal(&b"A".to_vec());
    let out = apply_checked(&caps, &ex).unwrap();
    assert_eq!(out.len(), 1);
    assert_eq!(out[0].num, 1);
    assert_eq!(out[0].text, b"B".to_vec());
}

#[test]
fn multiline_exclusion_matches_whole_text_only() {
    // the literal escape \n must match a two-line caption exactly, and
    // must not match a caption holding only its first line
    let ex = ExclusionSet::from_literal(&b"Copyright\\nAll rights reserved".to_vec());
    assert!(ex.matches(&b"Copyright\nAll rights reserved".to_vec()));
    assert!(!ex.matches(&b"Copyright".to_vec()));
    assert!(!ex.matches(&b"Copyright\nAll rights reserved\n".to_vec()));
}

#[test]
fn matching_is_exact_not_substring() {
    let ex = ExclusionSet::from_literal(&b"Copyright".to_vec());
    assert!(ex.matches(&b"Copyright".to_vec()));
    assert!(!ex.matches(&b"Copyright 2020".to_vec()));
    assert!(!ex.matches(&b"copyright".to_vec()));
}

#[test]
fn exclusions_from_lines_unescape_each_line() {
    let lines = vec![b"one".to_vec(), b"a\\nb".to_vec()];
    let ex = ExclusionSet::from_lines(&lines);
    assert!(ex.matches(&b"one".to_vec()));
    assert!(ex.matches(&b"a\nb".to_vec()));
    assert!(!ex.matches(&b"a\\nb".to_vec()));
}

#[test]
fn duplicate_exclusion_entries_count_a_caption_once() {
    // a caption matching two equal entries is still one removal
    let lines = vec![b"A".to_vec(), b"A".to_vec()];
    let ex = ExclusionSet::from_lines(&lines);
    let caps = vec![cap(1, "A"), cap(2, "B")];
    let out = apply(&caps, &ex);
    assert_eq!(out.len(), 1);
    assert_eq!(out[0].num, 1);
    assert_eq!(out[0].text, b"B".to_vec());
}

#[test]
fn empty_exclusion_set_matches_nothing() {
    let ex = ExclusionSet::new();
    assert!(!ex.matches(&b"".to_vec()));
    assert!(!ex.matches(&b"anything".to_vec()));
}
