use cleansrt::caption::{Caption, Timestamp};
use cleansrt::codec::{parse, serialize};
use cleansrt::matcher::ExclusionSet;
use cleansrt::pipeline::{process_content, ProcessError};

fn ts(h: u8, m: u8, s: u8, ms: u16) -> Timestamp {
    Timestamp { hours: h, minutes: m, seconds: s, millis: ms }
}

#[test]
fn serializes_one_caption_exactly() {
    let caps = vec![Caption {
        num: 1,
        start: ts(1, 2, 3, 45),
        end: ts(1, 2, 4, 500),
        text: b"Hello".to_vec(),
    }];
    let out = serialize(&caps);
    assert_eq!(out, b"1\n01:02:03,045 --> 01:02:04,500\nHello\n\n".to_vec());
}

#[test]
fn parses_one_caption_exactly() {
    let input = b"12\n00:00:01,000 --> 00:00:02,500\nHello\nWorld\n\n".to_vec();
    let caps = parse(&input).unwrap();
    assert_eq!(caps.len(), 1);
    assert_eq!(caps[0].num, 12);
    assert_eq!(caps[0].start, ts(0, 0, 1, 0));
    assert_eq!(caps[0].end, ts(0, 0, 2, 500));
    assert_eq!(caps[0].text, b"Hello\nWorld".to_vec());
}

#[test]
fn serializing_then_parsing_returns_the_collection() {
    let caps = vec![
        Caption { num: 1, start: ts(0, 0, 1, 0), end: ts(0, 0, 2, 0), text: b"First".to_vec() },
        Caption {
            num: 2,
            start: ts(0, 0, 3, 250),
            end: ts(0, 0, 4, 999),
            text: b"Second line one\nline two".to_vec(),
        },
        Caption { num: 3, start: ts(10, 59, 59, 1), end: ts(11, 0, 0, 0), text: b"Third".to_vec() },
    ];
    let bytes = serialize(&caps);
    let back = parse(&bytes).unwrap();
    assert_eq!(back.len(), caps.len());
    for (a, b) in caps.iter().zip(back.iter()) {
        assert_eq!(a, b);
    }
}

#[test]
fn parses_empty_input_as_empty_collection() {
    let caps = parse(&Vec::new()).unwrap();
    assert_eq!(caps.len(), 0);
}

#[test]
fn rejects_non_digit_number_line() {
    assert!(parse(&b"x\n00:00:01,000 --> 00:00:02,500\nHello\n\n".to_vec()).is_none());
}

#[test]
fn rejects_minutes_above_fifty_nine() {
    assert!(parse(&b"1\n00:75:01,000 --> 00:00:02,500\nHello\n\n".to_vec()).is_none());
}

#[test]
fn rejects_malformed_time_range_line() {
    assert!(parse(&b"1\n00:00:01,000 -> 00:00:02,500\nHello\n\n".to_vec()).is_none());
    assert!(parse(&b"1\n00:00:01.000 --> 00:00:02,500\nHello\n\n".to_vec()).is_none());
}

#[test]
fn rejects_missing_blank_separator() {
    assert!(parse(&b"1\n00:00:01,000 --> 00:00:02,500\nHello\n".to_vec()).is_none());
}

#[test]
fn rejects_empty_text() {
    assert!(parse(&b"1\n00:00:01,000 --> 00:00:02,500\n\n\n".to_vec()).is_none());
}

#[test]
fn processes_a_document_end_to_end() {
    let input = b"1\n00:00:01,000 --> 00:00:02,000\nAd\n\n\
2\n00:00:03,000 --> 00:00:04,000\nKeep me\n\n\
3\n00:00:05,000 --> 00:00:06,000\nAd\n\n\
4\n00:00:07,000 --> 00:00:08,000\nAnd me\n\n"
        .to_vec();
    let ex = ExclusionSet::from_literal(&b"Ad".to_vec());
    let out = process_content(&input, &ex).unwrap();
    assert_eq!(
        out,
        b"1\n00:00:03,000 --> 00:00:04,000\nKeep me\n\n\
2\n00:00:07,000 --> 00:00:08,000\nAnd me\n\n"
            .to_vec()
    );
}

#[test]
fn processing_a_clean_document_reproduces_it() {
    let input = b"1\n00:00:01,000 --> 00:00:02,000\nOne\n\n\
2\n00:00:03,000 --> 00:00:04,000\nTwo\n\n"
        .to_vec();
    let ex = ExclusionSet::from_literal(&b"absent".to_vec());
    let out = process_content(&input, &ex).unwrap();
    assert_eq!(out, input);
}

#[test]
fn malformed_document_fails_with_parse_error() {
    let input = b"not a subtitle file".to_vec();
    let ex = ExclusionSet::new();
    assert_eq!(process_content(&input, &ex), Err(ProcessError::ParseFailed));
}

#[test]
fn underflowing_renumbering_fails_with_parse_error() {
    let input = b"10\n00:00:01,000 --> 00:00:02,000\nA\n\n\
11\n00:00:03,000 --> 00:00:04,000\nA\n\n\
12\n00:00:05,000 --> 00:00:06,000\nA\n\n\
2\n00:00:07,000 --> 00:00:08,000\nB\n\n"
        .to_vec();
    let ex = ExclusionSet::from_literal(&b"A".to_vec());
    assert_eq!(process_content(&input, &ex), Err(ProcessError::ParseFailed));
}

#[test]
fn empty_document_processes_to_empty_output() {
    let ex = ExclusionSet::from_literal(&b"A".to_vec());
    let out = process_content(&Vec::new(), &ex).unwrap();
    assert_eq!(out.len(), 0);
}
