use mediaviz::lyrics::{LRCParser, LyricLine, ParsedLine};

fn lines(ls: &[&str]) -> Vec<Vec<u8>> {
    ls.iter().map(|s| s.as_bytes().to_vec()).collect()
}

#[test]
fn parse_simple_tag() {
    let p = LRCParser::from_lines(&lines(&["[00:01.50]Hello"])).unwrap();
    assert_eq!(p.lines.len(), 1);
    assert_eq!(p.lines[0].timestamp_ms, 1500);
    assert_eq!(p.lines[0].text, b"Hello".to_vec());
}

#[test]
fn untagged_line_is_skipped() {
    let p = LRCParser::from_lines(&lines(&["not a tag", "[00:01.50]Hello"])).unwrap();
    assert_eq!(p.lines.len(), 1);
    assert_eq!(p.lines[0].text, b"Hello".to_vec());
}

#[test]
fn parse_line_outcomes() {
    let no_tag = mediaviz::lyrics::parse_line(&b"no timestamps here".to_vec());
    assert!(matches!(no_tag, ParsedLine::NoTag));

    let entry = mediaviz::lyrics::parse_line(&b"[01:02.250]line".to_vec());
    match entry {
        ParsedLine::Entry(l) => {
            assert_eq!(l.timestamp_ms, 62250);
            assert_eq!(l.text, b"line".to_vec());
        }
        _ => panic!("expected a parsed entry"),
    }

    let huge = mediaviz::lyrics::parse_line(&b"[99999999999:00.5]x".to_vec());
    assert!(matches!(huge, ParsedLine::Malformed));
}

#[test]
fn tag_without_fraction_is_skipped() {
    let p = LRCParser::from_lines(&lines(&["[00:01]no fraction"])).unwrap();
    assert_eq!(p.lines.len(), 0);
}

#[test]
fn tag_anywhere_in_line() {
    let p = LRCParser::from_lines(&lines(&["xx[0:1.5]hi"])).unwrap();
    assert_eq!(p.lines.len(), 1);
    assert_eq!(p.lines[0].timestamp_ms, 1500);
    assert_eq!(p.lines[0].text, b"hi".to_vec());
}

#[test]
fn text_is_trimmed() {
    let p = LRCParser::from_lines(&lines(&["[0:1.5]  spaced  "])).unwrap();
    assert_eq!(p.lines[0].text, b"spaced".to_vec());
}

#[test]
fn short_and_long_fractions() {
    let p = LRCParser::from_lines(&lines(&["[0:1.5]a", "[0:1.25]b", "[0:1.2599]c"])).unwrap();
    // fractions are read to millisecond resolution
    assert_eq!(p.lines[0].timestamp_ms, 1250); // "b"
    assert_eq!(p.lines[1].timestamp_ms, 1259); // "c": extra digits dropped
    assert_eq!(p.lines[2].timestamp_ms, 1500); // "a"
}

#[test]
fn malformed_minutes_fail_whole_file() {
    let r = LRCParser::from_lines(&lines(&["[0:1.5]fine", "[4294967296:0.0]too big"]));
    assert!(r.is_none());
}

#[test]
fn lines_are_sorted_stably() {
    let p = LRCParser::from_lines(&lines(&["[0:5.0]third", "[0:1.0]first", "[0:5.0]fourth"]))
        .unwrap();
    assert_eq!(p.lines[0].text, b"first".to_vec());
    assert_eq!(p.lines[1].text, b"third".to_vec());
    assert_eq!(p.lines[2].text, b"fourth".to_vec());
}

fn track(ts: &[u64]) -> LRCParser {
    LRCParser {
        lines: ts
            .iter()
            .enumerate()
            .map(|(i, t)| LyricLine {
                timestamp_ms: *t,
                text: format!("line{}", i).into_bytes(),
            })
            .collect(),
    }
}

#[test]
fn current_line_lookup() {
    // timestamps 0.0, 2.0 and 5.0 seconds
    let p = track(&[0, 2000, 5000]);
    assert_eq!(p.get_current_line(1000).unwrap().0, 0);
    assert_eq!(p.get_current_line(2000).unwrap().0, 1);
    assert_eq!(p.get_current_line(4990).unwrap().0, 1);
    assert_eq!(p.get_current_line(5000).unwrap().0, 2);
    assert_eq!(p.get_current_line(10000).unwrap().0, 2);
}

#[test]
fn current_line_before_first_and_empty() {
    let p = track(&[1000, 2000]);
    // a position before the first timestamp has no current line
    assert!(p.get_current_line(0).is_none());
    assert!(p.get_current_line(999).is_none());
    let empty = track(&[]);
    assert!(empty.get_current_line(1000).is_none());
}

#[test]
fn current_line_duplicate_timestamps() {
    let p = track(&[2000, 2000, 5000]);
    // ties resolve to one definite index: the last line at that timestamp
    assert_eq!(p.get_current_line(2000).unwrap().0, 1);
    assert_eq!(p.get_current_line(3000).unwrap().0, 1);
}

#[test]
fn current_line_returns_text() {
    let p = track(&[0, 2000]);
    let (i, text) = p.get_current_line(2500).unwrap();
    assert_eq!(i, 1);
    assert_eq!(text, b"line1".to_vec());
}
