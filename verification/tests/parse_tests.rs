use manuf::parse;

fn parse_strs(lines: &[&str]) -> Vec<(([u8; 6], u32), (String, String))> {
    let lines: Vec<String> = lines.iter().map(|s| s.to_string()).collect();
    parse(&lines)
}

#[test]
fn test_parse_apple_line() {
    let records = parse_strs(&["8C:85:90\tApple\tApple, Inc."]);
    assert_eq!(records.len(), 1);
    assert_eq!(
        records[0],
        (
            ([0x8C, 0x85, 0x90, 0, 0, 0], 24),
            ("Apple".to_string(), "Apple, Inc.".to_string())
        )
    );
}

#[test]
fn test_parse_comment_and_blank_lines() {
    assert_eq!(parse_strs(&["# comment", "", "   ", "\t"]).len(), 0);
}

#[test]
fn test_parse_prefix_only_line_skipped() {
    assert_eq!(parse_strs(&["8C:85:90"]).len(), 0);
}

#[test]
fn test_parse_masks_prefix_to_length() {
    let records = parse_strs(&["8C:85:90:FF:00:00/24\tV\td"]);
    assert_eq!(records.len(), 1);
    assert_eq!(records[0].0, ([0x8C, 0x85, 0x90, 0, 0, 0], 24));
}

#[test]
fn test_parse_explicit_length() {
    let records = parse_strs(&["8C:85:90:A0:00:00/28\tV\td"]);
    assert_eq!(records.len(), 1);
    assert_eq!(records[0].0, ([0x8C, 0x85, 0x90, 0xA0, 0, 0], 28));
}

#[test]
fn test_parse_short_prefix_zero_padded() {
    let records = parse_strs(&["8C\tV"]);
    assert_eq!(records.len(), 1);
    assert_eq!(records[0].0, ([0x8C, 0, 0, 0, 0, 0], 8));
    assert_eq!(records[0].1, ("V".to_string(), "".to_string()));
}

#[test]
fn test_parse_bad_hex_skipped() {
    assert_eq!(parse_strs(&["8X:85:90\tV\td"]).len(), 0);
    assert_eq!(parse_strs(&["8C:85:90:\tV\td"]).len(), 0);
    assert_eq!(parse_strs(&["8C:1234:90\tV\td"]).len(), 0);
}

#[test]
fn test_parse_too_many_groups_skipped() {
    assert_eq!(parse_strs(&["01:02:03:04:05:06:07\tV\td"]).len(), 0);
}

#[test]
fn test_parse_length_out_of_range_skipped() {
    assert_eq!(parse_strs(&["8C:85:90/64\tV\td"]).len(), 0);
    assert_eq!(parse_strs(&["8C:85:90/49\tV\td"]).len(), 0);
    assert_eq!(parse_strs(&["8C:85:90/4294967296\tV\td"]).len(), 0);
}

#[test]
fn test_parse_unreadable_length_defaults() {
    let records = parse_strs(&["8C:85:90/ab\tV\td"]);
    assert_eq!(records.len(), 1);
    assert_eq!(records[0].0, ([0x8C, 0x85, 0x90, 0, 0, 0], 24));
}

#[test]
fn test_parse_trims_fields() {
    let records = parse_strs(&["  8C:85:90\t  Apple \t  Apple, Inc.  "]);
    assert_eq!(records.len(), 1);
    assert_eq!(
        records[0].1,
        ("Apple".to_string(), "Apple, Inc.".to_string())
    );
}

#[test]
fn test_parse_empty_name_skipped() {
    assert_eq!(parse_strs(&["8C:85:90\t \tdesc"]).len(), 0);
}

#[test]
fn test_parse_roundtrip() {
    // re-serializing a parsed record and parsing again yields the record
    let first_pass = parse_strs(&[
        "8C:85:90\tApple\tApple, Inc.",
        "8C:85:90:A0:00:00/28\tSub\tblock",
        "00:00:00/0\tAll",
    ]);
    assert_eq!(first_pass.len(), 3);
    for ((prefix, len), (name, desc)) in &first_pass {
        let line = format!(
            "{:02X}:{:02X}:{:02X}:{:02X}:{:02X}:{:02X}/{}\t{}\t{}",
            prefix[0], prefix[1], prefix[2], prefix[3], prefix[4], prefix[5], len, name, desc
        );
        let reparsed = parse_strs(&[line.as_str()]);
        assert_eq!(reparsed.len(), 1);
        assert_eq!(&reparsed[0], &((*prefix, *len), (name.clone(), desc.clone())));
    }
}

#[test]
fn test_parse_keeps_good_lines_around_bad_ones() {
    let records = parse_strs(&[
        "# header",
        "8C:85:90\tApple\tApple, Inc.",
        "not a record",
        "00:00:01\tLow",
    ]);
    assert_eq!(records.len(), 2);
    assert_eq!(records[0].1 .0, "Apple");
    assert_eq!(records[1].1 .0, "Low");
}
