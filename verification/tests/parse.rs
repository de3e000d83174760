use onebrc::{can_parse_line, can_parse_temp, line_start, parse_line, parse_temp, NAME_MAX};

#[test]
fn reads_tenths() {
    assert_eq!(parse_temp(b"-12.3\n"), Some((-123, 6)));
    assert_eq!(parse_temp(b"12.3\nrest"), Some((123, 5)));
    assert_eq!(parse_temp(b"-0.5\n"), Some((-5, 5)));
    assert_eq!(parse_temp(b"0.0\n"), Some((0, 4)));
    assert_eq!(parse_temp(b"99.9\n"), Some((999, 5)));
    assert_eq!(parse_temp(b"3276.7\n"), Some((32767, 7)));
    assert_eq!(parse_temp(b"-3276.7\n"), Some((-32767, 8)));
}

#[test]
fn reads_odd_shapes() {
    // Without a point the digits are taken as they are; behind the first tenth all is skipped.
    assert_eq!(parse_temp(b"12\n"), Some((12, 3)));
    assert_eq!(parse_temp(b"12.\n"), Some((12, 4)));
    assert_eq!(parse_temp(b"12.34\n"), Some((123, 6)));
    assert_eq!(parse_temp(b"\n"), Some((0, 1)));
    assert_eq!(parse_temp(b"-\n"), Some((0, 2)));
    // A byte above '9' counts by its distance to '0'.
    assert_eq!(parse_temp(b":.0\n"), Some((100, 4)));
}

#[test]
fn needs_a_newline() {
    assert_eq!(parse_temp(b"-12.3"), None);
    assert_eq!(parse_temp(b""), None);
    assert_eq!(parse_temp(b"12."), None);
}

#[test]
fn knows_what_it_can_read() {
    assert!(can_parse_temp(b"-12.3\n"));
    assert!(can_parse_temp(b"3276.7\n"));
    assert!(!can_parse_temp(b"3276.8\n"));
    assert!(!can_parse_temp(b"99999999999\n"));
    assert!(!can_parse_temp(b"1,5\n"));
    assert!(!can_parse_temp(b"1.-\n"));
    assert!(can_parse_line(b"a;1.0\n", 6));
    assert!(!can_parse_line(b"a;1 0\n", 6));
    assert!(can_parse_line(b"a;1 0\n", 3));
    assert!(can_parse_line(b"a 1 0\n", 6));
}

#[test]
fn reads_a_row() {
    assert_eq!(parse_line(b"Hamburg;12.0\nBulawayo;8.9\n", 100), Some((7, 120, 13)));
    assert_eq!(parse_line(b";1.0\n", 5), Some((0, 10, 5)));
}

#[test]
fn a_limit_cuts_a_row_off() {
    let text = b"Hamburg;12.0\n";
    assert_eq!(parse_line(text, 13), Some((7, 120, 13)));
    assert_eq!(parse_line(text, 12), None);
    assert_eq!(parse_line(text, 7), None);
    assert_eq!(parse_line(text, 0), None);
}

#[test]
fn a_long_name_is_cut() {
    let mut text: Vec<u8> = vec![b'x'; 150];
    text.extend_from_slice(b";-1.5\n");
    assert_eq!(parse_line(&text, text.len()), Some((NAME_MAX, -15, 156)));
    let mut text: Vec<u8> = vec![b'x'; 100];
    text.extend_from_slice(b";-1.5\n");
    assert_eq!(parse_line(&text, text.len()), Some((100, -15, 106)));
}

#[test]
fn the_first_thread_starts_at_the_first_byte() {
    let text = b"a;1.0\nb;2.0\n";
    assert_eq!(line_start(text, 0, 0, text.len()), Some(0));
    assert_eq!(line_start(b"", 0, usize::MAX, usize::MAX), Some(0));
}

#[test]
fn the_others_start_behind_a_newline() {
    let text = b"a;1.0\nb;2.0\nc;3.0\n";
    assert_eq!(line_start(text, 1, 3, text.len()), Some(6));
    assert_eq!(line_start(text, 1, 5, text.len()), Some(6));
    // A row that begins at the start is left to the thread before.
    assert_eq!(line_start(text, 1, 6, text.len()), Some(12));
    assert_eq!(line_start(text, 1, 12, text.len()), None);
    assert_eq!(line_start(text, 1, 17, text.len()), None);
    assert_eq!(line_start(text, 2, 18, text.len()), None);
    assert_eq!(line_start(text, 1, 3, 5), None);
}
