use textutils::head::{
    head_bytes, head_lines, header_line, make_bound, parse_positive_int, BoundError, BoundSpec,
};
use textutils::text::split_lines;

#[test]
fn test_parse_positive_int() {
    // 3 is an OK integer
    let res = parse_positive_int("3");
    assert!(res.is_ok());
    assert_eq!(res.unwrap(), 3);

    // Any string is an error
    let res = parse_positive_int("foo");
    assert!(res.is_err());
    assert_eq!(res.unwrap_err().to_string(), "foo");

    //  A zero is an error
    let res = parse_positive_int("0");
    assert!(res.is_err());
    assert_eq!(res.unwrap_err().to_string(), "0");
}

#[test]
fn parse_rejects_empty_and_overflow() {
    assert!(parse_positive_int("").is_err());
    assert!(parse_positive_int("99999999999999999999999999").is_err());
    assert_eq!(parse_positive_int("10").unwrap(), 10);
}

#[test]
fn conflicting_bounds_are_rejected() {
    // A line bound and a byte bound together are refused before any
    // stream is read.
    let r = make_bound(Some(3), Some(5));
    assert_eq!(r, Err(BoundError::Conflict));
}

#[test]
fn bound_defaults_to_ten_lines() {
    assert_eq!(make_bound(None, None), Ok(BoundSpec::Lines(10)));
    assert_eq!(make_bound(Some(3), None), Ok(BoundSpec::Lines(3)));
    assert_eq!(make_bound(None, Some(7)), Ok(BoundSpec::Bytes(7)));
}

#[test]
fn first_three_lines_verbatim() {
    let mut text = String::new();
    for i in 0..10 {
        text.push_str(&format!("line {}\r\n", i));
    }
    let lines = split_lines(&text.as_bytes().to_vec());
    assert_eq!(lines.len(), 10);
    let first = head_lines(&lines, 3);
    assert_eq!(first.len(), 3);
    assert_eq!(first[0], b"line 0\r\n".to_vec());
    assert_eq!(first[1], b"line 1\r\n".to_vec());
    assert_eq!(first[2], b"line 2\r\n".to_vec());
}

#[test]
fn head_lines_short_input() {
    let lines = split_lines(&b"a\nb\n".to_vec());
    let first = head_lines(&lines, 10);
    assert_eq!(first.len(), 2);
    assert_eq!(first[0], b"a\n".to_vec());
}

#[test]
fn first_five_bytes_exactly() {
    let data = b"Hello, world!\nmore\n".to_vec();
    assert_eq!(head_bytes(&data, 5), b"Hello".to_vec());
    let short = b"Hi".to_vec();
    assert_eq!(head_bytes(&short, 5), b"Hi".to_vec());
}

#[test]
fn split_lines_keeps_terminators() {
    let lines = split_lines(&b"a\nbc\nd".to_vec());
    assert_eq!(lines.len(), 3);
    assert_eq!(lines[0], b"a\n".to_vec());
    assert_eq!(lines[1], b"bc\n".to_vec());
    assert_eq!(lines[2], b"d".to_vec());
    assert!(split_lines(&Vec::new()).is_empty());
}

#[test]
fn header_names_each_source() {
    assert_eq!(header_line(&"a.txt".to_string(), true), "==> a.txt <==\n");
    assert_eq!(header_line(&"b.txt".to_string(), false), "\n==> b.txt <==\n");
}
