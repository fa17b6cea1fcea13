use textutils::wc::{combine, count, format_field, format_report_line, Config, FileInfo};

#[test]
fn test_count() {
    let text = "I don't want the world. I just want your half.\r\n";
    let info = count(&text.as_bytes().to_vec());
    let expected = FileInfo { num_lines: 1, num_words: 10, num_chars: 48, num_bytes: 48 };
    assert_eq!(info, expected);
}

#[test]
fn test_format_field() {
    assert_eq!(format_field(1, false), "");
    assert_eq!(format_field(3, true), "       3");
    assert_eq!(format_field(10, true), "      10");
}

#[test]
fn count_empty_input() {
    let info = count(&Vec::new());
    assert_eq!(info, FileInfo { num_lines: 0, num_words: 0, num_bytes: 0, num_chars: 0 });
}

#[test]
fn count_unterminated_final_line() {
    let info = count(&b"one two\nthree".to_vec());
    assert_eq!(info, FileInfo { num_lines: 2, num_words: 3, num_bytes: 13, num_chars: 13 });
}

#[test]
fn count_multibyte_characters() {
    // "héllo\n": e-acute is two bytes but one character.
    let text = "h\u{e9}llo\n";
    let info = count(&text.as_bytes().to_vec());
    assert_eq!(info.num_bytes, 7);
    assert_eq!(info.num_chars, 6);
    assert_eq!(info.num_lines, 1);
    assert_eq!(info.num_words, 1);
}

#[test]
fn invalid_utf8_is_counted_leniently() {
    // A stray continuation byte decodes to one replacement character.
    let info = count(&vec![0x80]);
    assert_eq!(info.num_bytes, 1);
    assert_eq!(info.num_chars, 1);
    assert_eq!(info.num_lines, 1);
    // An overlong pair is two maximal ill-formed subparts: two
    // replacement characters.
    let info = count(&vec![0xC0, 0x80]);
    assert_eq!(info.num_bytes, 2);
    assert_eq!(info.num_chars, 2);
    // A truncated three-byte sequence is one maximal subpart.
    let info = count(&vec![0xE2, 0x82]);
    assert_eq!(info.num_bytes, 2);
    assert_eq!(info.num_chars, 1);
    // The same sequence completed is one real character.
    let euro = "\u{20ac}";
    let info = count(&euro.as_bytes().to_vec());
    assert_eq!(info.num_bytes, 3);
    assert_eq!(info.num_chars, 1);
}

#[test]
fn lenient_decoding_matches_lossy_char_count() {
    let streams: Vec<Vec<u8>> = vec![
        vec![0x80],
        vec![0xC0, 0x80],
        vec![0xE0, 0x80, 0x80],
        vec![0xF4, 0x90, 0x80, 0x80],
        vec![0x61, 0xE2, 0x82, 0x62],
        vec![0xF0, 0x9F, 0x92, 0x96, 0x0A],
    ];
    for s in &streams {
        let decoded = String::from_utf8_lossy(s);
        assert_eq!(count(s).num_chars, decoded.chars().count());
    }
}

#[test]
fn unicode_whitespace_separates_words() {
    // A no-break space has the White_Space property, so it bounds words.
    let text = "a\u{a0}b";
    let info = count(&text.as_bytes().to_vec());
    assert_eq!(info.num_words, 2);
    // An ideographic space does too.
    let wide = "one\u{3000}two";
    assert_eq!(count(&wide.as_bytes().to_vec()).num_words, 2);
    // A replacement character is part of a word, not a boundary.
    let info = count(&vec![0x61, 0x80, 0x62]);
    assert_eq!(info.num_words, 1);
    assert_eq!(info.num_chars, 3);
}

#[test]
fn combine_accumulates_totals() {
    let a = FileInfo { num_lines: 1, num_words: 2, num_bytes: 3, num_chars: 4 };
    let b = FileInfo { num_lines: 10, num_words: 20, num_bytes: 30, num_chars: 40 };
    let t = combine(&a, &b).unwrap();
    assert_eq!(t, FileInfo { num_lines: 11, num_words: 22, num_bytes: 33, num_chars: 44 });
}

#[test]
fn combine_overflow_is_reported() {
    let a = FileInfo { num_lines: usize::MAX, num_words: 0, num_bytes: 0, num_chars: 0 };
    let b = FileInfo { num_lines: 1, num_words: 0, num_bytes: 0, num_chars: 0 };
    assert!(combine(&a, &b).is_none());
}

#[test]
fn missing_file_does_not_reach_totals() {
    // One unreadable stream beside one valid stream: the failed open is
    // reported and skipped, and the total reflects the valid stream alone.
    let opens: Vec<Option<Vec<u8>>> = vec![None, Some(b"a b\n".to_vec())];
    let mut total = FileInfo { num_lines: 0, num_words: 0, num_bytes: 0, num_chars: 0 };
    let mut diagnostics = 0;
    for o in &opens {
        match o {
            None => diagnostics += 1,
            Some(data) => {
                let info = count(data);
                total = combine(&total, &info).unwrap();
            }
        }
    }
    assert_eq!(diagnostics, 1);
    assert_eq!(total, FileInfo { num_lines: 1, num_words: 2, num_bytes: 4, num_chars: 4 });
}

#[test]
fn config_defaults_show_lines_words_bytes() {
    let c = Config::from_flags(vec!["-".to_string()], false, false, false, false);
    assert!(c.lines && c.words && c.bytes && !c.chars);
    let c2 = Config::from_flags(Vec::new(), false, false, false, true);
    assert!(!c2.lines && !c2.words && !c2.bytes && c2.chars);
}

#[test]
fn report_line_formats_fields_and_label() {
    let info = FileInfo { num_lines: 1, num_words: 10, num_bytes: 48, num_chars: 48 };
    let c = Config::from_flags(Vec::new(), false, false, false, false);
    let line = format_report_line(&info, &c, &"test.txt".to_string());
    assert_eq!(line, "       1      10      48 test.txt");
    let stdin_line = format_report_line(&info, &c, &"-".to_string());
    assert_eq!(stdin_line, "       1      10      48");
}

#[test]
fn report_line_suppressed_fields_are_empty() {
    let info = FileInfo { num_lines: 3, num_words: 4, num_bytes: 5, num_chars: 6 };
    let c = Config::from_flags(Vec::new(), true, false, false, false);
    let line = format_report_line(&info, &c, &"-".to_string());
    assert_eq!(line, "       3");
}
