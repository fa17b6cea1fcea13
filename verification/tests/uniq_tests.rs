use textutils::text::split_lines;
use textutils::uniq::{collapse, render_group};

fn lines_of(text: &[u8]) -> Vec<Vec<u8>> {
    split_lines(&text.to_vec())
}

#[test]
fn empty_input_yields_no_groups() {
    let groups = collapse(&Vec::new());
    assert!(groups.is_empty());
}

#[test]
fn consecutive_duplicates_merge() {
    let groups = collapse(&lines_of(b"a\na\nb\na\n"));
    let shape: Vec<(usize, Vec<u8>)> =
        groups.iter().map(|g| (g.count, g.line.clone())).collect();
    assert_eq!(
        shape,
        vec![
            (2, b"a\n".to_vec()),
            (1, b"b\n".to_vec()),
            (1, b"a\n".to_vec()),
        ]
    );
}

#[test]
fn terminator_differences_do_not_break_runs() {
    // "a\r\n" and "a\n" are equal once trailing terminators are stripped,
    // so they form one run; the representative is the last line read.
    let groups = collapse(&lines_of(b"a\r\na\n"));
    assert_eq!(groups.len(), 1);
    assert_eq!(groups[0].count, 2);
    assert_eq!(groups[0].line, b"a\n".to_vec());
}

#[test]
fn counts_sum_to_line_total() {
    let lines = lines_of(b"x\nx\ny\nz\nz\nz\n");
    let groups = collapse(&lines);
    let total: usize = groups.iter().map(|g| g.count).sum();
    assert_eq!(total, lines.len());
}

#[test]
fn expansion_reconstructs_the_stream() {
    let input = b"x\nx\ny\nz\nz\nz\n".to_vec();
    let groups = collapse(&split_lines(&input));
    let mut rebuilt: Vec<u8> = Vec::new();
    for g in &groups {
        for _ in 0..g.count {
            rebuilt.extend_from_slice(&g.line);
        }
    }
    assert_eq!(rebuilt, input);
}

#[test]
fn count_annotation_is_right_justified() {
    let lines = lines_of(b"a\na\na\n");
    let groups = collapse(&lines);
    assert_eq!(groups.len(), 1);
    assert_eq!(render_group(&groups[0], true), b"   3 a\n".to_vec());
    assert_eq!(render_group(&groups[0], false), b"a\n".to_vec());
}

#[test]
fn wide_count_annotation_keeps_all_digits() {
    let mut lines: Vec<Vec<u8>> = Vec::new();
    for _ in 0..12345 {
        lines.push(b"same\n".to_vec());
    }
    let groups = collapse(&lines);
    assert_eq!(groups.len(), 1);
    assert_eq!(render_group(&groups[0], true), b"12345 same\n".to_vec());
}
