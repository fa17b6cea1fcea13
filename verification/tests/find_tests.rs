use textutils::find::{build_name_filters, select, select_and_sort, Entry, EntryType, NamePattern};

fn entry(path: &str, name: &str, kind: EntryType) -> Entry {
    Entry {
        path: path.as_bytes().to_vec(),
        name: Some(name.to_string()),
        kind,
    }
}

fn sample_tree() -> Vec<Entry> {
    vec![
        entry("./b", "b", EntryType::Dir),
        entry("./b/file.csv", "file.csv", EntryType::File),
        entry("./a", "a", EntryType::Dir),
        entry("./a/link", "link", EntryType::Link),
        entry("./a/note.txt", "note.txt", EntryType::File),
    ]
}

#[test]
fn invalid_pattern_is_named() {
    let r = build_name_filters(&vec!["a".to_string(), "(".to_string()]);
    match r {
        Err(e) => assert_eq!(e, "("),
        Ok(_) => panic!("invalid pattern accepted"),
    }
}

#[test]
fn valid_patterns_compile() {
    let v = build_name_filters(&vec![".".to_string(), "csv$".to_string()]).unwrap();
    assert_eq!(v.len(), 2);
}

#[test]
fn type_filter_keeps_only_files() {
    // With types=[file] and no name filter, only plain-file paths come
    // back, sorted, without duplicates.
    let out = select_and_sort(&sample_tree(), &vec![EntryType::File], &Vec::new());
    assert_eq!(out, vec![b"./a/note.txt".to_vec(), b"./b/file.csv".to_vec()]);
}

#[test]
fn empty_type_filter_keeps_every_kind() {
    let out = select_and_sort(&sample_tree(), &Vec::new(), &Vec::new());
    assert_eq!(
        out,
        vec![
            b"./a".to_vec(),
            b"./a/link".to_vec(),
            b"./a/note.txt".to_vec(),
            b"./b".to_vec(),
            b"./b/file.csv".to_vec(),
        ]
    );
}

#[test]
fn name_filter_requires_a_match() {
    let pats = build_name_filters(&vec!["csv$".to_string()]).unwrap();
    let out = select_and_sort(&sample_tree(), &Vec::new(), &pats);
    assert_eq!(out, vec![b"./b/file.csv".to_vec()]);
}

#[test]
fn each_matching_pattern_emits_a_copy() {
    let pats = build_name_filters(&vec!["^file".to_string(), "csv$".to_string()]).unwrap();
    let out = select_and_sort(&sample_tree(), &vec![EntryType::File], &pats);
    assert_eq!(out, vec![b"./b/file.csv".to_vec(), b"./b/file.csv".to_vec()]);
}

#[test]
fn nameless_entries_match_no_pattern() {
    let mut entries = sample_tree();
    entries.push(Entry {
        path: b"./odd".to_vec(),
        name: None,
        kind: EntryType::File,
    });
    let pats = build_name_filters(&vec![".".to_string()]).unwrap();
    let with_filter = select_and_sort(&entries, &Vec::new(), &pats);
    assert!(!with_filter.contains(&b"./odd".to_vec()));
    let without_filter = select_and_sort(&entries, &Vec::new(), &Vec::new());
    assert!(without_filter.contains(&b"./odd".to_vec()));
}

#[test]
fn selection_keeps_walk_order_before_sorting() {
    let pats: Vec<NamePattern> = Vec::new();
    let out = select(&sample_tree(), &vec![EntryType::Dir], &pats);
    assert_eq!(out, vec![b"./b".to_vec(), b"./a".to_vec()]);
}

#[test]
fn pattern_match_depends_on_the_name() {
    // A pattern that matches one name and not another: the compiled
    // pattern really is consulted.
    let pats = build_name_filters(&vec!["^note".to_string()]).unwrap();
    let out = select_and_sort(&sample_tree(), &Vec::new(), &pats);
    assert_eq!(out, vec![b"./a/note.txt".to_vec()]);
}
