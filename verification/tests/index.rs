use cix::index::{
    file_changes, is_due, is_indexable, is_indexable_file, last_run_time, path_to_store,
    should_index, state_text, upsert_changes, IndexChange,
};

#[test]
fn test_is_indexable_file() {
    assert!(is_indexable_file("src/main.rs"));
    assert!(is_indexable_file("script.py"));
    assert!(!is_indexable_file("node_modules/package/index.js"));
    assert!(!is_indexable_file(".git/config"));
    assert!(!is_indexable_file("archive.zip"));
}

#[test]
fn extensions_are_read_in_any_case() {
    assert!(is_indexable_file("Assets/Player.CS"));
    assert!(is_indexable_file("a.b/shader.HLSL"));
    assert!(!is_indexable_file("a.rs/readme"));
    assert!(!is_indexable_file(".rs"));
    assert!(!is_indexable_file("rs"));
    assert!(!is_indexable_file("main.rs/.."));
    assert!(is_indexable_file("main.rs/."));
    assert!(is_indexable_file("x..rs"));
}

#[test]
fn some_folders_are_never_indexed() {
    assert!(!is_indexable_file("Assets/TextMesh Pro/a.cs"));
    assert!(!is_indexable_file("/p/.git/hooks/a.sh"));
    assert!(!is_indexable_file("Target/a.rs"));
    assert!(!is_indexable("c:\\p\\.git\\a.rs", Some("rs")));
    assert!(is_indexable("c:\\p\\a.rs", Some("rs")));
    assert!(!is_indexable("c:\\p\\a", None));
}

#[test]
fn long_path_prefixes_are_not_stored() {
    assert_eq!(path_to_store(r"\\?\C:\p\a.rs"), r"C:\p\a.rs");
    assert_eq!(path_to_store("/p/a.rs"), "/p/a.rs");
}

#[test]
fn the_last_run_is_read_back() {
    for time in [0, 7, 10, 1_700_000_000, u64::MAX] {
        assert_eq!(last_run_time(false, Some(&state_text(time))), time);
    }
    assert_eq!(state_text(120), "120");
}

#[test]
fn a_state_that_says_nothing_means_zero() {
    assert_eq!(last_run_time(false, None), 0);
    assert_eq!(last_run_time(false, Some("")), 0);
    assert_eq!(last_run_time(false, Some("-1")), 0);
    assert_eq!(last_run_time(false, Some("12x")), 0);
    assert_eq!(last_run_time(false, Some("18446744073709551616")), 0);
    assert_eq!(last_run_time(false, Some(" +42\n")), 42);
    assert_eq!(last_run_time(true, Some("42")), 0);
}

#[test]
fn files_changed_since_the_last_run_are_due() {
    assert!(is_due(10, 10));
    assert!(is_due(11, 10));
    assert!(!is_due(9, 10));
}

#[test]
fn a_file_replaces_what_was_stored_for_it() {
    let mut docs = vec![("a.rs", "old"), ("b.rs", "b"), ("a.rs", "older")]
        .into_iter()
        .map(|(p, c)| (p.to_string(), c.to_string()))
        .collect::<Vec<_>>();
    for change in upsert_changes("a.rs", "new".to_string()) {
        match change {
            IndexChange::Delete { path } => docs.retain(|d| d.0 != path),
            IndexChange::Add { path, content } => docs.push((path, content)),
        }
    }
    assert_eq!(
        docs,
        vec![
            ("b.rs".to_string(), "b".to_string()),
            ("a.rs".to_string(), "new".to_string()),
        ]
    );
}

#[test]
fn a_run_over_what_changed_is_enough() {
    let last_run = 100;
    let files = [
        ("a.rs", 50, "a"),
        ("b.rs", 100, "b new"),
        ("c.rs", 150, "c"),
        ("d.zip", 150, "d"),
        ("node_modules/e.js", 150, "e"),
    ];
    let mut docs = vec![("a.rs", "a"), ("b.rs", "b old"), ("gone.rs", "x")]
        .into_iter()
        .map(|(p, c)| (p.to_string(), c.to_string()))
        .collect::<Vec<_>>();
    for (path, modified, content) in files {
        for change in file_changes(path, modified, last_run, content.to_string()) {
            match change {
                IndexChange::Delete { path } => docs.retain(|d| d.0 != path),
                IndexChange::Add { path, content } => docs.push((path, content)),
            }
        }
    }
    docs.sort();
    let found: Vec<(&str, &str)> = docs.iter().map(|d| (d.0.as_str(), d.1.as_str())).collect();
    assert_eq!(
        found,
        vec![("a.rs", "a"), ("b.rs", "b new"), ("c.rs", "c"), ("gone.rs", "x")]
    );
}

#[test]
fn only_indexed_and_due_files_are_taken_up() {
    assert!(should_index("a.rs", 10, 10));
    assert!(!should_index("a.rs", 9, 10));
    assert!(!should_index("a.zip", 10, 10));
    assert_eq!(file_changes("a.rs", 10, 10, "x".to_string()).len(), 2);
    assert!(file_changes("a.rs", 9, 10, "x".to_string()).is_empty());
    assert!(file_changes("a.zip", 10, 10, "x".to_string()).is_empty());
}

#[test]
fn paths_of_other_systems_are_read_where_all_agree() {
    assert!(is_indexable_file(r"C:\proj\src\main.rs"));
    assert!(is_indexable_file(r"C:\proj.x\Player.CS"));
    assert!(is_indexable_file("C:main.rs"));
    assert!(is_indexable_file(r"a.b\c.d/e.md"));
    assert!(!is_indexable_file(r"C:\proj\Makefile"));
    assert!(!is_indexable_file(r"C:\proj\archive.zip"));
    assert!(!is_indexable_file(r"C:\proj\.git\hook.sh"));
    assert!(!is_indexable_file("a.rs/C:Makefile"));
    assert!(should_index(r"C:\proj\src\main.rs", 5, 5));
    assert_eq!(file_changes(r"C:\proj\src\main.rs", 5, 5, "x".to_string()).len(), 2);
}
