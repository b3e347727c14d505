use cix::edit_run::{EditCommand, EditEvent, EditRun};
use cix::edits::{
    cleaned_path, confirms, contains_search, decide_edit, edit_content, parse_edit_blocks,
    parse_edit_blocks_from_value, path_below_folder, places_to_look, propose_edit, report_edits,
    EditAction, EditBlock, EditMode, EditResult, FileLookup, PathProbe, ProposalKind,
};
use cix::json::parse_json;

#[test]
fn test_parse_edit_blocks() {
    let raw = "FILE: src/test.rs\n<<<<<<< SEARCH\nold line\n=======\nnew line\n>>>>>>> REPLACE\n";
    let blocks = parse_edit_blocks(raw);
    assert_eq!(blocks.len(), 1);
    assert_eq!(blocks[0].file_path, "src/test.rs");
    assert_eq!(blocks[0].search, "old line");
    assert_eq!(blocks[0].replace, "new line");
    assert_eq!(blocks[0].mode, EditMode::Replace);
}

#[test]
fn test_parse_edit_blocks_from_value() {
    let v = parse_json(
        r#"{
            "edits": [
                {"file_path": "src/a.rs", "mode": "replace", "search": "foo", "replace": "bar"},
                {"file_path": "src/b.rs", "mode": "append", "replace": "// new line"},
                {"file_path": "src/c.rs", "mode": "replace", "replace": "no search, dropped"}
            ]
        }"#,
    )
    .unwrap();
    let blocks = parse_edit_blocks_from_value(v.value().get("edits").unwrap());
    assert_eq!(blocks.len(), 2);
    assert_eq!(blocks[0].mode, EditMode::Replace);
    assert_eq!(blocks[1].mode, EditMode::Append);
}

#[test]
fn blocks_without_search_lines_make_files() {
    let raw = "FILE: a\n<<<<<<< SEARCH\n=======\none\n\ntwo\n>>>>>>> REPLACE\ntext\nFILE: b \n<<<<<<< SEARCH\n\n=======\nx\n>>>>>>> REPLACE\n";
    let blocks = parse_edit_blocks(raw);
    assert_eq!(blocks.len(), 2);
    assert_eq!(blocks[0].mode, EditMode::Create);
    assert_eq!(blocks[0].search, "");
    assert_eq!(blocks[0].replace, "one\n\ntwo");
    assert_eq!(blocks[1].file_path, "b");
    assert_eq!(blocks[1].mode, EditMode::Replace);
    assert_eq!(blocks[1].search, "");
}

#[test]
fn several_blocks_are_read_back_in_order() {
    let blocks = [
        ("src/a.rs", vec!["one", "", "two"], vec!["three"]),
        ("new.txt", vec![], vec!["all", "of it"]),
        ("src/a.rs", vec![" x"], vec![" y", ""]),
    ];
    let mut text = String::new();
    for (path, search, replace) in &blocks {
        text.push_str(&format!("FILE: {}\n<<<<<<< SEARCH\n", path));
        for line in search {
            text.push_str(&format!("{}\n", line));
        }
        text.push_str("=======\n");
        for line in replace {
            text.push_str(&format!("{}\n", line));
        }
        text.push_str(">>>>>>> REPLACE\n");
    }
    let read = parse_edit_blocks(&text);
    assert_eq!(read.len(), blocks.len());
    for (block, (path, search, replace)) in read.iter().zip(&blocks) {
        assert_eq!(&block.file_path, path);
        assert_eq!(block.search, search.join("\n"));
        assert_eq!(block.replace, replace.join("\n"));
        let mode = if search.is_empty() { EditMode::Create } else { EditMode::Replace };
        assert_eq!(block.mode, mode);
    }
}

#[test]
fn blocks_without_path_or_new_lines_are_dropped() {
    assert!(parse_edit_blocks("<<<<<<< SEARCH\na\n=======\nb\n>>>>>>> REPLACE\n").is_empty());
    assert!(parse_edit_blocks("FILE: a\n<<<<<<< SEARCH\na\n=======\n>>>>>>> REPLACE\n").is_empty());
}

#[test]
fn json_edits_need_a_path_and_new_text() {
    let v = parse_json(
        r#"[{"replace": "x"}, {"file_path": 1, "search": "a", "replace": "x"},
            {"file_path": "a", "search": "a"}, {"file_path": "b", "mode": "create", "replace": "x"},
            {"file_path": "c", "mode": "other", "search": "s", "replace": "x"}, 7]"#,
    )
    .unwrap();
    let blocks = parse_edit_blocks_from_value(v.value());
    assert_eq!(blocks.len(), 2);
    assert_eq!(blocks[0].mode, EditMode::Create);
    assert_eq!(blocks[1].mode, EditMode::Replace);
    assert!(parse_edit_blocks_from_value(parse_json("{}").unwrap().value()).is_empty());
}

fn block(mode: EditMode, search: &str, replace: &str) -> EditBlock {
    EditBlock {
        file_path: "p/a.rs".to_string(),
        mode,
        search: search.to_string(),
        replace: replace.to_string(),
    }
}

#[test]
fn a_replacement_changes_the_first_occurrence() {
    let b = block(EditMode::Replace, "two", "2\r\n2");
    assert_eq!(edit_content(&b, "one two two"), Some("one 2\n2 two".to_string()));
    assert_eq!(edit_content(&b, "one"), None);
}

#[test]
fn an_empty_search_stands_at_the_start() {
    let b = block(EditMode::Replace, "", "x");
    assert_eq!(edit_content(&b, "ab"), Some("xab".to_string()));
}

#[test]
fn windows_line_ends_are_kept() {
    let b = block(EditMode::Replace, "a\nb", "a\nc");
    assert_eq!(edit_content(&b, "a\r\nb\r\n"), Some("a\r\nc\r\n".to_string()));
    let b = block(EditMode::Append, "", "z");
    assert_eq!(edit_content(&b, "a\r\nb"), Some("a\r\nb\r\nz\r\n".to_string()));
    assert!(contains_search("x\r\ny", "x\ny"));
    assert!(!contains_search("x y", "x\ny"));
}

#[test]
fn appended_text_stands_on_its_own_line() {
    let b = block(EditMode::Append, "", "z");
    assert_eq!(edit_content(&b, ""), Some("z\n".to_string()));
    assert_eq!(edit_content(&b, "a"), Some("a\nz\n".to_string()));
    assert_eq!(edit_content(&b, "a\n"), Some("a\nz\n".to_string()));
}

#[test]
fn a_new_file_has_unix_line_ends() {
    let b = block(EditMode::Create, "", "a\r\nb");
    assert_eq!(edit_content(&b, "anything"), Some("a\nb".to_string()));
}

fn file(path: Option<&str>, content: Result<&str, &str>) -> FileLookup {
    FileLookup {
        path: path.map(str::to_string),
        content: content.map(str::to_string).map_err(str::to_string),
    }
}

fn tell(run: &mut EditRun, event: EditEvent) -> EditCommand {
    assert!(run.accepts(&event), "{:?}", event);
    run.advance(event)
}

fn finished(command: EditCommand) -> (String, bool) {
    match command {
        EditCommand::Finish { observation, applied } => (observation, applied),
        other => panic!("{:?}", other),
    }
}

#[test]
fn edits_that_cannot_be_made_are_noted() {
    let edits = vec![
        block(EditMode::Create, "", "x"),
        block(EditMode::Append, "", "x"),
        block(EditMode::Replace, "s", "x"),
        block(EditMode::Replace, "s", "x"),
        block(EditMode::Replace, "s", "x"),
        block(EditMode::Append, "", "x"),
    ];
    let files = vec![
        file(None, Err("")),
        file(None, Err("")),
        file(Some("/p/a.rs"), Err("denied")),
        file(Some("/p/a.rs"), Ok("none")),
        file(Some("/p/a.rs"), Ok("has s")),
        file(Some("/p/a.rs"), Err("denied")),
    ];
    let (mut run, mut command) = EditRun::start(edits);
    for (i, file) in files.into_iter().enumerate() {
        assert!(matches!(command, EditCommand::Inspect(k) if k == i));
        command = tell(&mut run, EditEvent::Looked(file));
    }
    assert!(matches!(command, EditCommand::Ask));
    assert_eq!(run.valid(), &vec![4, 5]);
    assert_eq!(run.edits().len(), 6);
    let command = tell(&mut run, EditEvent::Answered(Some("y\n".to_string())));
    assert!(matches!(command, EditCommand::Open(4)));
    match tell(&mut run, EditEvent::Looked(file(Some("/p/a.rs"), Ok("has s s")))) {
        EditCommand::Write { edit, content } => {
            assert_eq!((edit, content.as_str()), (4, "hax s s"));
        }
        other => panic!("{:?}", other),
    }
    let command = tell(&mut run, EditEvent::Written(Ok(())));
    assert!(matches!(command, EditCommand::Open(5)));
    match tell(&mut run, EditEvent::Looked(file(Some("/p/a.rs"), Err("denied")))) {
        EditCommand::Warn(text) => assert_eq!(text, " Warning: could not read /p/a.rs: denied"),
        other => panic!("{:?}", other),
    }
    assert_eq!(
        finished(tell(&mut run, EditEvent::Shown)),
        (
            "Applied 1 edit(s) to disk. Skipped: cannot create p/a.rs: a file already exists at that path (use replace/append instead); file not found: p/a.rs; could not read /p/a.rs; SEARCH text not found in /p/a.rs".to_string(),
            true
        )
    );
    assert!(!run.accepts(&EditEvent::Shown));
}

#[test]
fn a_run_without_edits_is_over_at_once() {
    let (_, command) = EditRun::start(vec![]);
    assert_eq!(
        finished(command),
        (
            "No edit blocks were provided (or none had the required fields).".to_string(),
            false
        )
    );
}

#[test]
fn a_run_without_valid_edits_asks_nothing() {
    let (mut run, _) =
        EditRun::start(vec![block(EditMode::Append, "", "x"), block(EditMode::Create, "", "x")]);
    tell(&mut run, EditEvent::Looked(file(None, Err(""))));
    assert_eq!(
        finished(tell(&mut run, EditEvent::Looked(file(None, Err(""))))),
        (
            "No valid edit blocks could be applied. Issues: file not found: p/a.rs; cannot create p/a.rs: a file already exists at that path (use replace/append instead)".to_string(),
            false
        )
    );
}

fn asked(mode: EditMode) -> EditRun {
    let (mut run, _) = EditRun::start(vec![block(mode, "", "x")]);
    let command = tell(&mut run, EditEvent::Looked(file(Some("/p/a.rs"), Ok("a"))));
    assert!(matches!(command, EditCommand::Ask));
    run
}

#[test]
fn without_a_yes_nothing_is_written() {
    let mut run = asked(EditMode::Append);
    assert_eq!(
        finished(tell(&mut run, EditEvent::Answered(Some("no".to_string())))).0,
        "User declined to apply these edits."
    );
    let mut run = asked(EditMode::Append);
    assert_eq!(
        finished(tell(&mut run, EditEvent::Answered(None))).0,
        "Error reading user confirmation from stdin; edits were not applied."
    );
}

#[test]
fn a_failed_write_ends_the_run() {
    let mut run = asked(EditMode::Append);
    tell(&mut run, EditEvent::Answered(Some("Y".to_string())));
    tell(&mut run, EditEvent::Looked(file(Some("/p/a.rs"), Ok("a"))));
    assert_eq!(
        finished(tell(&mut run, EditEvent::Written(Err("disk full".to_string())))),
        ("Error applying edits: disk full".to_string(), false)
    );
}

#[test]
fn a_failed_write_hides_no_earlier_one() {
    let (mut run, _) =
        EditRun::start(vec![block(EditMode::Create, "", "A"), block(EditMode::Create, "", "B")]);
    for _ in 0..2 {
        tell(&mut run, EditEvent::Looked(file(Some("/p/a.txt"), Err(""))));
    }
    tell(&mut run, EditEvent::Answered(Some("y".to_string())));
    tell(&mut run, EditEvent::Looked(file(Some("/p/a.txt"), Err(""))));
    tell(&mut run, EditEvent::Written(Ok(())));
    tell(&mut run, EditEvent::Looked(file(Some("/p/b.txt"), Err(""))));
    assert_eq!(
        finished(tell(&mut run, EditEvent::Written(Err("disk full".to_string())))),
        ("Error applying edits: disk full".to_string(), true)
    );
}

#[test]
fn a_folder_that_cannot_be_made_is_a_warning() {
    let mut run = asked(EditMode::Create);
    tell(&mut run, EditEvent::Answered(Some("y".to_string())));
    let event =
        EditEvent::NoFolder { folder: "/p".to_string(), reason: "denied".to_string() };
    match tell(&mut run, event) {
        EditCommand::Warn(text) => {
            assert_eq!(text, " Warning: could not create directory /p: denied");
        }
        other => panic!("{:?}", other),
    }
    assert_eq!(
        finished(tell(&mut run, EditEvent::Shown)),
        ("Applied 0 edit(s) to disk. Skipped: none".to_string(), false)
    );
}

#[test]
fn a_proposal_shows_what_goes_and_what_comes() {
    let lines: Vec<(ProposalKind, String)> = propose_edit(&block(EditMode::Replace, "a\nb", "c"))
        .into_iter()
        .map(|l| (l.kind, l.text))
        .collect();
    assert_eq!(
        lines,
        vec![
            (ProposalKind::Removed, "- a".to_string()),
            (ProposalKind::Removed, "- b".to_string()),
            (ProposalKind::Added, "+ c".to_string()),
        ]
    );
    assert_eq!(propose_edit(&block(EditMode::Append, "", "c"))[0].text, "(appending to end of file)");
    assert_eq!(propose_edit(&block(EditMode::Create, "", "c"))[0].text, "(creating new file)");
}

#[test]
fn only_a_yes_confirms() {
    assert!(confirms("y\n"));
    assert!(confirms("  Y "));
    assert!(!confirms("yes"));
    assert!(!confirms(""));
}

#[test]
fn the_agent_is_told_what_came_of_edits() {
    let notes = vec!["n".to_string()];
    assert_eq!(
        report_edits(&EditResult::Applied(2), &vec![]),
        ("Applied 2 edit(s) to disk. Skipped: none".to_string(), true)
    );
    assert_eq!(
        report_edits(&EditResult::Applied(0), &notes),
        ("Applied 0 edit(s) to disk. Skipped: n".to_string(), false)
    );
    assert_eq!(
        report_edits(&EditResult::Declined, &notes),
        ("User declined to apply these edits.".to_string(), false)
    );
    assert_eq!(
        report_edits(&EditResult::NoAnswer, &notes),
        (
            "Error reading user confirmation from stdin; edits were not applied.".to_string(),
            false
        )
    );
    assert_eq!(
        report_edits(&EditResult::Failed { applied: 0, reason: "disk full".to_string() }, &notes),
        ("Error applying edits: disk full".to_string(), false)
    );
    assert_eq!(
        report_edits(&EditResult::Failed { applied: 1, reason: "disk full".to_string() }, &notes),
        ("Error applying edits: disk full".to_string(), true)
    );
}

fn decided(b: &EditBlock, f: &FileLookup) -> String {
    match decide_edit(b, f) {
        EditAction::Write(text) => format!("write {}", text),
        EditAction::Skip(text) => format!("skip{}", text),
    }
}

#[test]
fn an_edit_is_written_or_passed_over() {
    let create = block(EditMode::Create, "", "x");
    let replace = block(EditMode::Replace, "s", "x");
    let append = block(EditMode::Append, "", "x");
    assert_eq!(decided(&create, &file(Some("/p"), Err(""))), "write x");
    assert_eq!(
        decided(&create, &file(None, Err(""))),
        "skip Warning: refusing to create p/a.rs — already exists"
    );
    assert_eq!(
        decided(&append, &file(None, Err(""))),
        "skip Warning: File not found: p/a.rs"
    );
    assert_eq!(
        decided(&append, &file(Some("/p"), Err("denied"))),
        "skip Warning: could not read /p: denied"
    );
    assert_eq!(
        decided(&replace, &file(Some("/p"), Ok("none"))),
        "skip Search block missing or mismatched in /p"
    );
    assert_eq!(decided(&replace, &file(Some("/p"), Ok("has s"))), "write hax s");
}

#[test]
fn paths_are_cleaned() {
    assert_eq!(cleaned_path(r"\\?\C:\p\a.rs"), "C:/p/a.rs");
    assert_eq!(cleaned_path("src/a.rs"), "src/a.rs");
    assert_eq!(path_below_folder("cix/src/a.rs", "cix"), Some("src/a.rs".to_string()));
    assert_eq!(path_below_folder("cix2/src/a.rs", "cix"), None);
}

#[test]
fn places_are_looked_at_in_order() {
    let places: Vec<String> = places_to_look("cix\\a.rs", Some("cix"))
        .iter()
        .map(|p| match p {
            PathProbe::AsGiven(p) => format!("given {}", p),
            PathProbe::InProject(p) => format!("project {}", p),
            PathProbe::SameName(p) => format!("name {}", p),
        })
        .collect();
    assert_eq!(
        places,
        vec!["given cix/a.rs", "project cix/a.rs", "project a.rs", "name cix/a.rs"]
    );
    assert_eq!(places_to_look("a.rs", None).len(), 3);
}
