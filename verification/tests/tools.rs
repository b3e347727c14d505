use cix::edits::FileLookup;
use cix::json::{parse_json, JsonDocument};
use cix::tools::{
    combine_output, detect_build_command, is_project_root, not_after, read_lines,
    tool_list_directory, tool_read_file, tool_run_command, CommandEnd, FolderEntry, FolderLookup,
    ProjectMarkers,
};

const NO_MARKERS: ProjectMarkers = ProjectMarkers {
    cargo_toml: false,
    package_json: false,
    pyproject_toml: false,
    requirements_txt: false,
    go_mod: false,
};

#[test]
fn test_detect_build_command() {
    let cmd = detect_build_command(ProjectMarkers { cargo_toml: true, ..NO_MARKERS });
    assert_eq!(cmd, Some("cargo check --message-format short".to_string()));

    let none_cmd = detect_build_command(NO_MARKERS);
    assert_eq!(none_cmd, None);
}

fn entry(name: &str, is_dir: bool) -> FolderEntry {
    FolderEntry { name: name.to_string(), is_dir }
}

fn found(path: &str, content: &str) -> FileLookup {
    FileLookup { path: Some(path.to_string()), content: Ok(content.to_string()) }
}

fn missing() -> FileLookup {
    FileLookup { path: None, content: Err(String::new()) }
}

#[test]
fn test_tool_list_directory_and_read_file() {
    let folder = FolderLookup::Entries(vec![
        entry("src", true),
        entry("Cargo.toml", false),
        entry(".git", true),
        entry("target", true),
    ]);
    let listing = tool_list_directory(&folder);
    assert!(listing.contains("Cargo.toml"));
    assert!(listing.contains("src"));

    let manifest = found("./Cargo.toml", "[package]\nname = \"cix\"\n");
    let read_res = tool_read_file("Cargo.toml", 1, 5, &JsonDocument::null(), &manifest);
    assert!(read_res.contains("[package]") || read_res.contains("name"));

    let err_read =
        tool_read_file("nonexistent_file_xyz.rs", 1, 10, &JsonDocument::null(), &missing());
    assert!(err_read.contains("Error"));
}

#[test]
fn projects_are_told_by_their_files() {
    let command = |m: ProjectMarkers| detect_build_command(m).unwrap();
    assert_eq!(command(ProjectMarkers { package_json: true, go_mod: true, ..NO_MARKERS }), "npm test --silent");
    assert_eq!(command(ProjectMarkers { pyproject_toml: true, ..NO_MARKERS }), "python -m pytest -q");
    assert_eq!(command(ProjectMarkers { requirements_txt: true, ..NO_MARKERS }), "python -m pytest -q");
    assert_eq!(command(ProjectMarkers { go_mod: true, ..NO_MARKERS }), "go build ./...");
}

#[test]
fn listings_are_sorted_and_without_clutter() {
    let folder = FolderLookup::Entries(vec![
        entry("b", false),
        entry("node_modules", true),
        entry("a", true),
        entry("B", false),
        entry(".hidden", false),
        entry("é", false),
    ]);
    assert_eq!(tool_list_directory(&folder), "[dir] a\n[file] B\n[file] b\n[file] é");
    assert_eq!(
        tool_list_directory(&FolderLookup::Entries(vec![entry("target", true)])),
        "(empty directory)"
    );
    assert_eq!(
        tool_list_directory(&FolderLookup::Missing("./x".to_string())),
        "Error: directory not found: ./x"
    );
    assert_eq!(
        tool_list_directory(&FolderLookup::Failed("./x".to_string(), "denied".to_string())),
        "Error listing ./x: denied"
    );
}

#[test]
fn texts_are_ordered_as_strings_are() {
    let texts = ["", "a", "ab", "b", "B", "é", "日", "[dir] a", "[file] a", "\u{10ffff}", "\u{e000}"];
    for a in texts {
        for b in texts {
            assert_eq!(not_after(a, b), a <= b, "{:?} {:?}", a, b);
        }
    }
}

#[test]
fn the_root_has_two_names() {
    assert!(is_project_root("."));
    assert!(is_project_root("  "));
    assert!(!is_project_root("./"));
}

#[test]
fn lines_are_numbered() {
    assert_eq!(read_lines("a\nb\nc\n", 2, 9), "    2: b\n    3: c\n");
    assert_eq!(read_lines("a\nb\nc\n", 0, 0), "    1: a\n");
    assert_eq!(read_lines("a\nb\nc\n", 3, 1), "    3: c\n");
    assert_eq!(read_lines("", 1, 2), "(file is empty)");
    assert_eq!(
        read_lines("a\n", 5, 9),
        "Error: start_line 5 is beyond file length (1 lines)"
    );
}

#[test]
fn long_reads_are_cut() {
    let content: String = (1..=1000).map(|i| format!("{}\n", i)).collect();
    let text = read_lines(&content, 10, usize::MAX);
    assert_eq!(text.lines().count(), 401);
    assert!(text.starts_with("   10: 10\n"));
    assert!(text.ends_with(
        "  409: 409\n...[truncated at line 409; request a narrower range to see more]\n"
    ));
    let text = read_lines(&content, 601, 1000);
    assert_eq!(text.lines().count(), 400);
    assert!(text.ends_with(" 1000: 1000\n"));
}

#[test]
fn a_read_that_fails_says_why() {
    let input = parse_json("{\"file\": \"a.rs\"}").unwrap();
    assert_eq!(
        tool_read_file(" ", 1, 5, &input, &missing()),
        "Error: read_file requires a non-empty \"path\" (e.g. the exact path shown by list_directory, such as \"index.html\"). You sent action_input: {\"file\":\"a.rs\"}. The field must be named \"path\" — \"file_path\" is only used by write_file_edits."
    );
    assert_eq!(
        tool_read_file("x", 1, 5, &input, &missing()),
        "Error: file not found: 'x'. Call list_directory first and copy an exact path from its output."
    );
    let denied = FileLookup { path: Some("./x".to_string()), content: Err("denied".to_string()) };
    assert_eq!(tool_read_file("x", 1, 5, &input, &denied), "Error reading ./x: denied");
}

fn finished(stdout: &str) -> CommandEnd {
    CommandEnd::Finished {
        success: true,
        status: "exit status: 0".to_string(),
        stdout: stdout.to_string(),
        stderr: "warn".to_string(),
    }
}

#[test]
fn command_output_is_put_together() {
    let output = tool_run_command(&finished("out"));
    assert!(output.success);
    assert_eq!(output.text, "exit status: exit status: 0\nstdout:\nout\nstderr:\nwarn");
    let output = tool_run_command(&CommandEnd::Failed("no shell".to_string()));
    assert!(!output.success);
    assert_eq!(output.text, "Error executing command: no shell");
    let output = tool_run_command(&CommandEnd::TimedOut);
    assert!(!output.success);
    assert_eq!(output.text, "Error: command timed out after 120 seconds");
}

#[test]
fn long_command_output_is_cut() {
    let stdout = "x".repeat(7000);
    let whole = combine_output("exit status: 0", &stdout, "warn");
    let output = tool_run_command(&finished(&stdout));
    assert_eq!(output.text, format!("{}\n...[truncated]", &whole[..6000]));
    let head = combine_output("exit status: 0", "", "");
    let fits = "y".repeat(6000 - head.len() - "warn".len());
    assert!(tool_run_command(&finished(&fits)).text.ends_with("warn"));
    assert!(tool_run_command(&finished(&(fits + "y"))).text.ends_with("war\n...[truncated]"));
}
