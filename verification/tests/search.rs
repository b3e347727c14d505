use cix::keywords::{extract_keywords, line_matches_keyword, lower_keywords, queries_for};
use cix::search::{
    context_ranges, describe_hits, file_report, highlight_match, tool_search_codebase, FoundFile,
    ReportLine, SearchOutcome,
};

#[test]
fn test_extract_keywords() {
    let question = "how does extract_keywords work in main.rs?";
    let keywords = extract_keywords(question);
    assert!(keywords.contains("extract_keywords"));
    assert!(!keywords.contains("how"));
    assert!(!keywords.contains("does"));
    assert!(!keywords.contains("main.rs"));
}

#[test]
fn test_line_matches_keyword() {
    assert!(line_matches_keyword("fn process_items()", "process"));
    assert!(line_matches_keyword("fn process_items()", "proces"));
    assert!(!line_matches_keyword(
        "fn process_items()",
        "completelyunrelated"
    ));
}

#[test]
fn keywords_are_joined_by_spaces() {
    assert_eq!(
        extract_keywords("how does extract_keywords work in main.rs?"),
        "extract_keywords main"
    );
    assert_eq!(extract_keywords("WHERE is Player.cs"), "Player");
    assert_eq!(extract_keywords("a.json.b"), "b");
}

#[test]
fn extensions_are_removed_whole() {
    for (name, word) in [
        ("config.json", "config"),
        ("wave.hlsl", "wave"),
        ("wave.h", "wave"),
        ("main.js", "main"),
        ("game.shader", "game"),
        ("Cargo.toml", "Cargo"),
        ("x.j.tsson", "x"),
        ("x..mdhlsl", "x"),
    ] {
        assert_eq!(extract_keywords(name), word, "{}", name);
    }
}

#[test]
fn keywords_of_keywords_are_the_same() {
    for question in ["how does config.json work?", "", "what is it", "a.b.c Foo_bar", "naïve Größe"] {
        let once = extract_keywords(question);
        assert_eq!(extract_keywords(&once), once, "{}", question);
    }
}

#[test]
fn a_keyword_one_edit_off_matches() {
    let line = "fn process_items()";
    for kw in ["procass", "processs", "proess", "xprocess", "item()", "rocess"] {
        assert!(line_matches_keyword(line, kw), "{}", kw);
    }
    for kw in ["pracass", "prcss", "z", "completely"] {
        assert!(!line_matches_keyword(line, kw), "{}", kw);
    }
    assert!(line_matches_keyword(line, "p"));
    assert!(line_matches_keyword(line, ""));
    assert!(!line_matches_keyword("", "ab"));
}

#[test]
fn a_question_without_keywords_stands_for_itself() {
    assert_eq!(extract_keywords("what is the file?"), "what is the file?");
    assert_eq!(extract_keywords(""), "");
}

#[test]
fn query_words_are_lower_case() {
    assert_eq!(lower_keywords("Find PlayerController"), vec!["find", "playercontroller"]);
}

#[test]
fn a_blank_query_asks_for_everything() {
    assert_eq!(queries_for("  "), ("*".to_string(), "".to_string()));
    assert_eq!(queries_for("find it"), ("find it".to_string(), "*".to_string()));
}

#[test]
fn ranges_that_touch_are_joined() {
    assert_eq!(context_ranges(&vec![2, 5, 20], 1, 30), vec![(1, 6), (19, 21)]);
    assert_eq!(context_ranges(&vec![0, 29], 2, 30), vec![(0, 2), (27, 29)]);
    assert_eq!(context_ranges(&vec![3, 4], 0, 30), vec![(3, 4)]);
    assert_eq!(context_ranges(&vec![3], usize::MAX, 30), vec![(0, 29)]);
}

#[test]
fn words_that_hold_a_keyword_stand_out() {
    let parts: Vec<(String, bool)> = highlight_match("let Total = sub_total + x;", "total")
        .into_iter()
        .map(|s| (s.text, s.highlighted))
        .collect();
    let expected: Vec<(String, bool)> = vec![
        ("let", false),
        (" ", false),
        ("Total", true),
        (" = ", false),
        ("sub_total", true),
        (" + ", false),
        ("x", false),
        (";", false),
    ]
    .into_iter()
    .map(|(t, h)| (t.to_string(), h))
    .collect();
    assert_eq!(parts, expected);
}

#[test]
fn highlighting_keeps_the_line() {
    for line in ["", "  fn main() {", "日本 = total;", "___"] {
        let joined: String = highlight_match(line, "main total").into_iter().map(|s| s.text).collect();
        assert_eq!(joined, line);
    }
}

#[test]
fn without_keywords_nothing_stands_out() {
    let parts = highlight_match("fn main() {", "   ");
    assert_eq!(parts.len(), 1);
    assert_eq!(parts[0].text, "fn main() {");
    assert!(!parts[0].highlighted);
}

fn shown(report: &[ReportLine]) -> Vec<String> {
    report
        .iter()
        .map(|l| match l {
            ReportLine::Gap => "--".to_string(),
            ReportLine::Match { label, parts } => {
                format!("{}*{}", label, parts.iter().map(|p| p.text.as_str()).collect::<String>())
            }
            ReportLine::Nearby { label, text } => format!("{} {}", label, text),
        })
        .collect()
}

#[test]
fn a_report_shows_matches_and_their_surroundings() {
    let content = "one\ntwo needle\nthree\nfour\nfive\nsix needle\n";
    assert_eq!(
        shown(&file_report(content, "needle", 1)),
        vec![
            "Line    1: one",
            "Line    2:*two needle",
            "Line    3: three",
            "--",
            "Line    5: five",
            "Line    6:*six needle",
        ]
    );
}

#[test]
fn a_report_without_matches_shows_the_first_line() {
    assert_eq!(shown(&file_report("one\ntwo\n", "needle", 0)), vec!["Line    1:*one"]);
    assert!(file_report("", "needle", 3).is_empty());
}

fn hit(path: &str, content: &str) -> Option<FoundFile> {
    Some(FoundFile {
        path: path.to_string(),
        score: "1.50".to_string(),
        content: content.to_string(),
    })
}

#[test]
fn each_file_is_described_once() {
    let hits = vec![hit("a.rs", "x\ny"), None, hit("a.rs", "other"), hit("b.rs", "")];
    assert_eq!(
        describe_hits(&hits),
        "FILE: a.rs (score 1.50, 2 lines total)\nx\ny\n---\nFILE: b.rs (score 1.50, 0 lines total)\n\n---\n"
    );
}

#[test]
fn long_files_are_described_by_their_first_lines() {
    let content: String = (1..=20).map(|i| format!("{}\n", i)).collect();
    let text = describe_hits(&vec![hit("a.rs", &content)]);
    assert!(text.contains("20 lines total"));
    assert!(text.contains("\n15\n---"));
    assert!(!text.contains("\n16"));
}

#[test]
fn no_hits_are_said_to_be_none() {
    assert_eq!(describe_hits(&vec![]), "No results found for that query.");
    assert_eq!(describe_hits(&vec![None]), "");
}

#[test]
fn a_search_that_fails_says_why() {
    assert_eq!(
        tool_search_codebase(&SearchOutcome::NoReader("locked".to_string())),
        "Error opening index reader: locked"
    );
    assert_eq!(
        tool_search_codebase(&SearchOutcome::Failed("broken".to_string())),
        "Search error: broken"
    );
    assert_eq!(
        tool_search_codebase(&SearchOutcome::Hits(vec![])),
        "No results found for that query."
    );
}
