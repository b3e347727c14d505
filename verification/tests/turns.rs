use cix::json::{copy_json, parse_json, read_json, same_json, JsonDocument, JsonNumber, JsonValue};
use cix::prompts::{
    answer_prompt, ask_goal, build_tools_description, clean_reply, edit_goal, extract_json_object,
    gemini_reply, gemini_url, prompt_for_turn, rewrite_prompt, system_preamble,
    turn_candidates, use_gemini,
};
use cix::turns::{
    agent_action_schema, answer_to_give, check_turn, edits_to_make, lines_to_read, normalize_turn,
    path_to_read, settle_input, AgentTurnRaw, ProposedAction, ProposedActionRaw,
};

#[test]
fn test_extract_json_object() {
    let text = "Sure, here you go:\n```json\n{\"action\": \"final_answer\", \"action_input\": {}}\n```\nlet me know if that helps";
    let extracted = extract_json_object(text).unwrap();
    let parsed = parse_json(extracted).unwrap();
    assert_eq!(parsed.value().text_member("action"), Some("final_answer"));
}

#[test]
fn test_normalize_turn_string_action_input() {
    // Simulates Gemini's constrained shape: action_input as a JSON-encoded string.
    let raw = AgentTurnRaw {
        thought: Some("reading a file".to_string()),
        actions: vec![ProposedActionRaw {
            action: "read_file".to_string(),
            action_input: read_json(&serde_json::Value::String(
                "{\"path\": \"index.html\", \"start_line\": 1, \"end_line\": 50}".to_string(),
            )),
        }],
    };
    let turn = normalize_turn(raw);
    assert_eq!(turn.actions.len(), 1);
    assert_eq!(
        turn.actions[0]
            .action_input
            .value()
            .get("path")
            .and_then(|v| v.as_str()),
        Some("index.html")
    );
}

#[test]
fn test_normalize_turn_object_action_input() {
    // Simulates Ollama's looser shape: action_input already a real object.
    let raw = AgentTurnRaw {
        thought: None,
        actions: vec![ProposedActionRaw {
            action: "list_directory".to_string(),
            action_input: parse_json("{\"path\": \".\"}").unwrap(),
        }],
    };
    let turn = normalize_turn(raw);
    assert_eq!(
        turn.actions[0]
            .action_input
            .value()
            .get("path")
            .and_then(|v| v.as_str()),
        Some(".")
    );
}

#[test]
fn test_agent_action_schema() {
    let schema = agent_action_schema();
    assert!(schema.is_object());
    assert!(schema.get("properties").is_some());
}

fn document(text: &str) -> JsonDocument {
    parse_json(text).unwrap()
}

#[test]
fn the_schema_says_what_a_turn_is() {
    let expected = document(
        r#"{
        "type": "object",
        "properties": {
            "thought": { "type": "string" },
            "actions": {
                "type": "array",
                "minItems": 1,
                "maxItems": 5,
                "items": {
                    "type": "object",
                    "properties": {
                        "action": { "type": "string" },
                        "action_input": {
                            "type": "string",
                            "description": "A JSON-ENCODED STRING (not a nested object) containing this action's arguments, e.g. \"{\\\"path\\\": \\\"index.html\\\", \\\"start_line\\\": 1, \\\"end_line\\\": 100}\". Must parse as valid JSON."
                        }
                    },
                    "required": ["action", "action_input"]
                }
            }
        },
        "required": ["actions"]
    }"#,
    );
    assert!(same_json(&agent_action_schema(), expected.value()));
}

#[test]
fn text_that_is_no_json_stays_text() {
    let raw = AgentTurnRaw {
        thought: None,
        actions: vec![ProposedActionRaw {
            action: "final_answer".to_string(),
            action_input: read_json(&serde_json::Value::String("all done".to_string())),
        }],
    };
    let turn = normalize_turn(raw);
    assert_eq!(turn.actions[0].action_input.value().as_str(), Some("all done"));
    assert_eq!(turn.actions[0].action_input.text(), "\"all done\"");
}

#[test]
fn only_a_text_gives_way_to_what_it_says() {
    let text = read_json(&serde_json::Value::String("7".to_string()));
    assert_eq!(settle_input(&text, Some(document("7"))).value().as_u64(), Some(7));
    assert_eq!(settle_input(&document("8"), Some(document("7"))).value().as_u64(), Some(8));
    assert_eq!(settle_input(&text, None).value().as_str(), Some("7"));
}

#[test]
fn documents_are_read_whole() {
    let d = document(r#" {"b": [null, true, -3, 18446744073709551615, 1.5, "x\n"], "a": {}} "#);
    assert_eq!(
        d.text(),
        r#"{"a":{},"b":[null,true,-3,18446744073709551615,1.5,"x\n"]}"#
    );
    match d.value().get("b").unwrap() {
        JsonValue::Array(items) => {
            assert!(matches!(items[0], JsonValue::Null));
            assert!(matches!(items[1], JsonValue::Bool(true)));
            assert!(matches!(items[2], JsonValue::Number(JsonNumber::NegInt(-3))));
            assert!(matches!(items[3], JsonValue::Number(JsonNumber::PosInt(u64::MAX))));
            match &items[4] {
                JsonValue::Number(JsonNumber::Float(t)) => assert_eq!(t, "1.5"),
                other => panic!("{:?}", other),
            }
            assert_eq!(items[5].as_str(), Some("x\n"));
        }
        other => panic!("{:?}", other),
    }
    assert!(d.value().get("a").unwrap().is_object());
    assert!(d.value().get("c").is_none());
    assert!(parse_json("{").is_none());
    assert!(parse_json("").is_none());
}

#[test]
fn simple_documents_have_simple_texts() {
    for (text, compact) in [
        ("null", "null"),
        (" true ", "true"),
        ("false", "false"),
        ("0", "0"),
        ("-12", "-12"),
        ("1e2", "100.0"),
        ("-0", "-0.0"),
    ] {
        assert_eq!(document(text).text(), compact);
    }
    assert_eq!(JsonDocument::null().text(), "null");
}

#[test]
fn values_are_equal_as_serde_json_has_it() {
    let texts = [
        "null", "true", "false", "0", "1", "-1", "1.0", "0.0", "-0.0", "1e-400", "\"a\"", "\"b\"",
        "[]", "[1]", "[1,2]", "{}", "{\"a\":1}", "{\"a\":1.0}", "{\"a\":1,\"b\":[2]}",
        "{\"b\":[2],\"a\":1}",
    ];
    for x in texts {
        for y in texts {
            let vx: serde_json::Value = serde_json::from_str(x).unwrap();
            let vy: serde_json::Value = serde_json::from_str(y).unwrap();
            assert_eq!(
                same_json(read_json(&vx).value(), read_json(&vy).value()),
                vx == vy,
                "{} {}",
                x,
                y
            );
        }
    }
}

#[test]
fn copies_say_the_same() {
    let d = document(r#"{"a": [1, {"b": "c"}], "d": -1.5}"#);
    assert!(same_json(&copy_json(d.value()), d.value()));
    assert_eq!(d.copy().text(), d.text());
}

fn action(name: &str) -> ProposedAction {
    ProposedAction { action: name.to_string(), action_input: JsonDocument::null() }
}

fn fault(names: &[&str]) -> Option<String> {
    check_turn(&names.iter().map(|n| action(n)).collect())
}

#[test]
fn turns_are_checked_before_anything_is_done() {
    assert_eq!(fault(&["read_file"; 5]), None);
    assert_eq!(
        fault(&["read_file"; 6]).unwrap(),
        "Observation: You proposed 6 actions in one turn; the maximum is 5. Split this into smaller turns."
    );
    assert!(fault(&["read_file", "final_answer"]).unwrap().contains("ONLY action in its turn"));
    assert!(fault(&["write_file_edits", "write_file_edits"])
        .unwrap()
        .contains("write_file_edits may appear at most once"));
    assert!(fault(&["run_command", "read_file", "run_command"])
        .unwrap()
        .contains("run_command may appear at most once"));
    assert_eq!(fault(&["final_answer"]), None);
    assert_eq!(fault(&["run_command", "write_file_edits"]), None);
}

#[test]
fn arguments_have_defaults() {
    let d = document(r#"{"path": "a", "file_path": "b", "start_line": 5}"#);
    assert_eq!(path_to_read(d.value()), "a");
    assert_eq!(lines_to_read(d.value()), (5, 105));
    let d = document(r#"{"file_path": "b", "end_line": 9}"#);
    assert_eq!(path_to_read(d.value()), "b");
    assert_eq!(lines_to_read(d.value()), (1, 9));
    let d = document(r#"{"path": 3, "file_path": "b", "start_line": -5}"#);
    assert_eq!(path_to_read(d.value()), "");
    assert_eq!(lines_to_read(d.value()), (1, 101));
    let d = document(r#"{"start_line": 18446744073709551615}"#);
    assert_eq!(lines_to_read(d.value()), (usize::MAX, usize::MAX));
    assert!(edits_to_make(d.value()).is_empty());
}

#[test]
fn answers_come_as_members_or_texts() {
    assert_eq!(answer_to_give(document(r#"{"answer": "yes"}"#).value()), "yes");
    assert_eq!(answer_to_give(document(r#""plain""#).value()), "plain");
    assert_eq!(answer_to_give(document("{}").value()), "(no answer text provided)");
    assert_eq!(answer_to_give(document("[1]").value()), "(no answer text provided)");
}

#[test]
fn replies_lose_their_fences() {
    assert_eq!(clean_reply(" ```json\n{\"a\":1}\n```\n"), "{\"a\":1}");
    assert_eq!(clean_reply("```\n{}\n``````"), "{}");
    assert_eq!(clean_reply("{}"), "{}");
}

#[test]
fn braces_frame_an_object() {
    assert_eq!(extract_json_object("é { a } } b"), Some("{ a } }"));
    assert_eq!(extract_json_object("} {"), None);
    assert_eq!(extract_json_object("{"), None);
    assert_eq!(extract_json_object(""), None);
}

#[test]
fn a_reply_is_tried_clean_and_by_its_braces() {
    assert_eq!(turn_candidates("so: {a} "), vec!["so: {a}", "{a}"]);
    assert_eq!(turn_candidates("none"), vec!["none"]);
}

#[test]
fn the_provider_decides_before_the_model() {
    assert!(use_gemini("Gemini", "llama"));
    assert!(!use_gemini("ollama", "gemini-3"));
    assert!(!use_gemini("LOCAL", "gemini-3"));
    assert!(use_gemini("auto", "models/Gemini-3"));
    assert!(!use_gemini("auto", "llama"));
    assert!(!use_gemini("ollama", "gemini-3.5-flash-lite"));
}

#[test]
fn gemini_is_asked_at_its_address() {
    assert_eq!(
        gemini_url("models/gemini-3", "k"),
        "https://generativelanguage.googleapis.com/v1beta/models/gemini-3:generateContent?key=k"
    );
    let parts = |v: &[&str]| v.iter().map(|s| s.to_string()).collect::<Vec<String>>();
    assert_eq!(gemini_reply(&Some(vec![parts(&["a", "b"]), parts(&["c"])])), "a");
    assert_eq!(gemini_reply(&Some(vec![parts(&[]), parts(&["c"])])), "");
    assert_eq!(gemini_reply(&None), "");
}

#[test]
fn prompts_hold_what_they_are_given() {
    assert!(ask_goal("why?").ends_with("USER QUESTION:\nwhy?"));
    assert!(edit_goal("do it").ends_with("INSTRUCTION:\ndo it"));
    assert!(answer_prompt("CTX", "why?").ends_with("CODEBASE CONTEXT:\nCTX\n\nUSER QUESTION:\nwhy?\n"));
    let text = rewrite_prompt("do it", "CTX");
    assert!(text.contains("INSTRUCTION:\ndo it\n\nRELEVANT CODEBASE CONTEXT:\nCTX\n\nOUTPUT FORMAT:"));
    assert!(build_tools_description(true).contains("- write_file_edits:"));
    assert!(!build_tools_description(false).contains("- write_file_edits:"));
    let first = system_preamble("G", false);
    assert!(first.contains("GOAL:\nG\n\nProceed step by step."));
    assert!(first.contains("{\"thought\": \"<brief reasoning>\", \"actions\": [{\"action\""));
    assert!(first.ends_with(&build_tools_description(false)));
    assert_eq!(
        prompt_for_turn("F", "T"),
        "F\n\nTranscript so far:\nT\n\nWhat are your next action(s)? Respond with ONLY the JSON object."
    );
}
