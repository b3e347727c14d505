use cix::agent::{AgentRun, Command, Event, StopReason, MAX_AGENT_STEPS};
use cix::history::AgentHistory;
use cix::json::parse_json;
use cix::tools::CommandOutput;
use cix::turns::{AgentTurn, ProposedAction};

fn turn(actions: &[(&str, &str)]) -> Event {
    Event::Turn(Some(AgentTurn {
        thought: Some("hm".to_string()),
        actions: actions
            .iter()
            .map(|(name, input)| ProposedAction {
                action: name.to_string(),
                action_input: parse_json(input).unwrap(),
            })
            .collect(),
    }))
}

fn tell(run: &mut AgentRun, event: Event) -> Command {
    assert!(run.accepts(&event), "{:?}", event);
    run.advance(event)
}

fn prompt_of(command: &Command) -> &str {
    match command {
        Command::Think { prompt, .. } => prompt,
        other => panic!("{:?}", other),
    }
}

#[test]
fn a_run_begins_with_a_turn() {
    let (run, command) = AgentRun::start("the goal", false);
    match &command {
        Command::Think { turn, prompt } => {
            assert_eq!(*turn, 1);
            assert!(prompt.contains("GOAL:\nthe goal\n"));
            assert!(prompt.contains("(nothing yet — this is your first step)"));
        }
        other => panic!("{:?}", other),
    }
    assert!(run.accepts(&Event::Turn(None)));
    assert!(!run.accepts(&Event::Observed(String::new())));
    assert!(!run.accepts(&Event::Summary(None)));
}

#[test]
fn an_answer_stops_the_run() {
    let (mut run, _) = AgentRun::start("g", false);
    let command = tell(&mut run, turn(&[("final_answer", r#"{"answer": "42"}"#)]));
    match command {
        Command::Stop(StopReason::Answer(text)) => assert_eq!(text, "42"),
        other => panic!("{:?}", other),
    }
    assert!(!run.accepts(&Event::Turn(None)));
}

#[test]
fn actions_are_carried_out_in_order() {
    let (mut run, _) = AgentRun::start("g", true);
    let command = tell(
        &mut run,
        turn(&[
            ("search_codebase", r#"{"query": "q"}"#),
            ("nonsense", "{}"),
            ("read_file", r#"{"path": "a.rs", "start_line": 3, "end_line": 4}"#),
            ("list_directory", "{}"),
            ("run_command", r#"{"cmd": "ls"}"#),
        ]),
    );
    match command {
        Command::Search(query) => assert_eq!(query, "q"),
        other => panic!("{:?}", other),
    }
    match tell(&mut run, Event::Observed("found".to_string())) {
        Command::Read { path, start, end, input } => {
            assert_eq!((path.as_str(), start, end), ("a.rs", 3, 4));
            assert_eq!(input.value().text_member("path"), Some("a.rs"));
        }
        other => panic!("{:?}", other),
    }
    match tell(&mut run, Event::Observed("lines".to_string())) {
        Command::List(path) => assert_eq!(path, "."),
        other => panic!("{:?}", other),
    }
    match tell(&mut run, Event::Observed("files".to_string())) {
        Command::Run(cmd) => assert_eq!(cmd, "ls"),
        other => panic!("{:?}", other),
    }
    let command =
        tell(&mut run, Event::Ran(CommandOutput { success: false, text: "out".to_string() }));
    let prompt = prompt_of(&command);
    assert!(prompt.contains(
        "Thought: hm\nAction: search_codebase\nAction Input: {\"query\":\"q\"}\nObservation:\nfound\n"
    ));
    assert!(prompt.contains(
        "Unknown action 'nonsense'. Choose one of the actions listed in the system prompt."
    ));
    assert!(prompt.contains("Observation:\n(failed):\nout\n"));
}

#[test]
fn a_blank_command_is_not_run() {
    let (mut run, _) = AgentRun::start("g", true);
    let command = tell(&mut run, turn(&[("run_command", r#"{"cmd": " "}"#)]));
    assert!(prompt_of(&command).contains("Error: no command provided."));
}

#[test]
fn without_leave_nothing_is_edited() {
    let (mut run, _) = AgentRun::start("g", false);
    let edits = r#"{"edits": [{"file_path": "a", "mode": "create", "replace": "x"}]}"#;
    let command = tell(&mut run, turn(&[("write_file_edits", edits)]));
    assert!(prompt_of(&command).contains("Unknown action 'write_file_edits'."));
    let (mut run, _) = AgentRun::start("g", true);
    match tell(&mut run, turn(&[("write_file_edits", edits)])) {
        Command::Edit(blocks) => assert_eq!(blocks.len(), 1),
        other => panic!("{:?}", other),
    }
}

#[test]
fn edits_are_followed_by_three_checks_at_most() {
    let (mut run, _) = AgentRun::start("g", true);
    for attempt in 1..=4 {
        let input = format!("{{\"edits\": [{}]}}", attempt);
        let command = tell(&mut run, turn(&[("write_file_edits", input.as_str())]));
        assert!(matches!(command, Command::Edit(_)));
        let command = tell(
            &mut run,
            Event::Edited {
                observation: "Applied".to_string(),
                applied: true,
                build_command: Some("make".to_string()),
            },
        );
        if attempt <= 3 {
            match command {
                Command::Build(cmd) => assert_eq!(cmd, "make"),
                other => panic!("{:?}", other),
            }
            let command = tell(
                &mut run,
                Event::Ran(CommandOutput { success: attempt == 2, text: "log".to_string() }),
            );
            let expected = if attempt == 2 {
                "Applied\nBuild check 'make', attempt 2/3: PASSED.\nlog\n".to_string()
            } else {
                format!(
                    "Applied\nBuild check 'make', attempt {}/3: FAILED.\nlog\nPlease analyze this error and propose a fix using write_file_edits, or call final_answer explaining the issue if you cannot resolve it.\n",
                    attempt
                )
            };
            assert!(prompt_of(&command).contains(&expected));
        } else {
            assert!(prompt_of(&command).contains(
                "Applied\nMaximum build/test retry attempts reached; not running the build check again."
            ));
        }
    }
}

#[test]
fn edits_that_were_not_written_are_not_checked() {
    let (mut run, _) = AgentRun::start("g", true);
    tell(&mut run, turn(&[("write_file_edits", "{}")]));
    let command = tell(
        &mut run,
        Event::Edited {
            observation: "User declined to apply these edits.".to_string(),
            applied: false,
            build_command: Some("make".to_string()),
        },
    );
    assert!(prompt_of(&command).contains("User declined to apply these edits."));
}

#[test]
fn unreadable_replies_stop_the_run_at_the_third() {
    let (mut run, _) = AgentRun::start("g", false);
    let command = tell(&mut run, Event::Turn(None));
    assert!(prompt_of(&command).contains("was not valid JSON matching"));
    assert!(prompt_of(&command).contains("Action: (none)\nAction Input: null\n"));
    tell(&mut run, turn(&[]));
    let command = tell(&mut run, Event::Turn(None));
    assert!(matches!(command, Command::Stop(StopReason::NoValidTurn)));
}

#[test]
fn a_readable_reply_forgives_the_others() {
    let (mut run, _) = AgentRun::start("g", false);
    tell(&mut run, Event::Turn(None));
    tell(&mut run, Event::Turn(None));
    tell(&mut run, turn(&[("a", "{}")]));
    let command = tell(&mut run, Event::Turn(None));
    assert!(matches!(command, Command::Think { .. }));
}

#[test]
fn a_rejected_turn_does_nothing() {
    let (mut run, _) = AgentRun::start("g", false);
    let command = tell(
        &mut run,
        turn(&[("run_command", r#"{"cmd": "ls"}"#), ("final_answer", "{}")]),
    );
    assert!(prompt_of(&command).contains("final_answer must be the ONLY action in its turn."));
}

#[test]
fn the_same_call_is_refused_at_the_fourth_time() {
    let (mut run, _) = AgentRun::start("g", false);
    for time in 1..=5 {
        let command = tell(&mut run, turn(&[("list_directory", r#"{"path": "x"}"#)]));
        if time == 4 {
            assert!(prompt_of(&command).contains(
                "You have called list_directory with the EXACT SAME action_input ({\"path\":\"x\"}) 4 times in a row"
            ));
        } else {
            assert!(matches!(command, Command::List(_)), "{}", time);
            tell(&mut run, Event::Observed(format!("seen {}", time)));
        }
    }
}

#[test]
fn three_searches_in_a_row_call_for_a_remark() {
    for (text, remark) in [
        ("No results found for that query.", "You have searched 3 times in a row with no results."),
        ("FILE: a", "You have called search_codebase 3 times in a row."),
    ] {
        let (mut run, _) = AgentRun::start("g", false);
        tell(
            &mut run,
            turn(&[
                ("search_codebase", r#"{"query": "a"}"#),
                ("search_codebase", r#"{"query": "b"}"#),
                ("search_codebase", r#"{"query": "c"}"#),
            ]),
        );
        tell(&mut run, Event::Observed("FILE: x".to_string()));
        tell(&mut run, Event::Observed("FILE: x".to_string()));
        let command = tell(&mut run, Event::Observed(text.to_string()));
        assert!(prompt_of(&command).contains(remark));
    }
}

#[test]
fn a_run_has_no_more_than_its_turns() {
    let (mut run, mut command) = AgentRun::start("g", false);
    let mut turns = 0;
    loop {
        command = match command {
            Command::Think { turn: number, .. } => {
                turns += 1;
                assert_eq!(number, turns);
                tell(&mut run, turn(&[("unknown", &format!("{}", turns))]))
            }
            Command::Summarize(_) => tell(&mut run, Event::Summary(None)),
            Command::Stop(StopReason::TurnsUsedUp) => break,
            other => panic!("{:?}", other),
        };
    }
    assert_eq!(turns, MAX_AGENT_STEPS);
}

#[test]
fn old_steps_are_folded_into_a_summary() {
    let (mut run, mut command) = AgentRun::start("g", false);
    for i in 0..7 {
        assert!(matches!(command, Command::Think { .. }));
        command = tell(&mut run, turn(&[("unknown", &format!("{}", i))]));
    }
    match &command {
        Command::Summarize(prompt) => {
            assert!(prompt.contains("EXISTING SUMMARY:\n(none yet)\n\nNEW STEPS TO FOLD IN:\nStep 1: action=unknown input=0 -> Unknown action 'unknown'. Choose one of the actions listed in the system prompt.\n\nRespond"));
        }
        other => panic!("{:?}", other),
    }
    let command = tell(&mut run, Event::Summary(Some("  short \n".to_string())));
    let prompt = prompt_of(&command);
    assert!(prompt.contains("Summary of earlier steps:\nshort\n\n---\n\nThought: hm\n"));
    assert!(!prompt.contains("Action Input: 0\n"));
    assert!(prompt.contains("Action Input: 1\n"));
}

fn history_of(n: usize) -> AgentHistory {
    let mut history = AgentHistory::new();
    for i in 1..=n {
        history.record_step(
            format!("t{}", i),
            "act".to_string(),
            parse_json(&i.to_string()).unwrap(),
            format!("{}{}", "o".repeat(250), i),
        );
    }
    history
}

#[test]
fn steps_are_rendered_whole_and_on_one_line() {
    let mut history = AgentHistory::new();
    assert!(history.is_empty());
    history.record_step(
        "t".to_string(),
        "a".to_string(),
        parse_json("{\"k\": 1}").unwrap(),
        "x\ny".to_string(),
    );
    assert!(!history.is_empty());
    history.push_bare_observation("more");
    let step = &history.steps[0];
    assert_eq!(
        step.render(),
        "Thought: t\nAction: a\nAction Input: {\"k\":1}\nObservation:\nx\ny\nmore\n"
    );
    assert_eq!(step.render_compact(), "Step 1: action=a input={\"k\":1} -> x y more");
    let long = &history_of(1).steps[0];
    assert_eq!(
        long.render_compact(),
        format!("Step 1: action=act input=1 -> {} [...]", "o".repeat(200))
    );
}

#[test]
fn a_short_history_is_left_alone() {
    let mut history = history_of(6);
    let before = history.render();
    assert_eq!(history.start_summary(), None);
    assert_eq!(history.render(), before);
}

#[test]
fn the_latest_steps_stay_in_full() {
    let mut history = history_of(8);
    let prompt = history.start_summary().unwrap();
    assert!(prompt.contains("Step 2: action=act"));
    history.finish_summary(None);
    assert_eq!(history.steps.len(), 6);
    assert_eq!(history.steps[0].step_number, 3);
    assert!(history.summary.starts_with("Step 1: action=act input=1 -> ooo"));
    assert!(history.steps[0].observation.ends_with("o3"));
    history.record_step(
        "t".to_string(),
        "act".to_string(),
        parse_json("9").unwrap(),
        "last".to_string(),
    );
    assert_eq!(history.start_summary(), None);
    assert_eq!(history.steps.len(), 7);
    assert_eq!(
        history.steps[0].observation,
        format!("{} [...truncated, see summary...]", "o".repeat(200))
    );
    assert!(history.steps[1].observation.ends_with("o4"));
}

#[test]
fn any_number_of_steps_can_be_shortened() {
    let mut history = history_of(2);
    history.compact_overflow_heuristically(1);
    assert!(history.steps[0].observation.ends_with("see summary...]"));
    assert!(history.steps[1].observation.ends_with("o2"));
    history.compact_overflow_heuristically(99);
    assert!(history.steps[1].observation.ends_with("see summary...]"));
}

#[test]
fn a_run_tells_which_actions_it_took_up() {
    let (mut run, _) = AgentRun::start("g", false);
    assert_eq!(run.taken(), 0);
    tell(&mut run, turn(&[("nonsense", "{}"), ("list_directory", "{}"), ("other", "{}")]));
    assert_eq!(run.taken(), 2);
    assert_eq!(run.actions()[1].action, "list_directory");
    tell(&mut run, Event::Observed("files".to_string()));
    assert_eq!(run.taken(), 3);
}
