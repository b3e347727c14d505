//! The agent's run: what is to be done next, given what came of what was done before.
use vstd::prelude::*;

use crate::edits::{edit_texts, edits_of, EditBlock, EditText};
use crate::history::{
    folded, law_summary_prompt_shows_the_summary, law_transcript_shows_the_steps, no_history,
    prepared, recorded, remarked, render_history, summary_need, summary_prompt, AgentHistory,
    HistoryText, StepText,
};
use crate::json::{
    compact, json_same, law_members_are_found, law_text_members_are_found, lists, lists_no,
    lists_no_text, proper, same_json, Json, JsonDocument, NumberText,
};
use crate::numbers::{append_number, decimal};
use crate::prompts::{
    preamble, prompt_for_turn, system_preamble, tools_description, turn_prompt, PREAMBLE_FORM,
    PREAMBLE_HEAD, TOOLS_END, TOOLS_HEAD, TOOLS_WRITE,
};
use crate::strings::{
    blank_text, has_prefix, is_blank, lemma_occurs_behind, lemma_occurs_between,
    lemma_occurs_in_front, lemma_occurs_whole, occurs, option_text, text_contains, trim,
};
use crate::text::{append_text, is_ws, same_text};
use crate::tools::CommandOutput;
use crate::turns::{
    answer_argument, answer_to_give, argument_or, check_turn, edits_argument, edits_to_make,
    lines_argument, lines_to_read, path_argument, path_to_read, proposed_texts, text_argument,
    turn_fault, AgentTurn, ProposedAction, ProposedText, TurnText, MAX_ACTIONS_PER_TURN,
};

verus! {

/// How many turns a run may have.
pub const MAX_AGENT_STEPS: usize = 12;

/// How many times the project is checked after edits.
pub const MAX_EDIT_BUILD_RETRIES: usize = 3;

/// How many times in a row the same call may be repeated.
pub const MAX_IDENTICAL_REPEATS: usize = 2;

/// How many replies in a row may be unreadable before the run stops.
pub const MAX_PARSE_FAILURES: usize = 3;

/// How many searches in a row call for a remark.
pub const MAX_SEARCHES_IN_A_ROW: usize = 3;

// ---------------------------------------------------------------------------------------------
// Commands and events
// ---------------------------------------------------------------------------------------------
/// Why a run ends.
#[derive(Debug)]
pub enum StopReason {
    /// The agent gave its answer.
    Answer(String),
    /// The model's replies could not be read.
    NoValidTurn,
    /// There are no turns left.
    TurnsUsedUp,
}

/// What is to be done next.
#[derive(Debug)]
pub enum Command {
    /// Ask the model for a summary.
    Summarize(String),
    /// Ask the model for its turn of this number.
    Think { turn: usize, prompt: String },
    /// Search the index.
    Search(String),
    /// Read lines of a file. The arguments as they came are there for a message.
    Read { path: String, start: usize, end: usize, input: JsonDocument },
    /// List a folder.
    List(String),
    /// Run a command that the agent asks for.
    Run(String),
    /// Propose edits, and make them.
    Edit(Vec<EditBlock>),
    /// Run the command that checks the project.
    Build(String),
    /// End the run.
    Stop(StopReason),
}

/// What a reason to stop says.
#[verifier::ext_equal]
pub enum StopText {
    Answer(Seq<char>),
    NoValidTurn,
    TurnsUsedUp,
}

/// What a command says.
#[verifier::ext_equal]
pub enum CommandText {
    Summarize(Seq<char>),
    Think(int, Seq<char>),
    Search(Seq<char>),
    Read { path: Seq<char>, start: usize, end: usize, input: crate::json::Json },
    List(Seq<char>),
    Run(Seq<char>),
    Edit(Seq<EditText>),
    Build(Seq<char>),
    Stop(StopText),
}

impl View for StopReason {
    type V = StopText;

    open spec fn view(&self) -> StopText {
        match *self {
            StopReason::Answer(text) => StopText::Answer(text@),
            StopReason::NoValidTurn => StopText::NoValidTurn,
            StopReason::TurnsUsedUp => StopText::TurnsUsedUp,
        }
    }
}

impl View for Command {
    type V = CommandText;

    open spec fn view(&self) -> CommandText {
        match *self {
            Command::Summarize(prompt) => CommandText::Summarize(prompt@),
            Command::Think { turn, prompt } => CommandText::Think(turn as int, prompt@),
            Command::Search(query) => CommandText::Search(query@),
            Command::Read { path, start, end, input } => CommandText::Read {
                path: path@,
                start,
                end,
                input: input@,
            },
            Command::List(path) => CommandText::List(path@),
            Command::Run(cmd) => CommandText::Run(cmd@),
            Command::Edit(edits) => CommandText::Edit(edit_texts(edits@)),
            Command::Build(cmd) => CommandText::Build(cmd@),
            Command::Stop(reason) => CommandText::Stop(reason@),
        }
    }
}

/// What came of a command.
#[derive(Debug)]
pub enum Event {
    /// The summary that the model wrote, if it did.
    Summary(Option<String>),
    /// The turn in the model's reply, if it could be read.
    Turn(Option<AgentTurn>),
    /// What a search, a file or a folder showed.
    Observed(String),
    /// What a command gave.
    Ran(CommandOutput),
    /// What came of edits, whether any was written, and the command that checks the project.
    Edited { observation: String, applied: bool, build_command: Option<String> },
}

/// What an event says.
#[verifier::ext_equal]
pub enum EventText {
    Summary(Option<Seq<char>>),
    Turn(Option<TurnText>),
    Observed(Seq<char>),
    Ran(bool, Seq<char>),
    Edited { observation: Seq<char>, applied: bool, build_command: Option<Seq<char>> },
}

impl View for Event {
    type V = EventText;

    open spec fn view(&self) -> EventText {
        match *self {
            Event::Summary(reply) => EventText::Summary(option_text(reply)),
            Event::Turn(turn) => EventText::Turn(
                match turn {
                    Some(t) => Some(t@),
                    None => None,
                },
            ),
            Event::Observed(text) => EventText::Observed(text@),
            Event::Ran(output) => EventText::Ran(output.success, output.text@),
            Event::Edited { observation, applied, build_command } => EventText::Edited {
                observation: observation@,
                applied,
                build_command: option_text(build_command),
            },
        }
    }
}

// ---------------------------------------------------------------------------------------------
// The model of a run
// ---------------------------------------------------------------------------------------------
/// What a run waits for.
#[verifier::ext_equal]
pub enum PhaseText {
    Summarizing,
    Thinking,
    Searching,
    Looking,
    Running,
    Editing,
    Building { observation: Seq<char>, command: Seq<char> },
    Done,
}

/// The state of a run.
#[verifier::ext_equal]
pub struct RunText {
    pub first: Seq<char>,
    pub allow_write: bool,
    pub history: HistoryText,
    pub turn: int,
    pub build_retries: int,
    pub parse_failures: int,
    pub searches: int,
    pub last_call: Option<ProposedText>,
    pub repeats: int,
    pub thought: Seq<char>,
    pub actions: Seq<ProposedText>,
    pub next: int,
    pub phase: PhaseText,
}

/// A run that has not begun.
pub open spec fn fresh_run(goal: Seq<char>, allow_write: bool) -> RunText {
    RunText {
        first: preamble(goal, allow_write),
        allow_write,
        history: no_history(),
        turn: 0,
        build_retries: 0,
        parse_failures: 0,
        searches: 0,
        last_call: None,
        repeats: 0,
        thought: ""@,
        actions: Seq::<ProposedText>::empty(),
        next: 0,
        phase: PhaseText::Done,
    }
}

/// Asks for a turn.
pub open spec fn think(r: RunText) -> (RunText, CommandText) {
    (
        RunText { phase: PhaseText::Thinking, ..r },
        CommandText::Think(r.turn, turn_prompt(r.first, render_history(r.history))),
    )
}

/// Begins a turn, with a summary of the oldest steps first where that is due.
pub open spec fn begin_turn(r: RunText) -> (RunText, CommandText) {
    if r.turn >= MAX_AGENT_STEPS {
        (
            RunText { phase: PhaseText::Done, ..r },
            CommandText::Stop(StopText::TurnsUsedUp),
        )
    } else {
        let begun = RunText { turn: r.turn + 1, history: prepared(r.history), ..r };
        if summary_need(r.history) is Fold {
            (
                RunText { phase: PhaseText::Summarizing, ..begun },
                CommandText::Summarize(summary_prompt(r.history)),
            )
        } else {
            think(begun)
        }
    }
}

/// Takes the current action's observation up.
pub open spec fn observe(r: RunText, observation: Seq<char>) -> RunText {
    let action = r.actions[r.next - 1];
    RunText {
        history: recorded(r.history, r.thought, action.action, action.input, observation),
        ..r
    }
}

/// What the agent is told of a call that it repeats once too often.
pub open spec fn repeat_remark(action: ProposedText, times: int) -> Seq<char> {
    "Observation: You have called "@ + action.action + " with the EXACT SAME action_input ("@
        + compact(action.input) + ") "@ + decimal(times as nat)
        + " times in a row and it keeps failing or returning the same result. Do not repeat this call unchanged again. Re-read the tool's argument names in the system prompt, change the input, try a different action, or call final_answer explaining you're stuck."@
}

/// What the agent is told of an action that there is not.
pub open spec fn unknown_remark(name: Seq<char>) -> Seq<char> {
    "Unknown action '"@ + name + "'. Choose one of the actions listed in the system prompt."@
}

/// Whether an action is the one before, unchanged.
pub open spec fn is_repeat(last: Option<ProposedText>, action: ProposedText) -> bool {
    match last {
        Some(call) => call.action == action.action && json_same(call.input, action.input),
        None => false,
    }
}

/// The run when the next action is taken up.
pub open spec fn taken(r: RunText) -> RunText {
    let action = r.actions[r.next];
    RunText {
        next: r.next + 1,
        repeats: if is_repeat(r.last_call, action) {
            r.repeats + 1
        } else {
            0
        },
        last_call: Some(action),
        ..r
    }
}

/// What one action brings about: the run after it, and a command, where it needs one.
pub open spec fn act(r: RunText) -> (RunText, Option<CommandText>) {
    let action = r.actions[r.next];
    let name = action.action;
    let input = action.input;
    let t = taken(r);
    let quiet = RunText { searches: 0, ..t };
    if t.repeats > MAX_IDENTICAL_REPEATS && name != "final_answer"@ {
        (
            RunText {
                history: remarked(t.history, repeat_remark(action, t.repeats + 1)),
                repeats: 0,
                ..t
            },
            None,
        )
    } else if name == "final_answer"@ {
        (
            RunText { phase: PhaseText::Done, ..t },
            Some(CommandText::Stop(StopText::Answer(answer_argument(input)))),
        )
    } else if name == "search_codebase"@ {
        (
            RunText { phase: PhaseText::Searching, ..t },
            Some(CommandText::Search(text_argument(input, "query"@, ""@))),
        )
    } else if name == "read_file"@ {
        let (start, end) = lines_argument(input);
        (
            RunText { phase: PhaseText::Looking, ..quiet },
            Some(CommandText::Read { path: path_argument(input), start, end, input }),
        )
    } else if name == "list_directory"@ {
        (
            RunText { phase: PhaseText::Looking, ..quiet },
            Some(CommandText::List(text_argument(input, "path"@, "."@))),
        )
    } else if name == "run_command"@ {
        let cmd = text_argument(input, "cmd"@, ""@);
        if is_blank(cmd) {
            (observe(quiet, "Error: no command provided."@), None)
        } else {
            (RunText { phase: PhaseText::Running, ..quiet }, Some(CommandText::Run(cmd)))
        }
    } else if name == "write_file_edits"@ && r.allow_write {
        (
            RunText { phase: PhaseText::Editing, ..quiet },
            Some(CommandText::Edit(edits_argument(input))),
        )
    } else {
        (observe(quiet, unknown_remark(name)), None)
    }
}

/// Goes on with the actions of a turn, up to the first that needs a command. Where there are none
/// left, the next turn begins.
pub open spec fn proceed(r: RunText) -> (RunText, CommandText)
    decreases r.actions.len() - r.next,
{
    if 0 <= r.next < r.actions.len() {
        match act(r).1 {
            Some(command) => (act(r).0, command),
            None => proceed(act(r).0),
        }
    } else {
        begin_turn(r)
    }
}

/// What the agent is told of a reply that could not be read.
pub const UNREADABLE_TURN: &'static str =
    "Observation: Your previous response was not valid JSON matching the required {\"thought\": ..., \"actions\": [...]} shape, or \"actions\" was empty. Respond with ONLY the JSON object, nothing else, and include at least one action. Remember: \"action_input\" must be a JSON-ENCODED STRING, not a nested object.";

/// What the agent is told when its searches find nothing.
pub const FRUITLESS_SEARCHES: &'static str =
    "Observation: You have searched 3 times in a row with no results. Stop searching with these terms. Either try ONE very different, broader keyword, or call final_answer explaining that you could not locate this in the codebase.";

/// What the agent is told when it does nothing but search.
pub const REPEATED_SEARCHES: &'static str =
    "Observation: You have called search_codebase 3 times in a row. Pick the most relevant FILE path shown above and call read_file on it now — you can batch this with your remaining searches in the same turn.";

/// The run after a reply of the model.
pub open spec fn receive_turn(r: RunText, turn: Option<TurnText>) -> (RunText, CommandText) {
    let readable = turn matches Some(t) && t.actions.len() > 0;
    if readable {
        let t = turn->Some_0;
        let heard = RunText { parse_failures: 0, ..r };
        match turn_fault(t.actions) {
            Some(fault) => begin_turn(
                RunText { history: remarked(r.history, fault), ..heard },
            ),
            None => proceed(
                RunText {
                    thought: match t.thought {
                        Some(text) => text,
                        None => ""@,
                    },
                    actions: t.actions,
                    next: 0,
                    ..heard
                },
            ),
        }
    } else if r.parse_failures + 1 >= MAX_PARSE_FAILURES {
        (
            RunText { parse_failures: r.parse_failures + 1, phase: PhaseText::Done, ..r },
            CommandText::Stop(StopText::NoValidTurn),
        )
    } else {
        begin_turn(
            RunText {
                parse_failures: r.parse_failures + 1,
                history: remarked(r.history, UNREADABLE_TURN@),
                ..r
            },
        )
    }
}

/// The run after a search.
pub open spec fn searched(r: RunText, observation: Seq<char>) -> RunText {
    let seen = observe(r, observation);
    if r.searches + 1 >= MAX_SEARCHES_IN_A_ROW {
        RunText {
            history: remarked(
                seen.history,
                if occurs(observation, "No results found"@) {
                    FRUITLESS_SEARCHES@
                } else {
                    REPEATED_SEARCHES@
                },
            ),
            searches: 0,
            ..seen
        }
    } else {
        RunText { searches: r.searches + 1, ..seen }
    }
}

/// What the agent is told of a command that it asked for.
pub open spec fn run_text(success: bool, text: Seq<char>) -> Seq<char> {
    "("@ + (if success {
        "success"@
    } else {
        "failed"@
    }) + "):\n"@ + text
}

/// What the agent is told of a check of the project.
pub open spec fn build_text(
    command: Seq<char>,
    attempt: int,
    success: bool,
    text: Seq<char>,
) -> Seq<char> {
    "\nBuild check '"@ + command + "', attempt "@ + decimal(attempt as nat) + "/"@ + decimal(
        MAX_EDIT_BUILD_RETRIES as nat,
    ) + (if success {
        ": PASSED.\n"@
    } else {
        ": FAILED.\n"@
    }) + text + (if success {
        ""@
    } else {
        "\nPlease analyze this error and propose a fix using write_file_edits, or call final_answer explaining the issue if you cannot resolve it."@
    })
}

/// What the agent is told where the project is not checked any more.
pub const NO_MORE_CHECKS: &'static str =
    "\nMaximum build/test retry attempts reached; not running the build check again.";

/// The run after edits.
pub open spec fn edited(
    r: RunText,
    observation: Seq<char>,
    applied: bool,
    build_command: Option<Seq<char>>,
) -> (RunText, CommandText) {
    match build_command {
        Some(command) => if !applied {
            proceed(observe(r, observation))
        } else if r.build_retries < MAX_EDIT_BUILD_RETRIES {
            (
                RunText { phase: PhaseText::Building { observation, command }, ..r },
                CommandText::Build(command),
            )
        } else {
            proceed(observe(r, observation + NO_MORE_CHECKS@))
        },
        None => proceed(observe(r, observation)),
    }
}

/// Whether a run waits for an event of that kind.
pub open spec fn awaits(phase: PhaseText, event: EventText) -> bool {
    match event {
        EventText::Summary(_) => phase is Summarizing,
        EventText::Turn(_) => phase is Thinking,
        EventText::Observed(_) => phase is Searching || phase is Looking,
        EventText::Ran(_, _) => phase is Running || phase is Building,
        EventText::Edited { .. } => phase is Editing,
    }
}

/// The run after an event, and what is to be done next.
pub open spec fn step(r: RunText, event: EventText) -> (RunText, CommandText) {
    match event {
        EventText::Summary(reply) => think(RunText { history: folded(r.history, reply), ..r }),
        EventText::Turn(turn) => receive_turn(r, turn),
        EventText::Observed(text) => if r.phase is Searching {
            proceed(searched(r, text))
        } else {
            proceed(observe(r, text))
        },
        EventText::Ran(success, text) => match r.phase {
            PhaseText::Building { observation, command } => proceed(
                observe(
                    RunText { build_retries: r.build_retries + 1, ..r },
                    observation + build_text(command, r.build_retries + 1, success, text),
                ),
            ),
            _ => proceed(observe(r, run_text(success, text))),
        },
        EventText::Edited { observation, applied, build_command } => edited(
            r,
            observation,
            applied,
            build_command,
        ),
    }
}

// ---------------------------------------------------------------------------------------------
// What every run keeps
// ---------------------------------------------------------------------------------------------
/// Whether the counters of a run are in their bounds.
pub open spec fn in_bounds(r: RunText) -> bool {
    &&& 0 <= r.turn <= MAX_AGENT_STEPS
    &&& 0 <= r.next <= r.actions.len() <= MAX_ACTIONS_PER_TURN
    &&& 0 <= r.build_retries <= MAX_EDIT_BUILD_RETRIES
    &&& 0 <= r.parse_failures <= MAX_PARSE_FAILURES
    &&& 0 <= r.searches < MAX_SEARCHES_IN_A_ROW
    &&& 0 <= r.repeats
    &&& 1 <= r.history.next
    &&& r.history.since == 0
}

/// Whether a run can go on with the actions of its turn, of which `pending` wait for their
/// observation: the steps taken so far leave room for those to come.
pub open spec fn can_proceed(r: RunText, pending: int) -> bool {
    &&& in_bounds(r)
    &&& r.repeats <= MAX_IDENTICAL_REPEATS
    &&& r.parse_failures < MAX_PARSE_FAILURES
    &&& r.history.next + (r.actions.len() - r.next) + pending <= 1 + MAX_ACTIONS_PER_TURN * r.turn
}

/// Whether a run that waits for the model is in order.
pub open spec fn can_think(r: RunText) -> bool {
    &&& in_bounds(r)
    &&& r.repeats <= MAX_IDENTICAL_REPEATS
    &&& r.parse_failures < MAX_PARSE_FAILURES
    &&& r.turn >= 1
    &&& r.next == r.actions.len()
    &&& r.history.next <= 1 + MAX_ACTIONS_PER_TURN * (r.turn - 1)
}

/// Whether a run that waits for what came of an action is in order.
pub open spec fn can_observe(r: RunText) -> bool {
    r.turn >= 1 && r.next >= 1 && can_proceed(r, 1)
}

/// Whether the state of a run is in order. Only a run with leave to write edits, or checks the
/// project after edits.
pub open spec fn run_wf(r: RunText) -> bool {
    match r.phase {
        PhaseText::Summarizing => can_think(r) && summary_need(r.history) is Fold,
        PhaseText::Thinking => can_think(r),
        PhaseText::Editing => can_observe(r) && r.allow_write,
        PhaseText::Building { .. } => can_observe(r) && r.allow_write && r.build_retries
            < MAX_EDIT_BUILD_RETRIES,
        PhaseText::Done => in_bounds(r),
        _ => can_observe(r),
    }
}

/// How far a run is from its end, at most.
pub open spec fn distance(r: RunText) -> int {
    let left = 40 * (MAX_AGENT_STEPS - r.turn);
    let ahead = 3 * (r.actions.len() - r.next);
    match r.phase {
        PhaseText::Summarizing => left + 39,
        PhaseText::Thinking => left + 38,
        PhaseText::Editing => left + ahead + 2,
        PhaseText::Done => 0,
        _ => left + ahead + 1,
    }
}

/// Whether a command can follow a run's actions: a new turn, the end, or an action that the run
/// may take. The state that it leaves is in order, and nearer to the end than the actions that were
/// left.
spec fn follows(r: RunText, after: (RunText, CommandText)) -> bool {
    &&& run_wf(after.0)
    &&& after.0.allow_write == r.allow_write
    &&& !(after.1 is Build)
    &&& after.1 is Edit ==> r.allow_write
    &&& after.1 is Think ==> after.0.phase is Thinking && after.1 == CommandText::Think(
        after.0.turn,
        turn_prompt(after.0.first, render_history(after.0.history)),
    )
    &&& after.1 is Stop == after.0.phase is Done
    &&& distance(after.0) < 40 * (MAX_AGENT_STEPS - r.turn) + 3 * (r.actions.len() - r.next) + 1
    &&& 0 <= distance(after.0)
}

proof fn lemma_begin_turn(r: RunText)
    requires
        can_proceed(r, 0),
        r.next == r.actions.len(),
    ensures
        follows(r, begin_turn(r)),
{
}

proof fn lemma_act(r: RunText)
    requires
        r.turn >= 1,
        can_proceed(r, 0),
        r.next < r.actions.len(),
    ensures
        act(r).0.next == r.next + 1,
        act(r).0.actions == r.actions,
        act(r).0.turn == r.turn,
        act(r).1 is None ==> can_proceed(act(r).0, 0),
        act(r).1 is Some ==> run_wf(act(r).0),
{
}

proof fn lemma_proceed(r: RunText)
    requires
        r.turn >= 1,
        can_proceed(r, 0),
    ensures
        follows(r, proceed(r)),
    decreases r.actions.len() - r.next,
{
    if r.next < r.actions.len() {
        lemma_act(r);
        if act(r).1 is None {
            lemma_proceed(act(r).0);
        }
    } else {
        lemma_begin_turn(r);
    }
}

/// What a step leads to.
proof fn lemma_step(r: RunText, event: EventText)
    requires
        run_wf(r),
        awaits(r.phase, event),
    ensures
        run_wf(step(r, event).0),
        step(r, event).0.allow_write == r.allow_write,
        step(r, event).1 is Edit ==> r.allow_write,
        step(r, event).1 is Build ==> r.allow_write && r.phase is Editing && r.build_retries
            < MAX_EDIT_BUILD_RETRIES && (event matches EventText::Edited {
            observation,
            applied,
            build_command,
        } && applied && build_command == Some(step(r, event).1->Build_0)),
        step(r, event).1 is Think ==> step(r, event).0.phase is Thinking && step(r, event).1
            == CommandText::Think(
            step(r, event).0.turn,
            turn_prompt(step(r, event).0.first, render_history(step(r, event).0.history)),
        ),
        step(r, event).1 is Stop == step(r, event).0.phase is Done,
        0 <= distance(step(r, event).0) < distance(r),
{
    match event {
        EventText::Summary(reply) => {},
        EventText::Turn(turn) => {
            if turn matches Some(t) && t.actions.len() > 0 {
                let t = turn->Some_0;
                let heard = RunText { parse_failures: 0, ..r };
                match turn_fault(t.actions) {
                    Some(fault) => {
                        lemma_begin_turn(
                            RunText { history: remarked(r.history, fault), ..heard },
                        );
                    },
                    None => {
                        lemma_proceed(
                            RunText {
                                thought: match t.thought {
                                    Some(text) => text,
                                    None => ""@,
                                },
                                actions: t.actions,
                                next: 0,
                                ..heard
                            },
                        );
                    },
                }
            } else if r.parse_failures + 1 < MAX_PARSE_FAILURES {
                lemma_begin_turn(
                    RunText {
                        parse_failures: r.parse_failures + 1,
                        history: remarked(r.history, UNREADABLE_TURN@),
                        ..r
                    },
                );
            }
        },
        EventText::Observed(text) => {
            if r.phase is Searching {
                lemma_proceed(searched(r, text));
            } else {
                lemma_proceed(observe(r, text));
            }
        },
        EventText::Ran(success, text) => match r.phase {
            PhaseText::Building { observation, command } => {
                lemma_proceed(
                    observe(
                        RunText { build_retries: r.build_retries + 1, ..r },
                        observation + build_text(command, r.build_retries + 1, success, text),
                    ),
                );
            },
            _ => {
                lemma_proceed(observe(r, run_text(success, text)));
            },
        },
        EventText::Edited { observation, applied, build_command } => match build_command {
            Some(command) => {
                if !applied {
                    lemma_proceed(observe(r, observation));
                } else if r.build_retries >= MAX_EDIT_BUILD_RETRIES {
                    lemma_proceed(observe(r, observation + NO_MORE_CHECKS@));
                }
            },
            None => {
                lemma_proceed(observe(r, observation));
            },
        },
    }
}

/// The state of a run stays in order, whatever happens: no counter leaves its bounds, and a run
/// never has more than its turns.
pub proof fn law_step_keeps_order(r: RunText, event: EventText)
    requires
        run_wf(r),
        awaits(r.phase, event),
    ensures
        run_wf(step(r, event).0),
{
    lemma_step(r, event);
}

// ---------------------------------------------------------------------------------------------
// The run
// ---------------------------------------------------------------------------------------------
/// What a run waits for.
#[derive(Debug)]
pub enum Phase {
    Summarizing,
    Thinking,
    Searching,
    Looking,
    Running,
    Editing,
    Building { observation: String, command: String },
    Done,
}

impl View for Phase {
    type V = PhaseText;

    open spec fn view(&self) -> PhaseText {
        match *self {
            Phase::Summarizing => PhaseText::Summarizing,
            Phase::Thinking => PhaseText::Thinking,
            Phase::Searching => PhaseText::Searching,
            Phase::Looking => PhaseText::Looking,
            Phase::Running => PhaseText::Running,
            Phase::Editing => PhaseText::Editing,
            Phase::Building { observation, command } => PhaseText::Building {
                observation: observation@,
                command: command@,
            },
            Phase::Done => PhaseText::Done,
        }
    }
}

/// A run of the agent. It says what is to be done, and is told what came of it.
#[derive(Debug)]
pub struct AgentRun {
    first: String,
    allow_write: bool,
    history: AgentHistory,
    turn: usize,
    build_retries: usize,
    parse_failures: usize,
    searches: usize,
    last_call: Option<ProposedAction>,
    repeats: usize,
    thought: String,
    actions: Vec<ProposedAction>,
    next: usize,
    phase: Phase,
}

impl View for AgentRun {
    type V = RunText;

    closed spec fn view(&self) -> RunText {
        RunText {
            first: self.first@,
            allow_write: self.allow_write,
            history: self.history@,
            turn: self.turn as int,
            build_retries: self.build_retries as int,
            parse_failures: self.parse_failures as int,
            searches: self.searches as int,
            last_call: match self.last_call {
                Some(call) => Some(call@),
                None => None,
            },
            repeats: self.repeats as int,
            thought: self.thought@,
            actions: proposed_texts(self.actions@),
            next: self.next as int,
            phase: self.phase@,
        }
    }
}

impl AgentRun {
    /// A run that has not begun.
    fn fresh(goal: &str, allow_write: bool) -> (res: AgentRun)
        ensures
            res@ == fresh_run(goal@, allow_write),
    {
        let res = AgentRun {
            first: system_preamble(goal, allow_write),
            allow_write,
            history: AgentHistory::new(),
            turn: 0,
            build_retries: 0,
            parse_failures: 0,
            searches: 0,
            last_call: None,
            repeats: 0,
            thought: "".to_owned(),
            actions: Vec::new(),
            next: 0,
            phase: Phase::Done,
        };
        assert(res@.actions =~= Seq::<ProposedText>::empty());
        res
    }

    /// Asks for a turn.
    fn think(&mut self) -> (res: Command)
        ensures
            (final(self)@, res@) == think(old(self)@),
    {
        let transcript = self.history.render();
        let prompt = prompt_for_turn(self.first.as_str(), transcript.as_str());
        self.phase = Phase::Thinking;
        Command::Think { turn: self.turn, prompt }
    }

    /// Begins a turn.
    fn begin_turn(&mut self) -> (res: Command)
        requires
            can_proceed(old(self)@, 0),
        ensures
            (final(self)@, res@) == begin_turn(old(self)@),
    {
        if self.turn >= MAX_AGENT_STEPS {
            self.phase = Phase::Done;
            return Command::Stop(StopReason::TurnsUsedUp);
        }
        self.turn = self.turn + 1;
        match self.history.start_summary() {
            Some(prompt) => {
                self.phase = Phase::Summarizing;
                Command::Summarize(prompt)
            },
            None => self.think(),
        }
    }

    /// Takes the current action's observation up.
    fn observe(&mut self, observation: String)
        requires
            1 <= old(self)@.next <= old(self)@.actions.len(),
            can_proceed(old(self)@, 1),
        ensures
            final(self)@ == observe(old(self)@, observation@),
    {
        let action = &self.actions[self.next - 1];
        let name = action.action.as_str().to_owned();
        let input = action.action_input.copy();
        assert(self@.actions[self.next - 1] == self.actions@[self.next - 1]@);
        let thought = self.thought.as_str().to_owned();
        self.history.record_step(thought, name, input, observation);
    }

    /// Whether an action is the one before, unchanged.
    fn repeats_last(&self, action: &ProposedAction) -> (res: bool)
        ensures
            res == is_repeat(self@.last_call, action@),
    {
        match &self.last_call {
            Some(call) => same_text(call.action.as_str(), action.action.as_str()) && same_json(
                call.action_input.value(),
                action.action_input.value(),
            ),
            None => false,
        }
    }

    /// Carries one action out, as far as that needs no command.
    fn act(&mut self) -> (res: Option<Command>)
        requires
            old(self)@.turn >= 1,
            can_proceed(old(self)@, 0),
            old(self)@.next < old(self)@.actions.len(),
        ensures
            final(self)@ == act(old(self)@).0,
            match res {
                Some(command) => act(old(self)@).1 == Some(command@),
                None => act(old(self)@).1 is None,
            },
    {
        let ghost before = self@;
        let i = self.next;
        assert(before.actions[i as int] == self.actions@[i as int]@);
        let name = self.actions[i].action.as_str().to_owned();
        let input = self.actions[i].action_input.copy();
        let repeats: usize = if self.repeats_last(&self.actions[i]) {
            self.repeats + 1
        } else {
            0
        };
        let call = ProposedAction { action: name.as_str().to_owned(), action_input: input.copy() };
        self.repeats = repeats;
        self.last_call = Some(call);
        self.next = i + 1;
        assert(self@ =~= taken(before));
        let name = name.as_str();
        if repeats > MAX_IDENTICAL_REPEATS && !same_text(name, "final_answer") {
            let mut remark = "Observation: You have called ".to_owned();
            append_text(&mut remark, name);
            append_text(&mut remark, " with the EXACT SAME action_input (");
            append_text(&mut remark, input.text());
            append_text(&mut remark, ") ");
            append_number(&mut remark, (repeats + 1) as u64);
            append_text(
                &mut remark,
                " times in a row and it keeps failing or returning the same result. Do not repeat this call unchanged again. Re-read the tool's argument names in the system prompt, change the input, try a different action, or call final_answer explaining you're stuck.",
            );
            self.history.push_bare_observation(remark.as_str());
            self.repeats = 0;
            return None;
        }
        if same_text(name, "final_answer") {
            self.phase = Phase::Done;
            return Some(Command::Stop(StopReason::Answer(answer_to_give(input.value()))));
        }
        if same_text(name, "search_codebase") {
            self.phase = Phase::Searching;
            return Some(Command::Search(argument_or(input.value(), "query", "")));
        }
        self.searches = 0;
        if same_text(name, "read_file") {
            self.phase = Phase::Looking;
            let path = path_to_read(input.value());
            let (start, end) = lines_to_read(input.value());
            return Some(Command::Read { path, start, end, input });
        }
        if same_text(name, "list_directory") {
            self.phase = Phase::Looking;
            return Some(Command::List(argument_or(input.value(), "path", ".")));
        }
        if same_text(name, "run_command") {
            let cmd = argument_or(input.value(), "cmd", "");
            if blank_text(cmd.as_str()) {
                self.observe("Error: no command provided.".to_owned());
                return None;
            }
            self.phase = Phase::Running;
            return Some(Command::Run(cmd));
        }
        if same_text(name, "write_file_edits") && self.allow_write {
            self.phase = Phase::Editing;
            return Some(Command::Edit(edits_to_make(input.value())));
        }
        let mut remark = "Unknown action '".to_owned();
        append_text(&mut remark, name);
        append_text(&mut remark, "'. Choose one of the actions listed in the system prompt.");
        self.observe(remark);
        None
    }

    /// Goes on with the actions of a turn, up to the first that needs a command.
    fn proceed(&mut self) -> (res: Command)
        requires
            old(self)@.turn >= 1,
            can_proceed(old(self)@, 0),
        ensures
            (final(self)@, res@) == proceed(old(self)@),
    {
        while self.next < self.actions.len()
            invariant
                self@.turn >= 1,
                can_proceed(self@, 0),
                proceed(self@) == proceed(old(self)@),
            decreases self.actions@.len() - self.next,
        {
            let ghost before = self@;
            proof {
                lemma_act(before);
            }
            assert(self@.actions.len() == self.actions@.len());
            match self.act() {
                Some(command) => {
                    return command;
                },
                None => {
                    assert(self@.actions.len() == self.actions@.len());
                    assert(proceed(before) == proceed(self@));
                },
            }
        }
        assert(self@.actions.len() == self.actions@.len());
        self.begin_turn()
    }

    /// Begins a run: the agent is given a goal, and leave to write or not.
    pub fn start(goal: &str, allow_write: bool) -> (res: (AgentRun, Command))
        ensures
            (res.0@, res.1@) == begin_turn(fresh_run(goal@, allow_write)),
            run_wf(res.0@),
    {
        let mut run = AgentRun::fresh(goal, allow_write);
        proof {
            lemma_begin_turn(run@);
        }
        let command = run.begin_turn();
        (run, command)
    }

    /// The actions of the turn that was carried out last.
    pub fn actions(&self) -> (res: &Vec<ProposedAction>)
        ensures
            proposed_texts(res@) == self@.actions,
    {
        &self.actions
    }

    /// How many of them were taken up.
    pub fn taken(&self) -> (res: usize)
        ensures
            res == self@.next,
    {
        self.next
    }

    /// Whether the run waits for an event of that kind.
    pub fn accepts(&self, event: &Event) -> (res: bool)
        ensures
            res == awaits(self@.phase, event@),
    {
        match (event, &self.phase) {
            (Event::Summary(_), Phase::Summarizing) => true,
            (Event::Turn(_), Phase::Thinking) => true,
            (Event::Observed(_), Phase::Searching) => true,
            (Event::Observed(_), Phase::Looking) => true,
            (Event::Ran(_), Phase::Running) => true,
            (Event::Ran(_), Phase::Building { .. }) => true,
            (Event::Edited { .. }, Phase::Editing) => true,
            _ => false,
        }
    }

    /// Takes a reply of the model up.
    fn receive_turn(&mut self, turn: Option<AgentTurn>) -> (res: Command)
        requires
            can_think(old(self)@),
        ensures
            (final(self)@, res@) == receive_turn(
                old(self)@,
                match turn {
                    Some(t) => Some(t@),
                    None => None,
                },
            ),
    {
        let ghost before = self@;
        let readable = match &turn {
            Some(t) => t.actions.len() > 0,
            None => false,
        };
        match turn {
            Some(t) => {
                let AgentTurn { thought, actions } = t;
                assert(proposed_texts(actions@).len() == actions@.len());
                if readable {
                    self.parse_failures = 0;
                    match check_turn(&actions) {
                        Some(fault) => {
                            self.history.push_bare_observation(fault.as_str());
                            return self.begin_turn();
                        },
                        None => {
                            self.thought = match thought {
                                Some(text) => text,
                                None => "".to_owned(),
                            };
                            self.actions = actions;
                            self.next = 0;
                            return self.proceed();
                        },
                    }
                }
            },
            None => {},
        }
        self.parse_failures = self.parse_failures + 1;
        if self.parse_failures >= MAX_PARSE_FAILURES {
            self.phase = Phase::Done;
            return Command::Stop(StopReason::NoValidTurn);
        }
        self.history.push_bare_observation(UNREADABLE_TURN);
        self.begin_turn()
    }

    /// Takes what a search showed up.
    fn searched(&mut self, observation: String)
        requires
            can_observe(old(self)@),
        ensures
            final(self)@ == searched(old(self)@, observation@),
    {
        let fruitless = text_contains(observation.as_str(), "No results found");
        self.observe(observation);
        self.searches = self.searches + 1;
        if self.searches >= MAX_SEARCHES_IN_A_ROW {
            if fruitless {
                self.history.push_bare_observation(FRUITLESS_SEARCHES);
            } else {
                self.history.push_bare_observation(REPEATED_SEARCHES);
            }
            self.searches = 0;
        }
    }

    /// Takes what a command gave up.
    fn ran(&mut self, output: CommandOutput) -> (res: Command)
        requires
            run_wf(old(self)@),
            awaits(old(self)@.phase, EventText::Ran(output.success, output.text@)),
        ensures
            (final(self)@, res@) == step(
                old(self)@,
                EventText::Ran(output.success, output.text@),
            ),
    {
        let text = match &self.phase {
            Phase::Building { observation, command } => {
                let attempt: usize = self.build_retries + 1;
                let mut check = "\nBuild check '".to_owned();
                append_text(&mut check, command.as_str());
                append_text(&mut check, "', attempt ");
                append_number(&mut check, attempt as u64);
                append_text(&mut check, "/");
                append_number(&mut check, MAX_EDIT_BUILD_RETRIES as u64);
                if output.success {
                    append_text(&mut check, ": PASSED.\n");
                } else {
                    append_text(&mut check, ": FAILED.\n");
                }
                append_text(&mut check, output.text.as_str());
                if output.success {
                    append_text(&mut check, "");
                } else {
                    append_text(
                        &mut check,
                        "\nPlease analyze this error and propose a fix using write_file_edits, or call final_answer explaining the issue if you cannot resolve it.",
                    );
                }
                let mut text = observation.as_str().to_owned();
                append_text(&mut text, check.as_str());
                self.build_retries = attempt;
                text
            },
            _ => {
                let mut text = "(".to_owned();
                if output.success {
                    append_text(&mut text, "success");
                } else {
                    append_text(&mut text, "failed");
                }
                append_text(&mut text, "):\n");
                append_text(&mut text, output.text.as_str());
                text
            },
        };
        self.observe(text);
        self.proceed()
    }

    /// Takes what came of edits up.
    fn edited(
        &mut self,
        observation: String,
        applied: bool,
        build_command: Option<String>,
    ) -> (res: Command)
        requires
            can_observe(old(self)@),
        ensures
            (final(self)@, res@) == edited(
                old(self)@,
                observation@,
                applied,
                option_text(build_command),
            ),
    {
        let mut text = observation;
        match build_command {
            Some(command) => {
                if applied {
                    if self.build_retries < MAX_EDIT_BUILD_RETRIES {
                        let asked = command.as_str().to_owned();
                        self.phase = Phase::Building { observation: text, command };
                        return Command::Build(asked);
                    }
                    append_text(&mut text, NO_MORE_CHECKS);
                }
            },
            None => {},
        }
        self.observe(text);
        self.proceed()
    }

    /// Tells the run what came of its last command. The result is what is to be done next.
    pub fn advance(&mut self, event: Event) -> (res: Command)
        requires
            run_wf(old(self)@),
            awaits(old(self)@.phase, event@),
        ensures
            (final(self)@, res@) == step(old(self)@, event@),
            run_wf(final(self)@),
    {
        proof {
            law_step_keeps_order(self@, event@);
        }
        match event {
            Event::Summary(reply) => {
                self.history.finish_summary(reply);
                self.think()
            },
            Event::Turn(turn) => self.receive_turn(turn),
            Event::Observed(text) => {
                match &self.phase {
                    Phase::Searching => {
                        self.searched(text);
                    },
                    _ => {
                        self.observe(text);
                    },
                }
                self.proceed()
            },
            Event::Ran(output) => self.ran(output),
            Event::Edited { observation, applied, build_command } => self.edited(
                observation,
                applied,
                build_command,
            ),
        }
    }
}

// ---------------------------------------------------------------------------------------------
// Laws
// ---------------------------------------------------------------------------------------------
/// Every run ends: each event brings it nearer to its end, and it ends exactly with the command to
/// stop.
pub proof fn law_run_ends(r: RunText, event: EventText)
    requires
        run_wf(r),
        awaits(r.phase, event),
    ensures
        0 <= distance(step(r, event).0) < distance(r),
        (step(r, event).1 is Stop) == (step(r, event).0.phase is Done),
{
    lemma_step(r, event);
}

/// An agent without leave to write never edits, and never checks the project, whatever the model
/// proposes; and no event gives it leave.
pub proof fn law_edits_need_leave(r: RunText, event: EventText)
    requires
        run_wf(r),
        awaits(r.phase, event),
        !r.allow_write,
    ensures
        !(step(r, event).1 is Edit),
        !(step(r, event).1 is Build),
        !step(r, event).0.allow_write,
{
    lemma_step(r, event);
}

/// A run checks the project only after edits that were written, and no more often than the limit.
pub proof fn law_checks_follow_edits(r: RunText, event: EventText)
    requires
        run_wf(r),
        awaits(r.phase, event),
        step(r, event).1 is Build,
    ensures
        r.phase is Editing,
        event matches EventText::Edited { observation, applied, build_command } && applied
            && build_command == Some(step(r, event).1->Build_0),
        r.build_retries < MAX_EDIT_BUILD_RETRIES,
{
    lemma_step(r, event);
}

/// The model is never asked for more turns than a run has, and sees the whole transcript each time.
pub proof fn law_turns_are_limited(r: RunText, event: EventText)
    requires
        run_wf(r),
        awaits(r.phase, event),
        step(r, event).1 is Think,
    ensures
        1 <= step(r, event).0.turn <= MAX_AGENT_STEPS,
        step(r, event).1 == CommandText::Think(
            step(r, event).0.turn,
            turn_prompt(step(r, event).0.first, render_history(step(r, event).0.history)),
        ),
{
    lemma_step(r, event);
}

/// Of a turn that is rejected nothing is carried out: the run goes on to its next turn, or ends
/// where there is none, with no more than a remark in its history.
pub proof fn law_rejected_turn_does_nothing(r: RunText, turn: TurnText)
    requires
        run_wf(r),
        r.phase is Thinking,
        turn.actions.len() > 0,
        turn_fault(turn.actions) is Some,
    ensures
        step(r, EventText::Turn(Some(turn))) == begin_turn(
            RunText {
                history: remarked(r.history, turn_fault(turn.actions)->Some_0),
                parse_failures: 0,
                ..r
            },
        ),
        step(r, EventText::Turn(Some(turn))).1 is Think || step(r, EventText::Turn(Some(turn))).1
            is Summarize || step(r, EventText::Turn(Some(turn))).1 == CommandText::Stop(
            StopText::TurnsUsedUp,
        ),
{
}

/// A call that the agent has made three times in a row is not made a fourth time: the agent is told
/// so instead.
pub proof fn law_repeated_call_is_refused(r: RunText)
    requires
        can_proceed(r, 0),
        r.next < r.actions.len(),
        is_repeat(r.last_call, r.actions[r.next]),
        r.repeats == MAX_IDENTICAL_REPEATS,
        r.actions[r.next].action != "final_answer"@,
    ensures
        act(r).1 is None,
        act(r).0.history == remarked(r.history, repeat_remark(r.actions[r.next], 4)),
{
}

/// An answer ends the run.
pub proof fn law_answer_ends_the_run(r: RunText, turn: TurnText)
    requires
        run_wf(r),
        r.phase is Thinking,
        turn.actions.len() == 1,
        turn.actions[0].action == "final_answer"@,
    ensures
        step(r, EventText::Turn(Some(turn))).1 == CommandText::Stop(
            StopText::Answer(answer_argument(turn.actions[0].input)),
        ),
        step(r, EventText::Turn(Some(turn))).0.phase is Done,
{
    crate::turns::lemma_single_action_is_no_fault(turn.actions);
}

/// No two actions have the same name.
proof fn lemma_names_differ()
    ensures
        "final_answer"@ != "search_codebase"@,
        "final_answer"@ != "read_file"@,
        "final_answer"@ != "list_directory"@,
        "final_answer"@ != "run_command"@,
        "final_answer"@ != "write_file_edits"@,
        "search_codebase"@ != "read_file"@,
        "search_codebase"@ != "list_directory"@,
        "search_codebase"@ != "run_command"@,
        "search_codebase"@ != "write_file_edits"@,
        "read_file"@ != "list_directory"@,
        "read_file"@ != "run_command"@,
        "read_file"@ != "write_file_edits"@,
        "list_directory"@ != "run_command"@,
        "list_directory"@ != "write_file_edits"@,
        "run_command"@ != "write_file_edits"@,
{
    reveal_strlit("final_answer");
    reveal_strlit("search_codebase");
    reveal_strlit("read_file");
    reveal_strlit("list_directory");
    reveal_strlit("run_command");
    reveal_strlit("write_file_edits");
    assert("final_answer"@[0] == 'f');
    assert("search_codebase"@[0] == 's');
    assert("read_file"@[0] == 'r' && "read_file"@[1] == 'e');
    assert("list_directory"@[0] == 'l');
    assert("run_command"@[0] == 'r' && "run_command"@[1] == 'u');
    assert("write_file_edits"@[0] == 'w');
}

/// Whether the next action of a run is carried out: it is no call that was already made three times
/// in a row.
pub open spec fn is_next(r: RunText, action: ProposedText) -> bool {
    &&& 0 <= r.next < r.actions.len()
    &&& r.actions[r.next] == action
    &&& proper(action.input)
    &&& r.repeats < 2 || !(r.last_call matches Some(call) && call.action == action.action
        && json_same(call.input, action.input))
}

/// A folder is listed by the path that the action names, and the folder of the run only where it
/// names none.
pub proof fn law_listing_lists_what_is_asked(r: RunText, action: ProposedText, path: Seq<char>)
    requires
        is_next(r, action),
        action.action == "list_directory"@,
    ensures
        lists(action.input, "path"@, Json::Text(path)) ==> proceed(r).1 == CommandText::List(path),
        lists_no_text(action.input, "path"@) ==> proceed(r).1 == CommandText::List("."@),
        proceed(r).0.phase is Looking,
        proceed(r).0.history == r.history,
        proceed(r).0.next == r.next + 1,
        proceed(r).0.searches == 0,
{
    lemma_names_differ();
    law_text_members_are_found(action.input, "path"@, path);
}

/// The index is searched for the words that the action names, and for nothing where it names none.
pub proof fn law_search_is_for_what_is_asked(r: RunText, action: ProposedText, query: Seq<char>)
    requires
        is_next(r, action),
        action.action == "search_codebase"@,
    ensures
        lists(action.input, "query"@, Json::Text(query)) ==> proceed(r).1 == CommandText::Search(
            query,
        ),
        lists_no_text(action.input, "query"@) ==> proceed(r).1 == CommandText::Search(
            Seq::<char>::empty(),
        ),
        proceed(r).0.phase is Searching,
        proceed(r).0.history == r.history,
        proceed(r).0.next == r.next + 1,
        proceed(r).0.searches == r.searches,
{
    lemma_names_differ();
    reveal_strlit("");
    law_text_members_are_found(action.input, "query"@, query);
}

/// A file is read by the path that the action names, as `path` or, where there is no such member, as
/// `file_path`.
pub proof fn law_reading_reads_the_file_asked_for(
    r: RunText,
    action: ProposedText,
    path: Seq<char>,
)
    requires
        is_next(r, action),
        action.action == "read_file"@,
    ensures
        proceed(r).1 is Read,
        proceed(r).1->input == action.input,
        lists(action.input, "path"@, Json::Text(path)) ==> proceed(r).1->path == path,
        lists_no(action.input, "path"@) && lists(action.input, "file_path"@, Json::Text(path))
            ==> proceed(r).1->path == path,
        proceed(r).0.phase is Looking,
        proceed(r).0.history == r.history,
        proceed(r).0.next == r.next + 1,
        proceed(r).0.searches == 0,
{
    lemma_names_differ();
    law_text_members_are_found(action.input, "path"@, path);
    law_members_are_found(action.input, "path"@, Json::Text(path));
    law_text_members_are_found(action.input, "file_path"@, path);
}

/// A file is read from the line and up to the line that the action names. Without the first it is
/// read from its first line, and without the second a hundred lines on.
pub proof fn law_reading_reads_the_lines_asked_for(
    r: RunText,
    action: ProposedText,
    first: u64,
    last: u64,
)
    requires
        is_next(r, action),
        action.action == "read_file"@,
        first <= usize::MAX,
        last <= usize::MAX,
    ensures
        proceed(r).1 is Read,
        lists(action.input, "start_line"@, Json::Number(NumberText::PosInt(first))) ==> proceed(
            r,
        ).1->start == first,
        lists_no(action.input, "start_line"@) ==> proceed(r).1->start == 1,
        lists(action.input, "end_line"@, Json::Number(NumberText::PosInt(last))) ==> proceed(
            r,
        ).1->end == last,
        lists_no(action.input, "end_line"@) && proceed(r).1->start + 100 <= usize::MAX ==> proceed(
            r,
        ).1->end == proceed(r).1->start + 100,
        lists_no(action.input, "end_line"@) && proceed(r).1->start + 100 > usize::MAX ==> proceed(
            r,
        ).1->end == usize::MAX,
{
    lemma_names_differ();
    law_members_are_found(
        action.input,
        "start_line"@,
        Json::Number(NumberText::PosInt(first)),
    );
    law_members_are_found(action.input, "end_line"@, Json::Number(NumberText::PosInt(last)));
}

/// A line that is no whole number from zero on is taken for none, and a path that is no text for an
/// empty one.
pub proof fn law_other_arguments_are_taken_for_none(r: RunText, action: ProposedText, v: Json)
    requires
        is_next(r, action),
        action.action == "read_file"@,
        !(v is Text),
        !(v matches Json::Number(n) && n is PosInt),
    ensures
        lists(action.input, "start_line"@, v) ==> proceed(r).1->start == 1,
        lists(action.input, "end_line"@, v) && proceed(r).1->start + 100 <= usize::MAX ==> proceed(
            r,
        ).1->end == proceed(r).1->start + 100,
        lists(action.input, "path"@, v) ==> proceed(r).1->path.len() == 0,
{
    lemma_names_differ();
    reveal_strlit("");
    law_members_are_found(action.input, "start_line"@, v);
    law_members_are_found(action.input, "end_line"@, v);
    law_members_are_found(action.input, "path"@, v);
}

/// The command that is run is the one that the action names. Where it names none but blanks, none is
/// run, and the agent is told so.
pub proof fn law_command_runs_as_asked(r: RunText, action: ProposedText, cmd: Seq<char>)
    requires
        is_next(r, action),
        action.action == "run_command"@,
        lists(action.input, "cmd"@, Json::Text(cmd)),
    ensures
        (exists|k: int| 0 <= k < cmd.len() && !is_ws(#[trigger] cmd[k])) ==> {
            &&& proceed(r).1 == CommandText::Run(cmd)
            &&& proceed(r).0.phase is Running
            &&& proceed(r).0.history == r.history
            &&& proceed(r).0.next == r.next + 1
            &&& proceed(r).0.searches == 0
        },
        (forall|k: int| 0 <= k < cmd.len() ==> is_ws(#[trigger] cmd[k])) ==> {
            &&& act(r).1 is None
            &&& act(r).0.history.steps == r.history.steps.push(
                StepText {
                    number: r.history.next,
                    thought: r.thought,
                    action: action.action,
                    input: action.input,
                    observation: "Error: no command provided."@,
                },
            )
        },
{
    lemma_names_differ();
    law_text_members_are_found(action.input, "cmd"@, cmd);
}

/// The edits that are made are those that the action lists, where the run has leave to write.
pub proof fn law_edits_are_those_asked_for(r: RunText, action: ProposedText, edits: Json)
    requires
        is_next(r, action),
        action.action == "write_file_edits"@,
        r.allow_write,
    ensures
        lists(action.input, "edits"@, edits) ==> proceed(r).1 == CommandText::Edit(
            edits_of(edits),
        ),
        lists_no(action.input, "edits"@) ==> proceed(r).1 == CommandText::Edit(
            Seq::<EditText>::empty(),
        ),
        proceed(r).0.phase is Editing,
        proceed(r).0.history == r.history,
        proceed(r).0.next == r.next + 1,
        proceed(r).0.searches == 0,
{
    lemma_names_differ();
    law_members_are_found(action.input, "edits"@, edits);
}

/// The answer that ends a run is the one that the action gives: its member `answer`, or the whole
/// of an input that is a text.
pub proof fn law_answer_is_the_one_given(r: RunText, action: ProposedText, answer: Seq<char>)
    requires
        0 <= r.next < r.actions.len(),
        r.actions[r.next] == action,
        proper(action.input),
        action.action == "final_answer"@,
    ensures
        lists(action.input, "answer"@, Json::Text(answer)) || action.input == Json::Text(answer)
            ==> proceed(r).1 == CommandText::Stop(StopText::Answer(answer)),
        !(action.input is Text) && lists_no_text(action.input, "answer"@) ==> proceed(r).1
            == CommandText::Stop(StopText::Answer("(no answer text provided)"@)),
        proceed(r).0.phase is Done,
        proceed(r).0.history == r.history,
{
    law_text_members_are_found(action.input, "answer"@, answer);
}

/// An action that there is not, or that the run has no leave for, leaves a step that says so, and the
/// run goes on with the action behind it.
pub proof fn law_unknown_action_is_remarked(r: RunText, action: ProposedText)
    requires
        is_next(r, action),
        action.action != "final_answer"@,
        action.action != "search_codebase"@,
        action.action != "read_file"@,
        action.action != "list_directory"@,
        action.action != "run_command"@,
        action.action != "write_file_edits"@ || !r.allow_write,
    ensures
        proceed(r) == proceed(act(r).0),
        act(r).0.next == r.next + 1,
        act(r).0.searches == 0,
        act(r).0.history.steps.len() == r.history.steps.len() + 1,
        act(r).0.history.steps.take(r.history.steps.len() as int) == r.history.steps,
        act(r).0.history.steps.last() == (StepText {
            number: r.history.next,
            thought: r.thought,
            action: action.action,
            input: action.input,
            observation: "Unknown action '"@ + action.action
                + "'. Choose one of the actions listed in the system prompt."@,
        }),
{
}

/// A turn that is carried out is carried out from its first action on, with its own thought, and with
/// the history, the last call and the leave of the run as they were.
pub proof fn law_turn_is_carried_out(r: RunText, turn: TurnText) -> (q: RunText)
    requires
        turn.actions.len() > 0,
        turn_fault(turn.actions) is None,
    ensures
        step(r, EventText::Turn(Some(turn))) == proceed(q),
        q.actions == turn.actions,
        q.next == 0,
        turn.thought matches Some(text) ==> q.thought == text,
        turn.thought is None ==> q.thought.len() == 0,
        q.history == r.history,
        q.last_call == r.last_call,
        q.repeats == r.repeats,
        q.searches == r.searches,
        q.build_retries == r.build_retries,
        q.turn == r.turn,
        q.first == r.first,
        q.allow_write == r.allow_write,
        q.parse_failures == 0,
{
    reveal_strlit("");
    RunText {
        thought: match turn.thought {
            Some(text) => text,
            None => ""@,
        },
        actions: turn.actions,
        next: 0,
        parse_failures: 0,
        ..r
    }
}

/// The step that an action leaves behind: its number, the thought and the call behind it, and what
/// came of it.
pub open spec fn left_behind(r: RunText, q: RunText, observation: Seq<char>) -> bool {
    &&& q.history.steps.len() == r.history.steps.len() + 1
    &&& forall|i: int|
        0 <= i < r.history.steps.len() ==> #[trigger] q.history.steps[i] == r.history.steps[i]
    &&& q.history.steps.last().number == r.history.next
    &&& q.history.steps.last().thought == r.thought
    &&& q.history.steps.last().action == r.actions[r.next - 1].action
    &&& q.history.steps.last().input == r.actions[r.next - 1].input
    &&& q.history.steps.last().observation == observation
    &&& q.history.next == r.history.next + 1
    &&& q.history.summary == r.history.summary
    &&& q.actions == r.actions
    &&& q.next == r.next
    &&& q.turn == r.turn
    &&& q.first == r.first
    &&& q.allow_write == r.allow_write
    &&& q.last_call == r.last_call
    &&& q.repeats == r.repeats
}

/// What a file or a folder showed is what the step says that is left behind, word for word.
pub proof fn law_look_is_recorded(r: RunText, text: Seq<char>) -> (q: RunText)
    requires
        run_wf(r),
        r.phase is Looking,
    ensures
        step(r, EventText::Observed(text)) == proceed(q),
        left_behind(r, q, text),
        q.searches == r.searches,
        q.build_retries == r.build_retries,
{
    observe(r, text)
}

/// What a search showed is what the step says that is left behind. Behind a third search in a row
/// a remark follows on a line of its own, and the count starts anew.
pub proof fn law_search_is_recorded(r: RunText, text: Seq<char>) -> (q: RunText)
    requires
        run_wf(r),
        r.phase is Searching,
    ensures
        step(r, EventText::Observed(text)) == proceed(q),
        r.searches < 2 ==> left_behind(r, q, text) && q.searches == r.searches + 1,
        r.searches == 2 && !occurs(text, "No results found"@) ==> left_behind(
            r,
            q,
            text + seq!['\n'] + REPEATED_SEARCHES@,
        ),
        r.searches == 2 && occurs(text, "No results found"@) ==> left_behind(
            r,
            q,
            text + seq!['\n'] + FRUITLESS_SEARCHES@,
        ),
        r.searches == 2 ==> q.searches == 0,
        q.build_retries == r.build_retries,
{
    let q = searched(r, text);
    if r.searches == 2 {
        let seen = observe(r, text);
        assert(seen.history.steps.drop_last() =~= r.history.steps);
        assert(text.push('\n') =~= text + seq!['\n']);
    }
    q
}

/// What a command gave is what the step says that is left behind, and whether it succeeded.
pub proof fn law_command_is_recorded(r: RunText, success: bool, text: Seq<char>) -> (q: RunText)
    requires
        run_wf(r),
        r.phase is Running,
    ensures
        step(r, EventText::Ran(success, text)) == proceed(q),
        success ==> left_behind(r, q, "(success):\n"@ + text),
        !success ==> left_behind(r, q, "(failed):\n"@ + text),
        q.build_retries == r.build_retries,
{
    reveal_strlit("(");
    reveal_strlit("success");
    reveal_strlit("failed");
    reveal_strlit("):\n");
    reveal_strlit("(success):\n");
    reveal_strlit("(failed):\n");
    assert("("@ + "success"@ + "):\n"@ =~= "(success):\n"@);
    assert("("@ + "failed"@ + "):\n"@ =~= "(failed):\n"@);
    observe(r, run_text(success, text))
}

/// A check of the project leaves a step behind that says, one after the other, what came of the
/// edits, which command was run, whether it passed and what it printed. It counts as one check.
pub proof fn law_check_is_recorded(r: RunText, success: bool, text: Seq<char>) -> (q: RunText)
    requires
        run_wf(r),
        r.phase is Building,
    ensures
        step(r, EventText::Ran(success, text)) == proceed(q),
        q.build_retries == r.build_retries + 1,
        success ==> left_behind(
            r,
            q,
            r.phase->observation + "\nBuild check '"@ + r.phase->command + "', attempt "@ + decimal(
                (r.build_retries + 1) as nat,
            ) + "/3: PASSED.\n"@ + text,
        ),
        !success ==> left_behind(
            r,
            q,
            r.phase->observation + "\nBuild check '"@ + r.phase->command + "', attempt "@ + decimal(
                (r.build_retries + 1) as nat,
            ) + "/3: FAILED.\n"@ + text
                + "\nPlease analyze this error and propose a fix using write_file_edits, or call final_answer explaining the issue if you cannot resolve it."@,
        ),
{
    reveal_strlit("");
    reveal_strlit("/");
    reveal_strlit("3");
    reveal_strlit(": PASSED.\n");
    reveal_strlit(": FAILED.\n");
    reveal_strlit("/3: PASSED.\n");
    reveal_strlit("/3: FAILED.\n");
    assert(decimal(3) =~= "3"@) by {
        reveal_with_fuel(decimal, 2);
    }
    assert("/"@ + decimal(3) + ": PASSED.\n"@ =~= "/3: PASSED.\n"@);
    assert("/"@ + decimal(3) + ": FAILED.\n"@ =~= "/3: FAILED.\n"@);
    let q = observe(
        RunText { build_retries: r.build_retries + 1, ..r },
        r.phase->observation + build_text(r.phase->command, r.build_retries + 1, success, text),
    );
    let head = r.phase->observation + "\nBuild check '"@ + r.phase->command + "', attempt "@
        + decimal((r.build_retries + 1) as nat);
    if success {
        assert(q.history.steps.last().observation =~= head + "/3: PASSED.\n"@ + text);
    } else {
        assert(q.history.steps.last().observation =~= head + "/3: FAILED.\n"@ + text
            + "\nPlease analyze this error and propose a fix using write_file_edits, or call final_answer explaining the issue if you cannot resolve it."@);
    }
    q
}

/// Edits that were written are checked, by the command for that, up to three times in a run. Of
/// edits that are not checked the step that is left behind says what came of them.
pub proof fn law_edits_are_checked_or_recorded(
    r: RunText,
    observation: Seq<char>,
    applied: bool,
    build_command: Option<Seq<char>>,
) -> (q: RunText)
    requires
        run_wf(r),
        r.phase is Editing,
    ensures
        ({
            let after = step(r, EventText::Edited { observation, applied, build_command });
            &&& applied && build_command is Some && r.build_retries < 3 ==> {
                &&& after.1 == CommandText::Build(build_command->Some_0)
                &&& after.0.phase == (PhaseText::Building {
                    observation,
                    command: build_command->Some_0,
                })
                &&& after.0.history == r.history
                &&& after.0.build_retries == r.build_retries
            }
            &&& !applied || build_command is None ==> after == proceed(q) && left_behind(
                r,
                q,
                observation,
            )
            &&& applied && build_command is Some && r.build_retries == 3 ==> after == proceed(q)
                && left_behind(
                r,
                q,
                observation
                    + "\nMaximum build/test retry attempts reached; not running the build check again."@,
            )
            &&& q.build_retries == r.build_retries
        }),
{
    if applied && build_command is Some {
        observe(r, observation + NO_MORE_CHECKS@)
    } else {
        observe(r, observation)
    }
}

/// A run has twelve turns. When the actions of a turn are used up and turns are left, the model is
/// asked for the next one, or for a summary first; when none is left, the run ends.
pub proof fn law_turns_follow_each_other(r: RunText)
    requires
        can_proceed(r, 0),
        r.next == r.actions.len(),
    ensures
        r.turn >= 12 ==> proceed(r).1 == CommandText::Stop(StopText::TurnsUsedUp),
        r.turn < 12 ==> proceed(r).0.turn == r.turn + 1 && (proceed(r).1 is Think || proceed(r).1
            is Summarize),
        proceed(r).1 matches CommandText::Think(turn, prompt) ==> turn == r.turn + 1,
        proceed(r).0.history.next == r.history.next,
        proceed(r).0.first == r.first,
{
}

/// A reply that cannot be read, or that proposes nothing, is remarked, and the model is asked again;
/// the third in a row ends the run.
pub proof fn law_unreadable_replies_are_counted(r: RunText, turn: Option<TurnText>)
    requires
        run_wf(r),
        r.phase is Thinking,
        turn matches Some(t) ==> t.actions.len() == 0,
    ensures
        r.parse_failures == 2 ==> step(r, EventText::Turn(turn)).1 == CommandText::Stop(
            StopText::NoValidTurn,
        ),
        r.parse_failures < 2 ==> step(r, EventText::Turn(turn)).0.parse_failures == r.parse_failures
            + 1 && step(r, EventText::Turn(turn)).1 != CommandText::Stop(StopText::NoValidTurn),
        r.parse_failures < 2 && r.history.steps.len() == 0 ==> step(
            r,
            EventText::Turn(turn),
        ).0.history.steps.last().observation == UNREADABLE_TURN@,
        r.parse_failures < 2 && r.history.steps.len() > 0 ==> step(
            r,
            EventText::Turn(turn),
        ).0.history.steps.last().observation == r.history.steps.last().observation + seq!['\n']
            + UNREADABLE_TURN@,
{
    assert(r.history.steps.last().observation.push('\n') =~= r.history.steps.last().observation
        + seq!['\n']);
}

/// What the model is told first stands in every prompt.
proof fn lemma_first_is_shown(r: RunText, p: Seq<char>)
    requires
        occurs(r.first, p),
    ensures
        occurs(think(r).1->Think_1, p),
{
    let title = r.first + "\n\nTranscript so far:\n"@;
    let transcript = render_history(r.history);
    lemma_occurs_in_front(r.first, "\n\nTranscript so far:\n"@, p);
    lemma_occurs_in_front(title, transcript, p);
    lemma_occurs_in_front(
        title + transcript,
        "\n\nWhat are your next action(s)? Respond with ONLY the JSON object."@,
        p,
    );
}

/// The model is told the goal at the first turn, as the run was given it, and what it is told first
/// stays the same for all turns.
pub proof fn law_goal_is_in_every_prompt(goal: Seq<char>, allow_write: bool, r: RunText)
    requires
        r.first == fresh_run(goal, allow_write).first,
    ensures
        think(r).1 is Think,
        think(r).1->Think_0 == r.turn,
        occurs(think(r).1->Think_1, goal),
        allow_write ==> occurs(think(r).1->Think_1, TOOLS_WRITE@),
{
    let form = PREAMBLE_HEAD@ + goal + PREAMBLE_FORM@;
    let tools = tools_description(allow_write);
    lemma_occurs_whole(goal);
    lemma_occurs_between(PREAMBLE_HEAD@, goal, PREAMBLE_FORM@, goal);
    lemma_occurs_in_front(form, tools, goal);
    lemma_first_is_shown(r, goal);
    if allow_write {
        lemma_occurs_whole(TOOLS_WRITE@);
        lemma_occurs_between(TOOLS_HEAD@, TOOLS_WRITE@, TOOLS_END@, TOOLS_WRITE@);
        lemma_occurs_behind(form, tools, TOOLS_WRITE@);
        lemma_first_is_shown(r, TOOLS_WRITE@);
    }
}

/// What a step says stands in the next prompt: the thought, the action and what came of it, word for
/// word.
pub proof fn law_prompt_shows_the_steps(r: RunText, i: int)
    requires
        0 <= i < r.history.steps.len(),
    ensures
        think(r).1 is Think,
        occurs(think(r).1->Think_1, r.history.steps[i].observation),
        occurs(think(r).1->Think_1, r.history.steps[i].action),
        occurs(think(r).1->Think_1, r.history.steps[i].thought),
        occurs(think(r).1->Think_1, compact(r.history.steps[i].input)),
        occurs(think(r).1->Think_1, r.history.summary),
{
    law_transcript_shows_the_steps(r.history, i);
    let transcript = render_history(r.history);
    let head = r.first + "\n\nTranscript so far:\n"@;
    let tail = "\n\nWhat are your next action(s)? Respond with ONLY the JSON object."@;
    lemma_occurs_between(head, transcript, tail, r.history.steps[i].observation);
    lemma_occurs_between(head, transcript, tail, r.history.steps[i].action);
    lemma_occurs_between(head, transcript, tail, r.history.steps[i].thought);
    lemma_occurs_between(head, transcript, tail, compact(r.history.steps[i].input));
    lemma_occurs_between(head, transcript, tail, r.history.summary);
}

/// A run begins by asking the model for its first turn, with the goal and nothing done yet.
pub proof fn law_run_begins_with_the_goal(goal: Seq<char>, allow_write: bool)
    ensures
        begin_turn(fresh_run(goal, allow_write)).1 is Think,
        begin_turn(fresh_run(goal, allow_write)).1->Think_0 == 1,
        occurs(begin_turn(fresh_run(goal, allow_write)).1->Think_1, goal),
        begin_turn(fresh_run(goal, allow_write)).0.allow_write == allow_write,
        begin_turn(fresh_run(goal, allow_write)).0.history.steps.len() == 0,
        begin_turn(fresh_run(goal, allow_write)).0.history.next == 1,
        begin_turn(fresh_run(goal, allow_write)).0.turn == 1,
        begin_turn(fresh_run(goal, allow_write)).0.last_call is None,
        begin_turn(fresh_run(goal, allow_write)).0.build_retries == 0,
        begin_turn(fresh_run(goal, allow_write)).0.searches == 0,
        begin_turn(fresh_run(goal, allow_write)).0.parse_failures == 0,
{
    let r = begin_turn(fresh_run(goal, allow_write)).0;
    law_goal_is_in_every_prompt(goal, allow_write, r);
}

/// The model is asked for a summary before a turn exactly if steps are due for it: more than six, and
/// four beyond those or no summary yet. Else it is asked for the turn at once.
pub proof fn law_summary_is_asked_when_due(r: RunText)
    requires
        can_proceed(r, 0),
        r.next == r.actions.len(),
        r.turn < 12,
    ensures
        proceed(r).1 is Summarize <==> r.history.steps.len() > 6 && (r.history.steps.len() >= 10
            || r.history.summary.len() == 0),
        proceed(r).1 is Summarize ==> proceed(r).0.history == r.history && occurs(
            proceed(r).1->Summarize_0,
            r.history.summary,
        ),
        r.history.steps.len() <= 6 ==> proceed(r).0.history == r.history,
{
    let h = r.history;
    if h.steps.len() > 6 && (h.steps.len() >= 10 || h.summary.len() == 0) {
        law_summary_prompt_shows_the_summary(h);
    }
}

/// With its summary, or without one, the model is asked for the turn that was waiting. The six latest
/// steps stay as they were; a summary that says something takes the place of the one before.
pub proof fn law_turn_follows_the_summary(r: RunText, reply: Option<Seq<char>>)
    requires
        run_wf(r),
        r.phase is Summarizing,
    ensures
        step(r, EventText::Summary(reply)).1 is Think,
        step(r, EventText::Summary(reply)).1->Think_0 == r.turn,
        step(r, EventText::Summary(reply)).0.history.steps == r.history.steps.skip(
            r.history.steps.len() - 6,
        ),
        reply matches Some(text) ==> (trim(text).len() > 0 ==> step(
            r,
            EventText::Summary(reply),
        ).0.history.summary == trim(text)),
        reply is None ==> has_prefix(
            step(r, EventText::Summary(reply)).0.history.summary,
            r.history.summary,
        ),
        step(r, EventText::Summary(reply)).0.history.next == r.history.next,
{
    if reply is None {
        let h = r.history;
        let after = step(r, EventText::Summary(reply)).0.history.summary;
        assert(after.take(h.summary.len() as int) =~= h.summary);
    }
}

/// A call like the one before is counted, and any other call starts the count anew; the call that was
/// taken up is the one that the next is held against.
pub proof fn law_repeats_are_counted(r: RunText, action: ProposedText)
    requires
        is_next(r, action),
    ensures
        act(r).0.last_call == Some(action),
        act(r).0.next == r.next + 1,
        (r.last_call matches Some(call) && call.action == action.action && json_same(
            call.input,
            action.input,
        )) ==> act(r).0.repeats == r.repeats + 1,
        !(r.last_call matches Some(call) && call.action == action.action && json_same(
            call.input,
            action.input,
        )) ==> act(r).0.repeats == 0,
{
}

/// A call that is refused leads to no command: the remark in the history names the action and shows its
/// input, and the count starts anew.
pub proof fn law_refused_call_is_remarked(r: RunText, action: ProposedText)
    requires
        0 <= r.next < r.actions.len(),
        r.actions[r.next] == action,
        action.action != "final_answer"@,
        r.repeats == 2,
        r.last_call matches Some(call) && call.action == action.action && json_same(
            call.input,
            action.input,
        ),
    ensures
        proceed(r) == proceed(act(r).0),
        act(r).1 is None,
        act(r).0.next == r.next + 1,
        act(r).0.repeats == 0,
        occurs(act(r).0.history.steps.last().observation, action.action),
        occurs(act(r).0.history.steps.last().observation, compact(action.input)),
        r.history.steps.len() > 0 ==> act(r).0.history.steps.len() == r.history.steps.len()
            && has_prefix(
            act(r).0.history.steps.last().observation,
            r.history.steps.last().observation,
        ),
{
    let remark = repeat_remark(action, 4);
    let name = action.action;
    let input = compact(action.input);
    let head = "Observation: You have called "@;
    let mid = " with the EXACT SAME action_input ("@;
    let tail =
        " times in a row and it keeps failing or returning the same result. Do not repeat this call unchanged again. Re-read the tool's argument names in the system prompt, change the input, try a different action, or call final_answer explaining you're stuck."@;
    lemma_occurs_whole(name);
    lemma_occurs_whole(input);
    let s1 = head + name;
    let s2 = s1 + mid;
    let s3 = s2 + input;
    let s4 = s3 + ") "@;
    let s5 = s4 + decimal(4);
    lemma_occurs_behind(head, name, name);
    lemma_occurs_in_front(s1, mid, name);
    lemma_occurs_in_front(s2, input, name);
    lemma_occurs_in_front(s3, ") "@, name);
    lemma_occurs_in_front(s4, decimal(4), name);
    lemma_occurs_in_front(s5, tail, name);
    lemma_occurs_behind(s2, input, input);
    lemma_occurs_in_front(s3, ") "@, input);
    lemma_occurs_in_front(s4, decimal(4), input);
    lemma_occurs_in_front(s5, tail, input);
    assert(remark == s5 + tail);
    if r.history.steps.len() > 0 {
        let before = r.history.steps.last().observation;
        let after = before.push('\n') + remark;
        lemma_occurs_behind(before.push('\n'), remark, name);
        lemma_occurs_behind(before.push('\n'), remark, input);
        assert(after.take(before.len() as int) =~= before);
    }
}

/// Of a turn that is not carried out the agent is told why, behind what it was told before; nothing
/// else changes in its history.
pub proof fn law_rejected_turn_is_remarked(r: RunText, turn: TurnText)
    requires
        run_wf(r),
        r.phase is Thinking,
        turn.actions.len() > 0,
        turn_fault(turn.actions) is Some,
        0 < r.history.steps.len() <= 6,
        r.turn < 12,
    ensures
        ({
            let after = step(r, EventText::Turn(Some(turn)));
            &&& after.1 is Think
            &&& after.0.history.steps.len() == r.history.steps.len()
            &&& after.0.history.steps.drop_last() == r.history.steps.drop_last()
            &&& after.0.history.steps.last().observation == r.history.steps.last().observation
                + seq!['\n'] + turn_fault(turn.actions)->Some_0
            &&& after.0.history.steps.last().action == r.history.steps.last().action
            &&& after.0.parse_failures == 0
            &&& after.0.turn == r.turn + 1
        }),
{
    let before = r.history.steps.last().observation;
    assert(before.push('\n') =~= before + seq!['\n']);
    let after = step(r, EventText::Turn(Some(turn)));
    assert(after.0.history.steps.drop_last() =~= r.history.steps.drop_last());
}

/// In each phase a run takes the events of that phase and no others.
pub proof fn law_each_phase_awaits_its_event(phase: PhaseText, event: EventText)
    ensures
        phase is Summarizing ==> (awaits(phase, event) <==> event is Summary),
        phase is Thinking ==> (awaits(phase, event) <==> event is Turn),
        phase is Searching || phase is Looking ==> (awaits(phase, event) <==> event is Observed),
        phase is Running || phase is Building ==> (awaits(phase, event) <==> event is Ran),
        phase is Editing ==> (awaits(phase, event) <==> event is Edited),
        phase is Done ==> !awaits(phase, event),
{
}

} // verus!
