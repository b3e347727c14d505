//! A turn of the agent: the actions that the model proposes, and what they ask for.
use vstd::prelude::*;

use crate::edits::{edit_texts, edits_of, parse_edit_blocks_from_value, EditBlock, EditText};
use crate::json::{
    json_get, json_unsigned, parse_json, parsed_json, text_member, Json, JsonDocument, JsonNumber,
    JsonValue, NumberText,
};
use crate::numbers::{append_number, decimal};
use crate::strings::option_text;
use crate::text::{append_text, same_text};

verus! {

/// How many actions a turn may have.
pub const MAX_ACTIONS_PER_TURN: usize = 5;

// ---------------------------------------------------------------------------------------------
// Turns
// ---------------------------------------------------------------------------------------------
/// An action as it comes from the model. Its arguments may be a JSON text inside a JSON text.
#[derive(Debug)]
pub struct ProposedActionRaw {
    pub action: String,
    pub action_input: JsonDocument,
}

/// A turn as it comes from the model.
#[derive(Debug)]
pub struct AgentTurnRaw {
    pub thought: Option<String>,
    pub actions: Vec<ProposedActionRaw>,
}

/// An action with its arguments.
#[derive(Debug)]
pub struct ProposedAction {
    pub action: String,
    pub action_input: JsonDocument,
}

/// A turn with the arguments of its actions.
#[derive(Debug)]
pub struct AgentTurn {
    pub thought: Option<String>,
    pub actions: Vec<ProposedAction>,
}

/// What an action says.
#[verifier::ext_equal]
pub struct ProposedText {
    pub action: Seq<char>,
    pub input: Json,
}

/// What a turn says.
#[verifier::ext_equal]
pub struct TurnText {
    pub thought: Option<Seq<char>>,
    pub actions: Seq<ProposedText>,
}

impl View for ProposedActionRaw {
    type V = ProposedText;

    open spec fn view(&self) -> ProposedText {
        ProposedText { action: self.action@, input: self.action_input@ }
    }
}

impl View for ProposedAction {
    type V = ProposedText;

    open spec fn view(&self) -> ProposedText {
        ProposedText { action: self.action@, input: self.action_input@ }
    }
}

/// What actions say.
pub open spec fn proposed_texts(v: Seq<ProposedAction>) -> Seq<ProposedText> {
    v.map_values(|a: ProposedAction| a@)
}

impl View for AgentTurnRaw {
    type V = TurnText;

    open spec fn view(&self) -> TurnText {
        TurnText {
            thought: option_text(self.thought),
            actions: self.actions@.map_values(|a: ProposedActionRaw| a@),
        }
    }
}

impl View for AgentTurn {
    type V = TurnText;

    open spec fn view(&self) -> TurnText {
        TurnText { thought: option_text(self.thought), actions: proposed_texts(self.actions@) }
    }
}

/// The arguments of an action. A text is read as a JSON document, where it is one; `parsed` is
/// what comes of that.
pub open spec fn settled_input(input: Json, parsed: Option<Json>) -> Json {
    match parsed {
        Some(j) => if input is Text {
            j
        } else {
            input
        },
        None => input,
    }
}

/// The arguments of an action, given what comes of reading them as a JSON document.
pub fn settle_input(input: &JsonDocument, parsed: Option<JsonDocument>) -> (res: JsonDocument)
    ensures
        res@ == settled_input(
            input@,
            match parsed {
                Some(document) => Some(document@),
                None => None,
            },
        ),
{
    match parsed {
        Some(document) => match input.value() {
            JsonValue::Text(_) => document,
            _ => input.copy(),
        },
        None => input.copy(),
    }
}

/// The arguments of an action: a text that is a JSON document stands for that document.
pub open spec fn normal_input(input: Json) -> Json {
    match input {
        Json::Text(s) => settled_input(input, parsed_json(s)),
        _ => input,
    }
}

/// A turn whose actions have their arguments.
pub open spec fn normal_turn(turn: TurnText) -> TurnText {
    TurnText {
        thought: turn.thought,
        actions: turn.actions.map_values(
            |a: ProposedText| ProposedText { action: a.action, input: normal_input(a.input) },
        ),
    }
}

/// A turn whose actions have their arguments.
pub fn normalize_turn(raw: AgentTurnRaw) -> (res: AgentTurn)
    ensures
        res@ == normal_turn(raw@),
{
    let ghost all = normal_turn(raw@).actions;
    let mut actions: Vec<ProposedAction> = Vec::new();
    for i in 0..raw.actions.len()
        invariant
            all == normal_turn(raw@).actions,
            proposed_texts(actions@) == all.take(i as int),
    {
        let a = &raw.actions[i];
        let ghost before = proposed_texts(actions@);
        let action_input = match a.action_input.value() {
            JsonValue::Text(s) => {
                let parsed = parse_json(s.as_str());
                settle_input(&a.action_input, parsed)
            },
            _ => a.action_input.copy(),
        };
        let action = ProposedAction { action: a.action.as_str().to_owned(), action_input };
        let ghost text = action@;
        assert(raw@.actions[i as int] == a@);
        assert(all[i as int] == text);
        actions.push(action);
        assert(proposed_texts(actions@) =~= before.push(text));
        assert(all.take(i + 1) =~= before.push(text));
    }
    assert(all.take(all.len() as int) =~= all);
    let AgentTurnRaw { thought, actions: _ } = raw;
    AgentTurn { thought, actions }
}

/// Reading the arguments changes nothing else: a turn keeps its thought, its actions and their
/// order, and arguments that are no text stay as they are.
pub proof fn law_normal_turn_keeps_actions(turn: TurnText, i: int)
    requires
        0 <= i < turn.actions.len(),
    ensures
        normal_turn(turn).thought == turn.thought,
        normal_turn(turn).actions.len() == turn.actions.len(),
        normal_turn(turn).actions[i].action == turn.actions[i].action,
        !(turn.actions[i].input is Text) ==> normal_turn(turn).actions[i] == turn.actions[i],
{
}

// ---------------------------------------------------------------------------------------------
// Which turns are carried out
// ---------------------------------------------------------------------------------------------
/// How many of the first `n` actions have the given name.
pub open spec fn count_named(actions: Seq<ProposedText>, name: Seq<char>, n: int) -> int
    decreases n,
{
    if n <= 0 {
        0
    } else {
        count_named(actions, name, n - 1) + if actions[n - 1].action == name {
            1int
        } else {
            0
        }
    }
}

/// How many actions have the given name.
fn count_actions(actions: &Vec<ProposedAction>, name: &str) -> (res: usize)
    ensures
        res == count_named(proposed_texts(actions@), name@, actions@.len() as int),
        res <= actions@.len(),
{
    let ghost all = proposed_texts(actions@);
    let mut count: usize = 0;
    for i in 0..actions.len()
        invariant
            all == proposed_texts(actions@),
            count == count_named(all, name@, i as int),
            count <= i,
    {
        assert(all[i as int] == actions@[i as int]@);
        if same_text(actions[i].action.as_str(), name) {
            count = count + 1;
        }
    }
    count
}

/// What the agent is told where a turn is not carried out, and nothing where it is: no turn has
/// too many actions, an answer beside other actions, or two edits or two commands.
pub open spec fn turn_fault(actions: Seq<ProposedText>) -> Option<Seq<char>> {
    let n = actions.len() as int;
    if n > MAX_ACTIONS_PER_TURN {
        Some(
            "Observation: You proposed "@ + decimal(n as nat)
                + " actions in one turn; the maximum is "@ + decimal(MAX_ACTIONS_PER_TURN as nat)
                + ". Split this into smaller turns."@,
        )
    } else if count_named(actions, "final_answer"@, n) > 0 && n > 1 {
        Some(
            "Observation: final_answer must be the ONLY action in its turn. This turn was rejected — nothing in it was executed. Call final_answer alone once you're ready to answer."@,
        )
    } else if count_named(actions, "write_file_edits"@, n) > 1 {
        Some(
            "Observation: write_file_edits may appear at most once per turn — combine all your edits into that single call's \"edits\" array instead. This turn was rejected — nothing in it was executed."@,
        )
    } else if count_named(actions, "run_command"@, n) > 1 {
        Some(
            "Observation: run_command may appear at most once per turn. This turn was rejected — nothing in it was executed."@,
        )
    } else {
        None
    }
}

/// A turn of one action is always carried out.
pub proof fn lemma_single_action_is_no_fault(actions: Seq<ProposedText>)
    requires
        actions.len() == 1,
    ensures
        turn_fault(actions) is None,
{
    reveal_with_fuel(count_named, 2);
}

/// What the agent is told where a turn is not carried out, and nothing where it is.
pub fn check_turn(actions: &Vec<ProposedAction>) -> (res: Option<String>)
    ensures
        option_text(res) == turn_fault(proposed_texts(actions@)),
{
    let n = actions.len();
    if n > MAX_ACTIONS_PER_TURN {
        let mut text = "Observation: You proposed ".to_owned();
        append_number(&mut text, n as u64);
        append_text(&mut text, " actions in one turn; the maximum is ");
        append_number(&mut text, MAX_ACTIONS_PER_TURN as u64);
        append_text(&mut text, ". Split this into smaller turns.");
        return Some(text);
    }
    if count_actions(actions, "final_answer") > 0 && n > 1 {
        return Some(
            "Observation: final_answer must be the ONLY action in its turn. This turn was rejected — nothing in it was executed. Call final_answer alone once you're ready to answer.".to_owned(),
        );
    }
    if count_actions(actions, "write_file_edits") > 1 {
        return Some(
            "Observation: write_file_edits may appear at most once per turn — combine all your edits into that single call's \"edits\" array instead. This turn was rejected — nothing in it was executed.".to_owned(),
        );
    }
    if count_actions(actions, "run_command") > 1 {
        return Some(
            "Observation: run_command may appear at most once per turn. This turn was rejected — nothing in it was executed.".to_owned(),
        );
    }
    None
}

// ---------------------------------------------------------------------------------------------
// What an action asks for
// ---------------------------------------------------------------------------------------------
/// A text argument, or `other` where there is none.
pub open spec fn text_argument(input: Json, key: Seq<char>, other: Seq<char>) -> Seq<char> {
    match text_member(input, key) {
        Some(text) => text,
        None => other,
    }
}

/// A text argument, or `other` where there is none.
pub fn argument_or(input: &JsonValue, key: &str, other: &str) -> (res: String)
    ensures
        res@ == text_argument(input@, key@, other@),
{
    match input.text_member(key) {
        Some(text) => text.to_owned(),
        None => other.to_owned(),
    }
}

/// The path of a file to read: `path`, or `file_path` where that is not given.
pub open spec fn path_argument(input: Json) -> Seq<char> {
    if json_get(input, "path"@) is Some {
        text_argument(input, "path"@, ""@)
    } else {
        text_argument(input, "file_path"@, ""@)
    }
}

/// The path of a file to read.
pub fn path_to_read(input: &JsonValue) -> (res: String)
    ensures
        res@ == path_argument(input@),
{
    match input.get("path") {
        Some(_) => argument_or(input, "path", ""),
        None => argument_or(input, "file_path", ""),
    }
}

/// A line number, or `other` where none is given.
pub open spec fn line_argument(input: Json, key: Seq<char>, other: usize) -> usize {
    match json_get(input, key) {
        Some(v) => match json_unsigned(v) {
            Some(n) => n as usize,
            None => other,
        },
        None => other,
    }
}

/// A line number, or `other` where none is given.
pub fn line_or(input: &JsonValue, key: &str, other: usize) -> (res: usize)
    ensures
        res == line_argument(input@, key@, other),
{
    match input.get(key) {
        Some(v) => match v.as_u64() {
            Some(n) => n as usize,
            None => other,
        },
        None => other,
    }
}

/// The last line to read where only the first is given.
pub open spec fn default_end(start: usize) -> usize {
    if start <= usize::MAX - 100 {
        (start + 100) as usize
    } else {
        usize::MAX
    }
}

/// The lines to read, first and last.
pub open spec fn lines_argument(input: Json) -> (usize, usize) {
    let start = line_argument(input, "start_line"@, 1);
    (start, line_argument(input, "end_line"@, default_end(start)))
}

/// The lines to read, first and last.
pub fn lines_to_read(input: &JsonValue) -> (res: (usize, usize))
    ensures
        res == lines_argument(input@),
{
    let start = line_or(input, "start_line", 1);
    (start, line_or(input, "end_line", start.saturating_add(100)))
}

/// The edits to make.
pub open spec fn edits_argument(input: Json) -> Seq<EditText> {
    match json_get(input, "edits"@) {
        Some(v) => edits_of(v),
        None => Seq::<EditText>::empty(),
    }
}

/// The edits to make.
pub fn edits_to_make(input: &JsonValue) -> (res: Vec<EditBlock>)
    ensures
        edit_texts(res@) == edits_argument(input@),
{
    match input.get("edits") {
        Some(v) => parse_edit_blocks_from_value(v),
        None => {
            let none: Vec<EditBlock> = Vec::new();
            assert(edit_texts(none@) =~= Seq::<EditText>::empty());
            none
        },
    }
}

/// The answer that ends a run: a member of an object, or a text as it stands.
pub open spec fn answer_argument(input: Json) -> Seq<char> {
    match input {
        Json::Object(_) => text_argument(input, "answer"@, "(no answer text provided)"@),
        Json::Text(s) => s,
        _ => "(no answer text provided)"@,
    }
}

/// The answer that ends a run.
pub fn answer_to_give(input: &JsonValue) -> (res: String)
    ensures
        res@ == answer_argument(input@),
{
    match input {
        JsonValue::Object(_) => argument_or(input, "answer", "(no answer text provided)"),
        JsonValue::Text(s) => s.as_str().to_owned(),
        _ => "(no answer text provided)".to_owned(),
    }
}

// ---------------------------------------------------------------------------------------------
// The form of a turn
// ---------------------------------------------------------------------------------------------
/// What the members of an object say.
pub open spec fn member_texts(v: Seq<(String, JsonValue)>) -> Seq<(Seq<char>, Json)> {
    v.map_values(|m: (String, JsonValue)| (m.0@, m.1@))
}

/// An object with these members.
fn object_of(members: Vec<(String, JsonValue)>) -> (res: JsonValue)
    ensures
        res@ == Json::Object(member_texts(members@)),
{
    let ghost texts = member_texts(members@);
    let res = JsonValue::Object(members);
    assert(res@->Object_0 =~= texts);
    res
}

/// A text.
fn text_of(text: &str) -> (res: JsonValue)
    ensures
        res@ == Json::Text(text@),
{
    JsonValue::Text(text.to_owned())
}

/// A number.
fn number_of(n: usize) -> (res: JsonValue)
    ensures
        res@ == Json::Number(NumberText::PosInt(n as u64)),
{
    JsonValue::Number(JsonNumber::PosInt(n as u64))
}

/// A schema that admits every text.
pub open spec fn text_schema() -> Json {
    Json::Object(seq![("type"@, Json::Text("string"@))])
}

/// What the schema says of the arguments of an action.
pub const INPUT_DESCRIPTION: &'static str =
    "A JSON-ENCODED STRING (not a nested object) containing this action's arguments, e.g. \"{\\\"path\\\": \\\"index.html\\\", \\\"start_line\\\": 1, \\\"end_line\\\": 100}\". Must parse as valid JSON.";

/// A schema that admits the arguments of an action.
pub open spec fn input_schema() -> Json {
    Json::Object(
        seq![
            ("type"@, Json::Text("string"@)),
            ("description"@, Json::Text(INPUT_DESCRIPTION@)),
        ],
    )
}

/// A schema that admits an action.
pub open spec fn action_schema() -> Json {
    Json::Object(
        seq![
            ("type"@, Json::Text("object"@)),
            (
                "properties"@,
                Json::Object(seq![("action"@, text_schema()), ("action_input"@, input_schema())]),
            ),
            (
                "required"@,
                Json::Array(seq![Json::Text("action"@), Json::Text("action_input"@)]),
            ),
        ],
    )
}

/// A schema that admits a list of actions.
pub open spec fn actions_schema() -> Json {
    Json::Object(
        seq![
            ("type"@, Json::Text("array"@)),
            ("minItems"@, Json::Number(NumberText::PosInt(1))),
            ("maxItems"@, Json::Number(NumberText::PosInt(MAX_ACTIONS_PER_TURN as u64))),
            ("items"@, action_schema()),
        ],
    )
}

/// A schema that admits a turn and nothing else.
pub open spec fn turn_schema() -> Json {
    Json::Object(
        seq![
            ("type"@, Json::Text("object"@)),
            (
                "properties"@,
                Json::Object(seq![("thought"@, text_schema()), ("actions"@, actions_schema())]),
            ),
            ("required"@, Json::Array(seq![Json::Text("actions"@)])),
        ],
    )
}

/// A schema that admits every text.
fn any_text() -> (res: JsonValue)
    ensures
        res@ == text_schema(),
{
    let mut m: Vec<(String, JsonValue)> = Vec::new();
    m.push(("type".to_owned(), text_of("string")));
    assert(member_texts(m@) =~= seq![("type"@, Json::Text("string"@))]);
    object_of(m)
}

/// A schema that admits an action.
fn any_action() -> (res: JsonValue)
    ensures
        res@ == action_schema(),
{
    let mut input: Vec<(String, JsonValue)> = Vec::new();
    input.push(("type".to_owned(), text_of("string")));
    input.push(("description".to_owned(), text_of(INPUT_DESCRIPTION)));
    assert(member_texts(input@) =~= input_schema()->Object_0);
    let mut parts: Vec<(String, JsonValue)> = Vec::new();
    parts.push(("action".to_owned(), any_text()));
    parts.push(("action_input".to_owned(), object_of(input)));
    assert(member_texts(parts@) =~= seq![
        ("action"@, text_schema()),
        ("action_input"@, input_schema()),
    ]);
    let mut names: Vec<JsonValue> = Vec::new();
    names.push(text_of("action"));
    names.push(text_of("action_input"));
    let required = JsonValue::Array(names);
    assert(required@->Array_0 =~= seq![Json::Text("action"@), Json::Text("action_input"@)]);
    let mut m: Vec<(String, JsonValue)> = Vec::new();
    m.push(("type".to_owned(), text_of("object")));
    m.push(("properties".to_owned(), object_of(parts)));
    m.push(("required".to_owned(), required));
    assert(member_texts(m@) =~= action_schema()->Object_0);
    object_of(m)
}

/// A schema that admits a turn and nothing else.
pub fn agent_action_schema() -> (res: JsonValue)
    ensures
        res@ == turn_schema(),
{
    let mut list: Vec<(String, JsonValue)> = Vec::new();
    list.push(("type".to_owned(), text_of("array")));
    list.push(("minItems".to_owned(), number_of(1)));
    list.push(("maxItems".to_owned(), number_of(MAX_ACTIONS_PER_TURN)));
    list.push(("items".to_owned(), any_action()));
    assert(member_texts(list@) =~= actions_schema()->Object_0);
    let mut parts: Vec<(String, JsonValue)> = Vec::new();
    parts.push(("thought".to_owned(), any_text()));
    parts.push(("actions".to_owned(), object_of(list)));
    assert(member_texts(parts@) =~= seq![("thought"@, text_schema()), ("actions"@, actions_schema())]);
    let mut names: Vec<JsonValue> = Vec::new();
    names.push(text_of("actions"));
    let required = JsonValue::Array(names);
    assert(required@->Array_0 =~= seq![Json::Text("actions"@)]);
    let mut m: Vec<(String, JsonValue)> = Vec::new();
    m.push(("type".to_owned(), text_of("object")));
    m.push(("properties".to_owned(), object_of(parts)));
    m.push(("required".to_owned(), required));
    assert(member_texts(m@) =~= turn_schema()->Object_0);
    object_of(m)
}

// ---------------------------------------------------------------------------------------------
// What turns are carried out, and how their arguments are read
// ---------------------------------------------------------------------------------------------
proof fn lemma_count_named(actions: Seq<ProposedText>, name: Seq<char>, n: int)
    requires
        0 <= n <= actions.len(),
    ensures
        0 <= count_named(actions, name, n),
        count_named(actions, name, n) > 0 <==> exists|i: int|
            0 <= i < n && (#[trigger] actions[i]).action == name,
        count_named(actions, name, n) > 1 <==> exists|i: int, j: int|
            0 <= i < j < n && (#[trigger] actions[i]).action == name && (
            #[trigger] actions[j]).action == name,
    decreases n,
{
    if n > 0 {
        lemma_count_named(actions, name, n - 1);
        let before = count_named(actions, name, n - 1);
        if actions[n - 1].action == name && before > 0 {
            let i = choose|i: int| 0 <= i < n - 1 && (#[trigger] actions[i]).action == name;
            assert(actions[i].action == name && actions[n - 1].action == name);
        }
    }
}

/// A turn is carried out exactly if it has no more than five actions, gives its answer alone, and
/// edits and runs a command no more than once each.
pub proof fn law_turn_is_carried_out_if_allowed(actions: Seq<ProposedText>)
    ensures
        turn_fault(actions) is None <==> {
            &&& actions.len() <= 5
            &&& actions.len() > 1 ==> forall|i: int|
                0 <= i < actions.len() ==> (#[trigger] actions[i]).action != "final_answer"@
            &&& forall|i: int, j: int|
                0 <= i < j < actions.len() ==> !((#[trigger] actions[i]).action
                    == "write_file_edits"@ && (#[trigger] actions[j]).action
                    == "write_file_edits"@)
            &&& forall|i: int, j: int|
                0 <= i < j < actions.len() ==> !((#[trigger] actions[i]).action == "run_command"@
                    && (#[trigger] actions[j]).action == "run_command"@)
        },
{
    let n = actions.len() as int;
    lemma_count_named(actions, "final_answer"@, n);
    lemma_count_named(actions, "write_file_edits"@, n);
    lemma_count_named(actions, "run_command"@, n);
}

/// The arguments of an action that come as a text are the document that the text says; where the
/// text says none, they are the text.
pub proof fn law_arguments_in_a_text_are_read(turn: TurnText, i: int, text: Seq<char>)
    requires
        0 <= i < turn.actions.len(),
        turn.actions[i].input == Json::Text(text),
    ensures
        parsed_json(text) matches Some(document) ==> normal_turn(turn).actions[i].input == document,
        parsed_json(text) is None ==> normal_turn(turn).actions[i].input == Json::Text(text),
{
}

} // verus!
