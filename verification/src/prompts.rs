//! What the model is asked, and which model is asked.
use vstd::prelude::*;

use crate::strings::{
    has_prefix, is_blank, law_trim_takes_blanks_off, lemma_occurs_between, lemma_occurs_whole, occurs,
    strip_prefixes, strip_suffixes, stripped_prefixes, stripped_suffixes, text_contains, texts, trim,
    trimmed,
};
use crate::text::{
    append_text, ascii_lower_all, from_chars, is_ascii_char, is_ascii_text, is_ws, lowercase,
    same_text, to_chars,
};

verus! {

// ---------------------------------------------------------------------------------------------
// Prompts
// ---------------------------------------------------------------------------------------------
/// The actions that every agent has.
pub const TOOLS_HEAD: &'static str = "Available actions (each \"action\" field must be exactly one of these names). You may propose MULTIPLE actions in a single turn by listing them all in the \"actions\" array — e.g. read three files at once, or run several searches — instead of waiting a full turn per call. Rules: search_codebase, read_file, and list_directory may appear more than once per turn. run_command and write_file_edits may each appear AT MOST ONCE per turn. final_answer, if used, must be the ONLY action in its turn.\n\nNOTE: \"action_input\" must be a JSON-ENCODED STRING containing the arguments object, not a nested object. For example: \"action_input\": \"{\\\"path\\\": \\\"index.html\\\", \\\"start_line\\\": 1, \\\"end_line\\\": 100}\".\n\n- search_codebase: arguments {\"query\": \"<search terms>\"} — full-text search the indexed codebase.\n- read_file: arguments {\"path\": \"<file path>\", \"start_line\": <int>, \"end_line\": <int>} — read a bounded line range from a file. The field is \"path\", not \"file_path\".\n- list_directory: arguments {\"path\": \"<relative dir path, use '.' for root>\"} — list files/subdirectories.\n- run_command: arguments {\"cmd\": \"<shell command>\"} — run a shell command in the project root (e.g. to inspect the project or run tests).\n";

/// The action that only an agent with leave to write has.
pub const TOOLS_WRITE: &'static str = "- write_file_edits: arguments {\"edits\": [{\"file_path\": \"...\", \"mode\": \"replace\"|\"append\"|\"create\", \"search\": \"...\", \"replace\": \"...\"}]} — propose edits to apply to disk. For \"replace\", \"search\" must be copied verbatim from a file you have actually read or retrieved. For \"append\" or \"create\", omit or empty \"search\" (for \"create\", \"replace\" holds the full contents of the new file, and \"file_path\" must not already exist). The user will be asked to confirm before anything is written. Note this action uses \"file_path\" inside each edit entry — that name does NOT apply to read_file.\n";

/// The action that ends a run.
pub const TOOLS_END: &'static str = "- final_answer: arguments {\"answer\": \"<your final answer or summary to the user>\"} — call this ALONE, with nothing else in \"actions\", once you have nothing further to investigate or change.\n";

/// What the agent is told first, up to its goal.
pub const PREAMBLE_HEAD: &'static str = "You are an autonomous coding agent working inside a codebase.\n\nGOAL:\n";

/// How the agent has to answer.
pub const PREAMBLE_FORM: &'static str = "\n\nProceed step by step. At EVERY turn, respond with ONLY a single JSON object of the shape {\"thought\": \"<brief reasoning>\", \"actions\": [{\"action\": \"<name>\", \"action_input\": \"<JSON-encoded string of arguments>\"}, ...]}.\nDo not include any text outside the JSON object, and do not wrap it in markdown fences.\n\n";

/// The goal of an agent that answers a question, up to the question.
pub const ASK_GOAL: &'static str = "Answer the user's question about this codebase as accurately as possible. Use search_codebase, read_file, list_directory, and run_command as needed to gather real evidence before answering — do not guess. If the answer isn't in the codebase, say so.\n\nUSER QUESTION:\n";

/// The goal of an agent that edits, up to the instruction.
pub const EDIT_GOAL: &'static str = "Modify the codebase to satisfy the following instruction. Investigate with search_codebase / read_file / list_directory first so your edits are grounded in the real file contents. If the directory is empty or the relevant files don't exist yet, don't keep re-listing it — go straight to write_file_edits with mode \"create\" to author the needed files. After edits are applied you will automatically be shown the result of the project's build/test check — if it fails, analyze the error and propose a fix. Call final_answer once the change is complete (or once you've made a best effort and should report status/blockers).\n\nINSTRUCTION:\n";

/// A question in one go, up to what was found.
pub const ANSWER_HEAD: &'static str = "You are a helpful coding assistant. Answer the user's question based on the provided codebase context.\n\nCODEBASE CONTEXT:\n";

/// A question in one go, from what was found up to the question.
pub const ANSWER_QUESTION: &'static str = "\n\nUSER QUESTION:\n";

/// An edit in one go, up to the instruction.
pub const REWRITE_HEAD: &'static str = "You are an automated code editing tool. Your task is to modify the codebase to satisfy the following instruction.\n\nINSTRUCTION:\n";

/// An edit in one go, from the instruction up to what was found.
pub const REWRITE_CONTEXT: &'static str = "\n\nRELEVANT CODEBASE CONTEXT:\n";

/// How the edits have to be written.
pub const REWRITE_FORM: &'static str = "\n\nOUTPUT FORMAT:\nOutput your edits using EXACT SEARCH/REPLACE blocks formatted like this:\nFILE: path/to/file.ext\n<<<<<<< SEARCH\nverbatim text to replace\n=======\nnew replacement text\n>>>>>>> REPLACE\n\nTo CREATE a brand new file, leave the SEARCH section empty and put the full file contents in REPLACE:\nFILE: path/to/new_file.ext\n<<<<<<< SEARCH\n=======\nfull contents of the new file\n>>>>>>> REPLACE\n\nImportant:\n- The SEARCH block must match existing code EXACTLY line-by-line (or be empty, for new files).\n- Output ONLY the edit blocks. No conversational text.";

/// The actions that an agent has.
pub open spec fn tools_description(allow_write: bool) -> Seq<char> {
    TOOLS_HEAD@ + (if allow_write {
        TOOLS_WRITE@
    } else {
        ""@
    }) + TOOLS_END@
}

/// The actions that an agent has.
pub fn build_tools_description(allow_write: bool) -> (res: String)
    ensures
        res@ == tools_description(allow_write),
{
    let mut out = TOOLS_HEAD.to_owned();
    if allow_write {
        append_text(&mut out, TOOLS_WRITE);
    } else {
        append_text(&mut out, "");
    }
    append_text(&mut out, TOOLS_END);
    out
}

/// What the agent is told first.
pub open spec fn preamble(goal: Seq<char>, allow_write: bool) -> Seq<char> {
    PREAMBLE_HEAD@ + goal + PREAMBLE_FORM@ + tools_description(allow_write)
}

/// What the agent is told first.
pub fn system_preamble(goal: &str, allow_write: bool) -> (res: String)
    ensures
        res@ == preamble(goal@, allow_write),
{
    let mut out = PREAMBLE_HEAD.to_owned();
    append_text(&mut out, goal);
    append_text(&mut out, PREAMBLE_FORM);
    append_text(&mut out, build_tools_description(allow_write).as_str());
    out
}

/// What the agent is asked at a turn.
pub open spec fn turn_prompt(first: Seq<char>, transcript: Seq<char>) -> Seq<char> {
    first + "\n\nTranscript so far:\n"@ + transcript
        + "\n\nWhat are your next action(s)? Respond with ONLY the JSON object."@
}

/// What the agent is asked at a turn.
pub fn prompt_for_turn(first: &str, transcript: &str) -> (res: String)
    ensures
        res@ == turn_prompt(first@, transcript@),
{
    let mut out = first.to_owned();
    append_text(&mut out, "\n\nTranscript so far:\n");
    append_text(&mut out, transcript);
    append_text(
        &mut out,
        "\n\nWhat are your next action(s)? Respond with ONLY the JSON object.",
    );
    out
}

/// The goal of an agent that answers a question.
pub fn ask_goal(question: &str) -> (res: String)
    ensures
        res@ == ASK_GOAL@ + question@,
{
    let mut out = ASK_GOAL.to_owned();
    append_text(&mut out, question);
    out
}

/// The goal of an agent that edits.
pub fn edit_goal(instruction: &str) -> (res: String)
    ensures
        res@ == EDIT_GOAL@ + instruction@,
{
    let mut out = EDIT_GOAL.to_owned();
    append_text(&mut out, instruction);
    out
}

/// A question in one go, with what a search found.
pub fn answer_prompt(context: &str, question: &str) -> (res: String)
    ensures
        res@ == ANSWER_HEAD@ + context@ + ANSWER_QUESTION@ + question@ + "\n"@,
{
    let mut out = ANSWER_HEAD.to_owned();
    append_text(&mut out, context);
    append_text(&mut out, ANSWER_QUESTION);
    append_text(&mut out, question);
    append_text(&mut out, "\n");
    out
}

/// An edit in one go, with what a search found.
pub fn rewrite_prompt(instruction: &str, context: &str) -> (res: String)
    ensures
        res@ == REWRITE_HEAD@ + instruction@ + REWRITE_CONTEXT@ + context@ + REWRITE_FORM@,
{
    let mut out = REWRITE_HEAD.to_owned();
    append_text(&mut out, instruction);
    append_text(&mut out, REWRITE_CONTEXT);
    append_text(&mut out, context);
    append_text(&mut out, REWRITE_FORM);
    out
}

// ---------------------------------------------------------------------------------------------
// Models
// ---------------------------------------------------------------------------------------------
/// Whether Gemini is asked: where the provider says so, or says neither and the model's name does.
/// The provider overrides the name.
pub open spec fn asks_gemini(provider: Seq<char>, model: Seq<char>) -> bool {
    if lowercase(provider) == "gemini"@ {
        true
    } else if lowercase(provider) == "ollama"@ || lowercase(provider) == "local"@ {
        false
    } else {
        occurs(lowercase(model), "gemini"@)
    }
}

/// Whether Gemini is asked, by an agent or in one go.
pub fn use_gemini(provider: &str, model: &str) -> (res: bool)
    ensures
        res == asks_gemini(provider@, model@),
{
    let provider = provider.to_lowercase();
    if same_text(provider.as_str(), "gemini") {
        true
    } else if same_text(provider.as_str(), "ollama") || same_text(provider.as_str(), "local") {
        false
    } else {
        text_contains(model.to_lowercase().as_str(), "gemini")
    }
}

/// Where Gemini is asked.
pub open spec fn gemini_address(model: Seq<char>, key: Seq<char>) -> Seq<char> {
    "https://generativelanguage.googleapis.com/v1beta/models/"@ + strip_prefixes(model, "models/"@)
        + ":generateContent?key="@ + key
}

/// Where Gemini is asked.
pub fn gemini_url(model: &str, api_key: &str) -> (res: String)
    ensures
        res@ == gemini_address(model@, api_key@),
{
    proof {
        reveal_strlit("models/");
    }
    let chars = to_chars(model);
    let mut out = "https://generativelanguage.googleapis.com/v1beta/models/".to_owned();
    append_text(&mut out, from_chars(stripped_prefixes(chars.as_slice(), "models/")).as_str());
    append_text(&mut out, ":generateContent?key=");
    append_text(&mut out, api_key);
    out
}

/// The reply among the candidates that Gemini gives, each a list of parts: the first part of the
/// first, or nothing.
pub open spec fn first_part(candidates: Option<Vec<Vec<String>>>) -> Seq<char> {
    match candidates {
        Some(list) => if list@.len() > 0 && list@[0]@.len() > 0 {
            list@[0]@[0]@
        } else {
            Seq::<char>::empty()
        },
        None => Seq::<char>::empty(),
    }
}

/// The reply among the candidates that Gemini gives.
pub fn gemini_reply(candidates: &Option<Vec<Vec<String>>>) -> (res: String)
    ensures
        res@ == first_part(*candidates),
{
    match candidates {
        Some(list) => {
            if list.len() > 0 && list[0].len() > 0 {
                list[0][0].as_str().to_owned()
            } else {
                String::new()
            }
        },
        None => String::new(),
    }
}

/// A reply without white space and code fences round it.
pub open spec fn clean(reply: Seq<char>) -> Seq<char> {
    trim(
        strip_suffixes(
            strip_prefixes(strip_prefixes(trim(reply), "```json"@), "```"@),
            "```"@,
        ),
    )
}

/// A reply without white space and code fences round it.
pub fn clean_reply(reply: &str) -> (res: String)
    ensures
        res@ == clean(reply@),
{
    proof {
        reveal_strlit("```json");
        reveal_strlit("```");
    }
    let chars = to_chars(reply);
    let body = stripped_prefixes(trimmed(chars.as_slice()), "```json");
    let body = stripped_suffixes(stripped_prefixes(body, "```"), "```");
    from_chars(trimmed(body))
}

/// The part of a text from the first opening brace to the last closing one.
pub open spec fn braced(text: Seq<char>) -> Option<Seq<char>> {
    let first = text.index_of_first('{');
    let last = text.index_of_last('}');
    match (first, last) {
        (Some(i), Some(j)) => if j > i {
            Some(text.subrange(i, j + 1))
        } else {
            None
        },
        _ => None,
    }
}

/// The part of a text from the first opening brace to the last closing one.
pub fn extract_json_object(text: &str) -> (res: Option<&str>)
    ensures
        match res {
            Some(part) => braced(text@) == Some(part@),
            None => braced(text@) is None,
        },
{
    let chars = to_chars(text);
    proof {
        text@.index_of_first_ensures('{');
        text@.index_of_last_ensures('}');
    }
    let mut i: usize = 0;
    while i < chars.len() && chars[i] != '{'
        invariant
            chars@ == text@,
            i <= chars@.len(),
            forall|k: int| 0 <= k < i ==> text@[k] != '{',
        decreases chars@.len() - i,
    {
        i = i + 1;
    }
    if i == chars.len() {
        return None;
    }
    let mut j: usize = chars.len();
    while j > 0 && chars[j - 1] != '}'
        invariant
            chars@ == text@,
            j <= chars@.len(),
            forall|k: int| j <= k < text@.len() ==> text@[k] != '}',
        decreases j,
    {
        j = j - 1;
    }
    if j == 0 {
        return None;
    }
    assert(text@[i as int] == '{');
    assert(text@[j - 1] == '}');
    if j - 1 > i {
        Some(text.substring_char(i, j))
    } else {
        None
    }
}

/// What is taken out of a reply by its braces begins and ends with them, and nothing that stands
/// round it holds an opening brace before or a closing brace after.
pub proof fn law_braced_is_framed(text: Seq<char>, at: int)
    requires
        braced(text) is Some,
        0 <= at < text.len(),
    ensures
        braced(text)->Some_0.first() == '{',
        braced(text)->Some_0.last() == '}',
        at < text.index_of_first('{')->Some_0 ==> text[at] != '{',
        at > text.index_of_last('}')->Some_0 ==> text[at] != '}',
{
    text.index_of_first_ensures('{');
    text.index_of_last_ensures('}');
}

/// The texts in a reply that may be a turn, in the order in which they are tried.
pub open spec fn turn_texts(reply: Seq<char>) -> Seq<Seq<char>> {
    match braced(reply) {
        Some(part) => seq![clean(reply), part],
        None => seq![clean(reply)],
    }
}

/// The texts in a reply that may be a turn, in the order in which they are tried.
pub fn turn_candidates(reply: &str) -> (res: Vec<String>)
    ensures
        texts(res@) == turn_texts(reply@),
{
    let mut out: Vec<String> = Vec::new();
    out.push(clean_reply(reply));
    match extract_json_object(reply) {
        Some(part) => {
            out.push(part.to_owned());
        },
        None => {},
    }
    assert(texts(out@) =~= turn_texts(reply@));
    out
}

/// The provider overrides the model: where it names one, the model makes no difference, and where it
/// names none, the provider makes none and the model's name decides.
pub proof fn law_provider_overrides_model(
    provider: Seq<char>,
    other: Seq<char>,
    a: Seq<char>,
    b: Seq<char>,
    model: Seq<char>,
)
    requires
        is_ascii_text(a),
        is_ascii_text(b),
    ensures
        lowercase(provider) == "gemini"@ ==> asks_gemini(provider, model),
        lowercase(provider) == "ollama"@ || lowercase(provider) == "local"@ ==> !asks_gemini(
            provider,
            model,
        ),
        lowercase(provider) != "gemini"@ && lowercase(provider) != "ollama"@ && lowercase(provider)
            != "local"@ && lowercase(other) != "gemini"@ && lowercase(other) != "ollama"@
            && lowercase(other) != "local"@ ==> asks_gemini(provider, model) == asks_gemini(
            other,
            model,
        ),
        asks_gemini(provider, a + "gemini"@ + b) || lowercase(provider) == "ollama"@ || lowercase(
            provider,
        ) == "local"@,
        !occurs(lowercase(model), "gemini"@) && lowercase(provider) != "gemini"@ ==> !asks_gemini(
            provider,
            model,
        ),
{
    reveal_strlit("gemini");
    reveal_strlit("ollama");
    reveal_strlit("local");
    assert("gemini"@[0] == 'g' && "ollama"@[0] == 'o' && "local"@[0] == 'l');
    let name = "gemini"@;
    let all = a + name + b;
    assert forall|i: int| 0 <= i < all.len() implies is_ascii_char(#[trigger] all[i]) by {
        if i < a.len() {
            assert(all[i] == a[i]);
        } else if i < a.len() + name.len() {
            assert(all[i] == name[i - a.len()]);
        } else {
            assert(all[i] == b[i - a.len() - name.len()]);
        }
    }
    assert(is_ascii_text(all));
    assert(ascii_lower_all(name) =~= name);
    assert(lowercase(all) =~= ascii_lower_all(a) + name + ascii_lower_all(b));
    lemma_occurs_whole(name);
    lemma_occurs_between(ascii_lower_all(a), name, ascii_lower_all(b), name);
}

/// A model may be named with or without the prefix that the service gives it, and the key stands at
/// the end of the address.
pub proof fn law_address_names_model_and_key(model: Seq<char>, key: Seq<char>)
    ensures
        gemini_address("models/"@ + model, key) == gemini_address(model, key),
        !has_prefix(model, "models/"@) ==> gemini_address(model, key)
            == "https://generativelanguage.googleapis.com/v1beta/models/"@ + model
            + ":generateContent?key="@ + key,
{
    reveal_strlit("models/");
    let long = "models/"@ + model;
    assert(long.take(7) =~= "models/"@);
    assert(long.skip(7) =~= model);
}

/// A reply in a code fence is read without it, and without the blanks inside.
pub proof fn law_code_fence_is_taken_off(a: Seq<char>, body: Seq<char>, b: Seq<char>)
    requires
        is_blank(a),
        is_blank(b),
        body.len() > 0,
        body[0] != '`',
        body.last() != '`',
    ensures
        clean(a + "```json"@ + body + "```"@ + b) == trim(body),
        body[0] != 'j' ==> clean(a + "```"@ + body + "```"@ + b) == trim(body),
{
    reveal_strlit("```json");
    reveal_strlit("```");
    let fence = "```"@;
    let open = "```json"@;
    let s = open + body + fence;
    law_trim_takes_blanks_off(a, s, b);
    assert(a + open + body + fence + b =~= a + s + b);
    let t = body + fence;
    assert(s.take(7) =~= open);
    assert(s.skip(7) =~= t);
    assert(!has_prefix(t, open)) by {
        if has_prefix(t, open) {
            assert(t.take(7)[0] == '`');
        }
    }
    assert(strip_prefixes(s, open) == t) by {
        reveal_with_fuel(strip_prefixes, 2);
    }
    lemma_fence_behind(body);
    let u = fence + body + fence;
    law_trim_takes_blanks_off(a, u, b);
    assert(a + fence + body + fence + b =~= a + u + b);
    if body[0] != 'j' {
        assert(!has_prefix(u, open)) by {
            if has_prefix(u, open) {
                assert(u.take(7)[3] == 'j');
                assert(u[3] == body[0]);
            }
        }
        assert(u.take(3) =~= fence);
        assert(u.skip(3) =~= t);
        assert(strip_prefixes(u, fence) == t) by {
            reveal_with_fuel(strip_prefixes, 2);
        }
    }
}

proof fn lemma_fence_behind(body: Seq<char>)
    requires
        body.len() > 0,
        body[0] != '`',
        body.last() != '`',
    ensures
        strip_prefixes(body + "```"@, "```"@) == body + "```"@,
        strip_suffixes(body + "```"@, "```"@) == body,
{
    reveal_strlit("```");
    let fence = "```"@;
    let t = body + fence;
    assert(!has_prefix(t, fence)) by {
        if has_prefix(t, fence) {
            assert(t.take(3)[0] == '`');
        }
    }
    let n = t.len() as int;
    assert(t.skip(n - 3) =~= fence);
    assert(t.take(n - 3) =~= body);
    reveal_with_fuel(strip_suffixes, 2);
    let m = body.len() as int;
    if m >= 3 {
        assert(body.skip(m - 3)[2] == body.last());
        assert(body.skip(m - 3) != fence);
    }
}

/// A reply without a code fence is read as it stands, without the blanks round it.
pub proof fn law_plain_reply_is_kept(a: Seq<char>, body: Seq<char>, b: Seq<char>)
    requires
        is_blank(a),
        is_blank(b),
        body.len() > 0,
        body[0] != '`',
        body.last() != '`',
        !is_ws(body[0]),
        !is_ws(body.last()),
    ensures
        clean(a + body + b) == body,
        turn_texts(a + body + b)[0] == body,
{
    reveal_strlit("```json");
    reveal_strlit("```");
    law_trim_takes_blanks_off(a, body, b);
    let none = Seq::<char>::empty();
    law_trim_takes_blanks_off(none, body, none);
    assert(none + body + none =~= body);
    assert(!has_prefix(body, "```json"@)) by {
        if has_prefix(body, "```json"@) {
            assert(body.take(7)[0] == '`');
        }
    }
    assert(!has_prefix(body, "```"@)) by {
        if has_prefix(body, "```"@) {
            assert(body.take(3)[0] == '`');
        }
    }
    let m = body.len() as int;
    if m >= 3 {
        assert(body.skip(m - 3)[2] == body.last());
    }
}

/// An object in the midst of a reply is tried too: what stands from the first opening brace to the
/// last closing one, braces and all.
pub proof fn law_object_in_a_reply_is_tried(a: Seq<char>, inner: Seq<char>, b: Seq<char>)
    requires
        !a.contains('{'),
        !b.contains('}'),
    ensures
        turn_texts(a + seq!['{'] + inner + seq!['}'] + b).len() == 2,
        turn_texts(a + seq!['{'] + inner + seq!['}'] + b)[1] == seq!['{'] + inner + seq!['}'],
{
    let text = a + seq!['{'] + inner + seq!['}'] + b;
    let i = a.len() as int;
    let j = i + 1 + inner.len();
    text.index_of_first_ensures('{');
    text.index_of_last_ensures('}');
    assert(text[i] == '{');
    assert(text[j] == '}');
    assert(text.contains('{') && text.contains('}'));
    let first = text.index_of_first('{')->Some_0;
    let last = text.index_of_last('}')->Some_0;
    if first < i {
        assert(a[first] == '{');
    }
    if last > j {
        assert(b[last - j - 1] == '}');
    }
    assert(first == i);
    assert(last == j);
    assert(text.subrange(i, j + 1) =~= seq!['{'] + inner + seq!['}']);
}

/// Only an agent with leave to write is told how to edit; all are told the rest.
pub proof fn law_only_writers_are_told_of_edits()
    ensures
        tools_description(true) == TOOLS_HEAD@ + TOOLS_WRITE@ + TOOLS_END@,
        tools_description(false) == TOOLS_HEAD@ + TOOLS_END@,
{
    reveal_strlit("");
    assert(TOOLS_HEAD@ + ""@ =~= TOOLS_HEAD@);
}

} // verus!
